[package]
name = "agpeek"
version = "0.1.0"
edition = "2021"
publish = false

[dependencies]
anstream = "*"
anstyle = "*"
anyhow = "*"
base64 = "*"
chrono = "*"
clap = { version = "*", features = ["derive"] }
plist = "*"
serde = { version = "*", features = ["derive"] }
serde_json = "*"
sha2 = "*"
unicode-width = "*"
walkdir = "*"
