//! Inspecting iOS App Group containers: the verified core.

pub mod bytes;
pub mod clock;
pub mod decode;
pub mod diff;
pub mod discover;
pub mod double;
pub mod hash;
pub mod json;
pub mod number;
pub mod order;
pub mod path;
pub mod snapshot;
pub mod source;
pub mod text;
pub mod ui;
