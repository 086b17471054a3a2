//! What each command shows.

use agpeek::decode::{decode, Body, Decoded, Format, Value};
use agpeek::discover::{AppGroup, Device};
use agpeek::source::sim::{Entry, EntryKind};
use agpeek::ui::listing::{contents, defaults_path, devices, entries, groups};

fn device(name: &str, state: &str) -> Device {
    Device {
        udid: "U".to_string(),
        name: name.to_string(),
        state: state.to_string(),
        runtime: "iOS 26.5".to_string(),
        data_path: "/d".to_string(),
    }
}

fn entry(path: &str, depth: usize, kind: EntryKind, error: Option<&str>) -> Entry {
    Entry {
        path: path.to_string(),
        depth,
        kind,
        size: 266,
        modified: None,
        error: error.map(str::to_string),
    }
}

#[test]
fn devices_are_listed_with_runtime_and_state() {
    assert_eq!(
        devices(&[device("iPhone 17", "Booted"), device("iPad", "Shutdown")]),
        "\u{1b}[1mNAME\u{1b}[0m       \u{1b}[1mRUNTIME\u{1b}[0m   \u{1b}[1mSTATE\u{1b}[0m     \
         \u{1b}[1mUDID\u{1b}[0m\n\
         iPhone 17  iOS 26.5  Booted    \u{1b}[2mU\u{1b}[0m\n\
         iPad       iOS 26.5  Shutdown  \u{1b}[2mU\u{1b}[0m\n"
    );
}

#[test]
fn having_no_devices_is_said_plainly() {
    assert_eq!(devices(&[]), "No simulators available.\n");
}

#[test]
fn groups_are_listed_with_their_paths() {
    let found = AppGroup {
        id: "group.com.apple.weather".to_string(),
        path: "/tmp/App Group/one".to_string(),
    };
    assert_eq!(
        groups(&[found]),
        "\u{1b}[1mGROUP\u{1b}[0m                    \u{1b}[1mPATH\u{1b}[0m\n\
         group.com.apple.weather  \u{1b}[2m/tmp/App Group/one\u{1b}[0m\n"
    );
}

#[test]
fn entries_are_listed_as_a_tree() {
    let shown = entries(
        "group.example",
        &[
            entry("Library", 1, EntryKind::Dir, None),
            entry("Library/x.plist", 2, EntryKind::File, None),
            entry("Locked", 1, EntryKind::Unreadable, Some("denied")),
        ],
        &["t1".to_string(), "t2".to_string(), String::new()],
    );
    assert_eq!(
        shown,
        "\u{1b}[1mNAME\u{1b}[0m             \u{1b}[1mSIZE\u{1b}[0m    \u{1b}[1mMODIFIED\u{1b}[0m\n\
         group.example            \u{1b}[2m\u{1b}[0m\n\
         ├── Library              \u{1b}[2mt1\u{1b}[0m\n\
         │   └── x.plist  266 B   \u{1b}[2mt2\u{1b}[0m\n\
         └── Locked       denied  \u{1b}[2m\u{1b}[0m\n"
    );
}

#[test]
fn contents_fall_back_to_a_hexdump_with_a_note() {
    let decoded = |body, note: Option<&str>| Decoded {
        format: Format::Binary,
        body,
        note: note.map(str::to_string),
    };
    assert_eq!(
        contents(&decoded(Body::Value(Value::Bool(true)), None), b"x", 0),
        "true\n"
    );
    assert_eq!(
        contents(&decoded(Body::Text("a\nb".to_string()), None), b"x", 0),
        "a\nb"
    );
    let dumped = "00000000  41 42                                             |AB|\n";
    assert_eq!(contents(&decoded(Body::Opaque, None), b"AB", 0), dumped);
    assert_eq!(
        contents(&decoded(Body::Opaque, Some("why")), b"AB", 0),
        format!("why\n{dumped}")
    );
    assert_eq!(contents(&decode(b""), b"", 16), "");
}

#[test]
fn defaults_are_kept_in_the_preferences_of_the_group() {
    assert_eq!(
        defaults_path("group.app.natively.shared"),
        "Library/Preferences/group.app.natively.shared.plist"
    );
}
