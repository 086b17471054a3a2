//! Capturing and loading snapshots.

use agpeek::clock::{format_in_zone, format_local, is_writable, EARLIEST, LATEST};
use agpeek::diff::compare;
use agpeek::decode::{Body, Decoded, Format, Value};
use agpeek::discover::{Container, ContainerKind, Device};
use agpeek::hash::{hash, hex, StreamHash};
use agpeek::json::{Json, Number};
use agpeek::snapshot::{
    fingerprint, format_time, hash_only, inline_content, normalise, reads_whole, CaptureError,
    FileEntry, Fingerprint, LoadError, Loaded, Reading, Snapshot, FORMAT_VERSION, INLINE_LIMIT,
};
use agpeek::source::sim::{Entry, EntryKind};

const SAMPLE: &str = "<?xml version=\"1.0\"?><plist version=\"1.0\"><dict>\
                      <key>aString</key><string>hello</string></dict></plist>";

fn stored(version: u32, files: Vec<FileEntry>) -> Snapshot {
    Snapshot {
        version,
        group_id: "group.example".into(),
        container_uuid: "UUID".into(),
        device_udid: "DEVICE".into(),
        taken_at: "2026-07-31T12:00:00+00:00".into(),
        files,
    }
}

fn entry(path: &str, sha: &str) -> FileEntry {
    FileEntry {
        path: path.into(),
        size: 1,
        modified: None,
        sha256: sha.into(),
        content: None,
    }
}

fn reading(path: &str, kind: EntryKind, outcome: Result<&str, &str>) -> Reading {
    Reading {
        entry: Entry {
            path: path.to_string(),
            depth: 1,
            kind,
            size: 5,
            modified: Some(0),
            error: None,
        },
        outcome: match outcome {
            Ok(sha256) => Ok(Fingerprint {
                sha256: sha256.to_string(),
                content: Some(Json::Null),
            }),
            Err(cause) => Err(cause.to_string()),
        },
    }
}

fn resolved() -> Container {
    Container {
        id: "group.example".to_string(),
        kind: ContainerKind::App,
        uuid: "UUID".to_string(),
        path: "/c".to_string(),
    }
}

fn device() -> Device {
    Device {
        udid: "DEVICE".to_string(),
        name: "iPhone".to_string(),
        state: "Booted".to_string(),
        runtime: "iOS".to_string(),
        data_path: "/d".to_string(),
    }
}

#[test]
fn hex_encodes_lowercase_fixed_width() {
    assert_eq!(hex(&[0x00, 0x0f, 0xff]), "000fff");
}

#[test]
fn normalise_uses_forward_slashes() {
    assert_eq!(
        normalise("Library/Preferences/x.plist"),
        "Library/Preferences/x.plist"
    );
}

#[test]
fn fingerprint_inlines_a_small_plist() {
    let print = fingerprint(SAMPLE.as_bytes());
    assert_eq!(print.sha256.len(), 64, "sha256 is 32 bytes hex-encoded");
    match print.content.expect("plist content is inlined") {
        Json::Object(map) => {
            assert_eq!(map.get("aString"), Some(&Json::String("hello".to_string())))
        }
        other => panic!("expected an object, got {other:?}"),
    }
}

#[test]
fn fingerprint_does_not_inline_a_non_plist() {
    let print = fingerprint(b"hello");
    assert!(print.content.is_none(), "only plists are inlined");
    assert_eq!(
        print.sha256,
        "2cf24dba5fb0a30e26e83b2ac5b9e29e1b161e5c1fa7425e73043362938b9824"
    );
}

#[test]
fn fingerprint_skips_inlining_above_the_limit() {
    assert!(reads_whole(INLINE_LIMIT));
    assert!(!reads_whole(INLINE_LIMIT + 1));
    assert_eq!(INLINE_LIMIT, 262144);
    let mut stream = StreamHash::new();
    stream.update(b"bplist00");
    let print = hash_only(stream.finish());
    assert_eq!(print.sha256.len(), 64);
    assert!(print.content.is_none(), "oversized files are hash-only");
}

#[test]
fn stream_hash_matches_the_in_memory_hash() {
    let bytes = vec![0xab; 200 * 1024];
    let mut stream = StreamHash::new();
    for chunk in bytes.chunks(64 * 1024) {
        stream.update(chunk);
    }
    assert_eq!(stream.finish(), hash(&bytes));
    assert_eq!(
        StreamHash::new().finish(),
        "e3b0c44298fc1c149afbf4c8996fb92427ae41e4649b934ca495991b7852b855"
    );
}

#[test]
fn a_malformed_plist_is_hashed_without_content() {
    let print = fingerprint(b"bplist00 and nothing more");
    assert!(print.content.is_none());
    assert_eq!(print.sha256, hash(b"bplist00 and nothing more"));
}

#[test]
fn only_decoded_plists_have_content() {
    let decoded = |format, body| Decoded {
        format,
        body,
        note: None,
    };
    assert_eq!(
        inline_content(&decoded(
            Format::BinaryPlist,
            Body::Value(Value::Integer(3))
        )),
        Some(Json::Number(Number::PosInt(3)))
    );
    assert_eq!(
        inline_content(&decoded(Format::XmlPlist, Body::Value(Value::Uid(1)))).is_some(),
        true
    );
    assert_eq!(
        inline_content(&decoded(Format::Text, Body::Value(Value::Uid(1)))),
        None
    );
    assert_eq!(
        inline_content(&decoded(Format::BinaryPlist, Body::Opaque)),
        None
    );
    assert_eq!(
        inline_content(&decoded(Format::Text, Body::Text("x".to_string()))),
        None
    );
}

#[test]
fn load_hands_over_the_snapshot_that_was_read() {
    let written = stored(FORMAT_VERSION, vec![entry("a.plist", "aa")]);
    let snapshot = Snapshot::load("snap.json", Loaded::Snapshot(written)).expect("loads");
    assert_eq!(snapshot.group_id, "group.example");
    assert_eq!(snapshot.files.len(), 1);
    assert_eq!(
        snapshot.file("a.plist").map(|f| f.sha256.as_str()),
        Some("aa")
    );
    assert!(snapshot.file("b.plist").is_none());
}

#[test]
fn load_rejects_a_newer_format_version() {
    let err = Snapshot::load("snap.json", Loaded::Snapshot(stored(99, vec![])))
        .unwrap_err()
        .message();
    assert!(err.contains("format 99"), "got: {err}");
    assert_eq!(
        err,
        "`snap.json` uses snapshot format 99 but this build understands 1"
    );
    assert!(Snapshot::load("old.json", Loaded::Snapshot(stored(0, vec![]))).is_ok());
}

#[test]
fn load_says_why_there_is_no_snapshot() {
    match Snapshot::load("snap.json", Loaded::Malformed) {
        Err(error @ LoadError::Malformed { .. }) => {
            assert_eq!(error.message(), "`snap.json` is not a valid snapshot")
        }
        other => panic!("expected an error, got {other:?}"),
    }
    match Snapshot::load("snap.json", Loaded::Unreadable) {
        Err(error @ LoadError::Unreadable { .. }) => {
            assert_eq!(error.message(), "could not read snapshot `snap.json`")
        }
        other => panic!("expected an error, got {other:?}"),
    }
}

#[test]
fn capture_records_files_in_order_of_their_paths() {
    let readings = vec![
        reading("b/./x", EntryKind::File, Ok("1")),
        reading("b", EntryKind::Dir, Err("not read")),
        reading("a", EntryKind::File, Ok("2")),
        reading("link", EntryKind::Symlink, Ok("3")),
        reading("gone", EntryKind::Unreadable, Err("denied")),
    ];
    let snapshot =
        Snapshot::capture(readings, &resolved(), &device(), 1_785_443_762).expect("captures");
    assert_eq!(snapshot.version, FORMAT_VERSION);
    assert_eq!(snapshot.group_id, "group.example");
    assert_eq!(snapshot.container_uuid, "UUID");
    assert_eq!(snapshot.device_udid, "DEVICE");
    let taken = chrono::DateTime::parse_from_rfc3339(&snapshot.taken_at).expect("a time");
    assert_eq!(taken.timestamp(), 1_785_443_762);
    let rows: Vec<(&str, &str, u64)> = snapshot
        .files
        .iter()
        .map(|file| (file.path.as_str(), file.sha256.as_str(), file.size))
        .collect();
    assert_eq!(rows, vec![("a", "2", 5), ("b/x", "1", 5)]);
    let modified = snapshot.files[0].modified.as_deref().expect("a time");
    assert_eq!(
        chrono::DateTime::parse_from_rfc3339(modified)
            .expect("RFC 3339")
            .timestamp(),
        0
    );
    assert_eq!(snapshot.files[0].content, Some(Json::Null));
}

#[test]
fn capture_names_the_first_file_that_cannot_be_read() {
    let readings = vec![
        reading("a", EntryKind::File, Ok("1")),
        reading("dir/b", EntryKind::File, Err("permission denied")),
        reading("c", EntryKind::File, Err("gone")),
    ];
    let error = Snapshot::capture(readings, &resolved(), &device(), 0).unwrap_err();
    assert_eq!(error.message(), "could not fingerprint `dir/b`");
    match error {
        CaptureError::Unreadable { path, cause } => {
            assert_eq!(path, "dir/b");
            assert_eq!(cause, "permission denied");
        }
    }
}

#[test]
fn times_are_written_in_rfc_3339() {
    assert_eq!(format_in_zone(0, 0), "1970-01-01T00:00:00Z");
    assert_eq!(
        format_in_zone(1_785_443_762, 3600),
        "2026-07-30T21:36:02+01:00"
    );
    assert_eq!(format_in_zone(-1, -1800), "1969-12-31T23:29:59-00:30");
    let local = format_local(1_785_443_762);
    assert_eq!(format_time(1_785_443_762), local);
    assert_eq!(
        chrono::DateTime::parse_from_rfc3339(&local)
            .expect("RFC 3339")
            .timestamp(),
        1_785_443_762
    );
}

#[test]
fn the_ends_of_time_can_be_written_in_any_zone() {
    assert!(is_writable(EARLIEST));
    assert!(is_writable(LATEST));
    assert!(!is_writable(EARLIEST - 1));
    assert!(!is_writable(LATEST + 1));
    for offset in [-86_399, 0, 86_399] {
        assert!(format_in_zone(EARLIEST, offset).starts_with("-26214"));
        assert!(format_in_zone(LATEST, offset).starts_with("+26214"));
    }
}

#[test]
fn capturing_again_changes_nothing_but_the_time() {
    let readings = || {
        vec![
            reading("b", EntryKind::File, Ok("1")),
            reading("a", EntryKind::File, Ok("2")),
        ]
    };
    let before = Snapshot::capture(readings(), &resolved(), &device(), 0).expect("captures");
    let after = Snapshot::capture(readings(), &resolved(), &device(), 60).expect("captures");
    assert_eq!(before.files, after.files);
    assert_ne!(before.taken_at, after.taken_at);
    let changes = compare(&before, &after).expect("one group");
    assert!(changes.is_empty());
}
