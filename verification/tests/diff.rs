//! Comparing snapshots.

use agpeek::diff::{compare, compare_values, join, Change, KeyChange};
use agpeek::json::{Json, Number};
use agpeek::order::SortedMap;
use agpeek::snapshot::{FileEntry, Snapshot, FORMAT_VERSION};

fn whole(n: u64) -> Json {
    Json::Number(Number::PosInt(n))
}

fn text(s: &str) -> Json {
    Json::String(s.to_string())
}

fn object(entries: Vec<(&str, Json)>) -> Json {
    Json::Object(SortedMap::from_entries(
        entries
            .into_iter()
            .map(|(key, value)| (key.to_string(), value))
            .collect(),
    ))
}

fn float(n: f64) -> Json {
    Json::Number(Number::Float {
        bits: n.to_bits(),
        text: format!("{n:?}"),
    })
}

fn snapshot(group: &str, taken_at: &str, files: Vec<FileEntry>) -> Snapshot {
    Snapshot {
        version: FORMAT_VERSION,
        group_id: group.into(),
        container_uuid: "UUID".into(),
        device_udid: "DEVICE".into(),
        taken_at: taken_at.into(),
        files,
    }
}

fn plist_file(path: &str, sha: &str, content: Json) -> FileEntry {
    FileEntry {
        path: path.into(),
        size: 100,
        modified: None,
        sha256: sha.into(),
        content: Some(content),
    }
}

fn opaque_file(path: &str, sha: &str) -> FileEntry {
    FileEntry {
        path: path.into(),
        size: 100,
        modified: None,
        sha256: sha.into(),
        content: None,
    }
}

fn changes(before: &Json, after: &Json) -> Vec<KeyChange> {
    let mut out = Vec::new();
    compare_values(String::new(), before, after, &mut out);
    out
}

/// The acceptance case: one plist, one key, one changed number.
#[test]
fn compare_reports_the_changed_key_not_just_the_file() {
    let path = "Library/Preferences/group.app.natively.shared.plist";
    let before = snapshot(
        "group.app.natively.shared",
        "t0",
        vec![plist_file(path, "aaa", object(vec![("usageCount", whole(3))]))],
    );
    let after = snapshot(
        "group.app.natively.shared",
        "t1",
        vec![plist_file(path, "bbb", object(vec![("usageCount", whole(4))]))],
    );

    let changes = compare(&before, &after).expect("compares");
    assert_eq!(changes.files.len(), 1);

    let keys = changes.files[0].keys.as_ref().expect("descended into keys");
    assert_eq!(
        keys,
        &vec![KeyChange {
            key: "usageCount".into(),
            change: Change::Modified,
            before: Some(whole(3)),
            after: Some(whole(4)),
        }]
    );
}

#[test]
fn compare_reports_changes_inside_nested_dictionaries() {
    let path = "a.plist";
    let before = snapshot(
        "g",
        "t0",
        vec![plist_file(
            path,
            "aaa",
            object(vec![(
                "keyboard_diagnostics",
                object(vec![("net_apple", text("ok")), ("net_dns", text("ok"))]),
            )]),
        )],
    );
    let after = snapshot(
        "g",
        "t1",
        vec![plist_file(
            path,
            "bbb",
            object(vec![(
                "keyboard_diagnostics",
                object(vec![("net_apple", text("slow")), ("net_dns", text("ok"))]),
            )]),
        )],
    );

    let changes = compare(&before, &after).expect("compares");
    let keys = changes.files[0].keys.as_ref().expect("keys");

    assert_eq!(keys.len(), 1, "only the key that changed is reported");
    assert_eq!(keys[0].key, "keyboard_diagnostics.net_apple");
    assert_eq!(keys[0].after, Some(text("slow")));
}

#[test]
fn compare_reports_added_and_removed_keys() {
    let before = snapshot(
        "g",
        "t0",
        vec![plist_file(
            "a.plist",
            "aaa",
            object(vec![("gone", whole(1)), ("kept", whole(2))]),
        )],
    );
    let after = snapshot(
        "g",
        "t1",
        vec![plist_file(
            "a.plist",
            "bbb",
            object(vec![("kept", whole(2)), ("fresh", whole(3))]),
        )],
    );

    let changes = compare(&before, &after).expect("compares");
    let keys = changes.files[0].keys.as_ref().expect("keys");

    let by_key: Vec<(&str, Change)> = keys
        .iter()
        .map(|change| (change.key.as_str(), change.change))
        .collect();
    assert_eq!(
        by_key,
        vec![("fresh", Change::Added), ("gone", Change::Removed)]
    );
}

#[test]
fn compare_descends_into_arrays_by_index() {
    let before = snapshot(
        "g",
        "t0",
        vec![plist_file(
            "a.plist",
            "aaa",
            object(vec![("items", Json::Array(vec![text("a"), text("b")]))]),
        )],
    );
    let after = snapshot(
        "g",
        "t1",
        vec![plist_file(
            "a.plist",
            "bbb",
            object(vec![(
                "items",
                Json::Array(vec![text("a"), text("c"), text("d")]),
            )]),
        )],
    );

    let changes = compare(&before, &after).expect("compares");
    let keys = changes.files[0].keys.as_ref().expect("keys");

    assert_eq!(keys[0].key, "items[1]");
    assert_eq!(keys[0].change, Change::Modified);
    assert_eq!(keys[1].key, "items[2]");
    assert_eq!(keys[1].change, Change::Added);
}

#[test]
fn compare_falls_back_to_file_level_without_decoded_content() {
    let before = snapshot("g", "t0", vec![opaque_file("blob.bin", "aaa")]);
    let after = snapshot("g", "t1", vec![opaque_file("blob.bin", "bbb")]);

    let changes = compare(&before, &after).expect("compares");
    assert_eq!(changes.files[0].change, Change::Modified);
    assert!(
        changes.files[0].keys.is_none(),
        "no key detail is claimed for content that was never decoded"
    );
}

#[test]
fn compare_reports_added_and_removed_files() {
    let before = snapshot("g", "t0", vec![opaque_file("gone.txt", "aaa")]);
    let after = snapshot("g", "t1", vec![opaque_file("fresh.txt", "bbb")]);

    let changes = compare(&before, &after).expect("compares");
    let summary: Vec<(&str, Change)> = changes
        .files
        .iter()
        .map(|file| (file.path.as_str(), file.change))
        .collect();
    assert_eq!(
        summary,
        vec![("fresh.txt", Change::Added), ("gone.txt", Change::Removed)]
    );
}

#[test]
fn compare_of_identical_snapshots_is_empty() {
    let files = || vec![plist_file("a.plist", "aaa", object(vec![("k", whole(1))]))];
    let before = snapshot("g", "t0", files());
    let after = snapshot("g", "t1", files());

    assert!(compare(&before, &after).expect("compares").is_empty());
}

#[test]
fn compare_refuses_snapshots_of_different_groups() {
    let before = snapshot("group.one", "t0", vec![]);
    let after = snapshot("group.two", "t1", vec![]);

    let err = compare(&before, &after).unwrap_err().message();
    assert!(err.contains("different groups"), "got: {err}");
    assert_eq!(
        err,
        "snapshots describe different groups: `group.one` and `group.two`"
    );
}

#[test]
fn compare_notices_a_hash_change_with_identical_decoded_content() {
    // Same keys, different bytes — trailing padding, say. The file is
    // reported as modified with an empty key list rather than dropped.
    let before = snapshot("g", "t0", vec![plist_file("a.plist", "aaa", object(vec![]))]);
    let after = snapshot("g", "t1", vec![plist_file("a.plist", "bbb", object(vec![]))]);

    let changes = compare(&before, &after).expect("compares");
    assert_eq!(changes.files.len(), 1);
    assert_eq!(changes.files[0].keys.as_deref(), Some(&[][..]));
}

#[test]
fn compare_carries_the_group_the_times_and_the_sizes() {
    let mut old = opaque_file("a", "aaa");
    old.size = 7;
    let mut new = opaque_file("a", "bbb");
    new.size = 9;
    let before = snapshot("g", "t0", vec![old, opaque_file("gone", "x")]);
    let after = snapshot("g", "t1", vec![opaque_file("added", "y"), new]);

    let changes = compare(&before, &after).expect("compares");
    assert!(!changes.is_empty());
    assert_eq!(changes.group_id, "g");
    assert_eq!(changes.before, "t0");
    assert_eq!(changes.after, "t1");
    let rows: Vec<(&str, Option<u64>, Option<u64>)> = changes
        .files
        .iter()
        .map(|file| (file.path.as_str(), file.size_before, file.size_after))
        .collect();
    assert_eq!(
        rows,
        vec![
            ("a", Some(7), Some(9)),
            ("added", None, Some(100)),
            ("gone", Some(100), None)
        ]
    );
}

#[test]
fn compare_goes_by_the_first_file_of_a_path() {
    let before = snapshot("g", "t0", vec![opaque_file("a", "1"), opaque_file("a", "2")]);
    let after = snapshot("g", "t1", vec![opaque_file("a", "1")]);
    assert!(compare(&before, &after).expect("compares").is_empty());
}

#[test]
fn a_value_that_changes_its_kind_is_modified_where_it_stands() {
    let found = changes(
        &object(vec![("k", object(vec![("inner", whole(1))]))]),
        &object(vec![("k", Json::Array(vec![]))]),
    );
    assert_eq!(found.len(), 1);
    assert_eq!(found[0].key, "k");
    assert_eq!(found[0].change, Change::Modified);
    assert_eq!(found[0].after, Some(Json::Array(vec![])));
}

#[test]
fn a_scalar_at_the_root_changes_under_an_empty_key() {
    let found = changes(&Json::Null, &Json::Bool(true));
    assert_eq!(
        found,
        vec![KeyChange {
            key: String::new(),
            change: Change::Modified,
            before: Some(Json::Null),
            after: Some(Json::Bool(true)),
        }]
    );
}

#[test]
fn numbers_compare_as_numbers_do() {
    assert!(changes(&float(0.0), &float(-0.0)).is_empty(), "the two zeros are equal");
    assert_eq!(changes(&float(2.0), &whole(2)).len(), 1, "a double is no integer");
    assert_eq!(
        changes(&float(f64::NAN), &float(f64::NAN)).len(),
        1,
        "nothing equals what is not a number"
    );
    assert!(changes(&float(f64::INFINITY), &float(f64::INFINITY)).is_empty());
    assert_eq!(
        changes(&Json::Number(Number::NegInt(-1)), &Json::Number(Number::NegInt(-2))).len(),
        1
    );
}

#[test]
fn comparing_the_other_way_round_mirrors_the_changes() {
    let a = object(vec![
        ("gone", whole(1)),
        ("items", Json::Array(vec![whole(1), whole(2)])),
        ("same", text("x")),
    ]);
    let b = object(vec![
        ("items", Json::Array(vec![whole(1), whole(3), whole(4)])),
        ("new", Json::Null),
        ("same", text("x")),
    ]);
    let there = changes(&a, &b);
    let back = changes(&b, &a);
    assert_eq!(there.len(), 4);
    assert_eq!(there.len(), back.len());
    for (one, other) in there.iter().zip(&back) {
        assert_eq!(one.key, other.key);
        assert_eq!(one.before, other.after);
        assert_eq!(one.after, other.before);
        let mirrored = match one.change {
            Change::Added => Change::Removed,
            Change::Removed => Change::Added,
            Change::Modified => Change::Modified,
        };
        assert_eq!(other.change, mirrored);
    }
}

#[test]
fn changes_append_behind_what_is_there() {
    let mut out = vec![KeyChange {
        key: "first".into(),
        change: Change::Added,
        before: None,
        after: Some(Json::Null),
    }];
    compare_values("p".into(), &whole(1), &whole(2), &mut out);
    assert_eq!(out.len(), 2);
    assert_eq!(out[0].key, "first");
    assert_eq!(out[1].key, "p");
}

#[test]
fn join_puts_a_dot_between() {
    assert_eq!(join("", "key"), "key");
    assert_eq!(join("a.b", "c"), "a.b.c");
    assert_eq!(join("a", ""), "a.");
}
