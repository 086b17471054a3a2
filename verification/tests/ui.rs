//! Tables, trees, values and changes as they are shown.

use agpeek::decode::{decode, Body, Value};
use agpeek::diff::{Change, ChangeSet, FileChange, KeyChange};
use agpeek::json::{Json, Number};
use agpeek::order::SortedMap;
use agpeek::ui::diff as ui_diff;
use agpeek::ui::tree::{self, prefixes, Node};
use agpeek::ui::value::{self, data_preview, hexdump, scalar};
use agpeek::ui::{error_report, lay_out, push_styled, table, Color, Column, Measured, Style};

/// Strips ANSI escapes so assertions can talk about visible text.
fn plain(styled: &str) -> String {
    let mut out = String::new();
    let mut chars = styled.chars();
    while let Some(ch) = chars.next() {
        if ch == '\u{1b}' {
            for escape in chars.by_ref() {
                if escape == 'm' {
                    break;
                }
            }
        } else {
            out.push(ch);
        }
    }
    out
}

/// Strips ANSI escapes and the trailing detail columns, leaving the tree.
fn shape(rendered: &str) -> Vec<String> {
    rendered
        .lines()
        .skip(1) // header
        .map(|line| plain(line).trim_end().to_string())
        .collect()
}

fn node(depth: usize, name: &str) -> Node<'_> {
    Node {
        depth,
        name,
        detail: String::new(),
        modified: String::new(),
    }
}

fn dict(entries: Vec<(&str, Value)>) -> Value {
    Value::Dict(SortedMap::from_entries(
        entries
            .into_iter()
            .map(|(key, value)| (key.to_string(), value))
            .collect(),
    ))
}

fn text(s: &str) -> Value {
    Value::String(s.to_string())
}

/// A double, by way of a plist that holds it.
fn number(written: &str) -> Value {
    let document = format!("<?xml version=\"1.0\"?><plist><real>{written}</real></plist>");
    match decode(document.as_bytes()).body {
        Body::Value(value) => value,
        other => panic!("expected a value, got {other:?}"),
    }
}

fn whole(n: u64) -> Json {
    Json::Number(Number::PosInt(n))
}

fn changes(files: Vec<FileChange>) -> ChangeSet {
    ChangeSet {
        group_id: "group.example".into(),
        before: "t0".into(),
        after: "t1".into(),
        files,
    }
}

fn modified(path: &str, keys: Option<Vec<KeyChange>>) -> FileChange {
    FileChange {
        path: path.into(),
        change: Change::Modified,
        size_before: Some(100),
        size_after: Some(100),
        keys,
    }
}

#[test]
fn table_aligns_columns_and_omits_trailing_padding() {
    let rendered = table(
        &[Column::new("NAME"), Column::new("STATE")],
        &[
            vec!["iPhone 17".into(), "Booted".into()],
            vec!["iPad".into(), "Shutdown".into()],
        ],
    );

    let lines: Vec<String> = plain(&rendered).lines().map(str::to_string).collect();
    assert_eq!(lines[0], "NAME       STATE");
    assert_eq!(lines[1], "iPhone 17  Booted");
    assert_eq!(lines[2], "iPad       Shutdown");
    assert!(
        lines.iter().all(|line| line == line.trim_end()),
        "no trailing whitespace"
    );
}

#[test]
fn table_measures_width_in_terminal_columns() {
    let rendered = table(
        &[Column::new("NAME"), Column::new("X")],
        &[
            vec!["日本語".into(), "a".into()],
            vec!["ab".into(), "b".into()],
        ],
    );

    let lines: Vec<String> = plain(&rendered).lines().map(str::to_string).collect();
    // "日本語" is 3 chars and 9 bytes, but occupies 6 terminal columns — so it
    // sets the column width, and "ab" is padded out to match it.
    assert_eq!(lines[1], "日本語  a");
    assert_eq!(lines[2], "ab      b");
}

#[test]
fn table_renders_header_only_when_there_are_no_rows() {
    let rendered = table(&[Column::new("NAME")], &[]);
    assert_eq!(plain(&rendered), "NAME\n");
}

#[test]
fn table_styles_headers_and_dim_columns() {
    let rendered = table(
        &[Column::new("A"), Column::dim("B")],
        &[vec!["x".into(), "y".into()]],
    );
    assert_eq!(
        rendered,
        "\u{1b}[1mA\u{1b}[0m  \u{1b}[1mB\u{1b}[0m\nx  \u{1b}[2my\u{1b}[0m\n"
    );
}

#[test]
fn table_takes_rows_of_any_length() {
    let rendered = table(
        &[Column::new("A"), Column::new("B")],
        &[
            vec!["1".into()],
            vec!["2".into(), "3".into(), "4".into()],
            vec![],
        ],
    );
    assert_eq!(plain(&rendered), "A  B\n1  \n2  34  \n\n");
    assert_eq!(table(&[], &[vec!["x".into(), "y".into()]]), "\nxy  \n");
}

#[test]
fn lay_out_goes_by_the_widths_it_is_given() {
    let measured = Measured {
        headers: vec![1, 1],
        cells: vec![vec![4, 1], vec![2, 1]],
    };
    let rendered = lay_out(
        &[Column::new("A"), Column::new("B")],
        &[
            vec!["wide".into(), "x".into()],
            vec!["日".into(), "y".into()],
        ],
        &measured,
    );
    assert_eq!(plain(&rendered), "A     B\nwide  x\n日    y\n");
}

#[test]
fn styles_open_with_their_effects_and_close_with_a_reset() {
    let styled = |bold, dimmed, color| {
        let mut out = ">".to_string();
        push_styled(
            &mut out,
            Style {
                bold,
                dimmed,
                color,
            },
            "x",
        );
        out
    };
    assert_eq!(styled(false, false, None), ">x");
    assert_eq!(styled(true, false, None), ">\u{1b}[1mx\u{1b}[0m");
    assert_eq!(styled(false, true, None), ">\u{1b}[2mx\u{1b}[0m");
    assert_eq!(
        styled(true, true, Some(Color::Red)),
        ">\u{1b}[1m\u{1b}[2m\u{1b}[31mx\u{1b}[0m"
    );
    assert_eq!(
        styled(false, false, Some(Color::Green)),
        ">\u{1b}[32mx\u{1b}[0m"
    );
    assert_eq!(
        styled(false, false, Some(Color::Yellow)),
        ">\u{1b}[33mx\u{1b}[0m"
    );
}

#[test]
fn errors_are_reported_with_their_causes() {
    assert_eq!(
        error_report("went wrong", &vec!["one".to_string(), "two".to_string()]),
        "\u{1b}[1m\u{1b}[31merror:\u{1b}[0m went wrong\n  caused by: one\n  caused by: two\n"
    );
    assert_eq!(plain(&error_report("alone", &vec![])), "error: alone\n");
}

#[test]
fn render_draws_connectors_for_a_nested_tree() {
    let nodes = vec![
        node(1, "Library"),
        node(2, "Caches"),
        node(3, "AppConfiguration"),
        node(2, "Preferences"),
        node(3, "group.example.plist"),
        node(1, "note.txt"),
    ];

    assert_eq!(
        shape(&tree::render("group.example", &nodes)),
        vec![
            "group.example",
            "├── Library",
            "│   ├── Caches",
            "│   │   └── AppConfiguration",
            "│   └── Preferences",
            "│       └── group.example.plist",
            "└── note.txt",
        ]
    );
}

#[test]
fn render_marks_the_only_child_as_last() {
    let nodes = vec![node(1, "Library"), node(2, "Preferences")];

    assert_eq!(
        shape(&tree::render("root", &nodes)),
        vec!["root", "└── Library", "    └── Preferences"]
    );
}

#[test]
fn render_handles_siblings_after_a_deep_subtree() {
    let nodes = vec![node(1, "a"), node(2, "a1"), node(3, "a1x"), node(1, "b")];

    assert_eq!(
        shape(&tree::render("root", &nodes)),
        vec!["root", "├── a", "│   └── a1", "│       └── a1x", "└── b"]
    );
}

#[test]
fn render_of_an_empty_tree_is_just_the_root() {
    assert_eq!(shape(&tree::render("root", &[])), vec!["root"]);
}

#[test]
fn render_aligns_detail_columns() {
    let nodes = vec![
        Node {
            depth: 1,
            name: "short.txt",
            detail: "5 B".into(),
            modified: "2026-07-30 21:36".into(),
        },
        Node {
            depth: 1,
            name: "a-much-longer-name.plist",
            detail: "266 B".into(),
            modified: "2026-07-30 21:37".into(),
        },
    ];

    let lines = shape(&tree::render("root", &nodes));
    // Both size values start at the same column despite differing name widths.
    let first = lines[1].find("5 B").expect("size present");
    let second = lines[2].find("266 B").expect("size present");
    assert_eq!(first, second);
}

#[test]
fn prefixes_survive_depths_that_skip_a_level() {
    let drawn = prefixes(&[node(0, "a"), node(5, "b"), node(2, "c"), node(1, "d")]);
    assert_eq!(drawn, vec!["└── ", "    └── ", "    └── ", "└── "]);
}

#[test]
fn render_writes_scalars_one_per_line() {
    let value = dict(vec![
        ("chineseModeEnabled", Value::Bool(false)),
        ("usageCount", Value::Integer(4)),
        ("usageMonth", text("2026-07")),
    ]);

    assert_eq!(
        value::render(&value),
        "chineseModeEnabled: false\nusageCount: 4\nusageMonth: \"2026-07\"\n"
    );
}

#[test]
fn render_indents_nested_dictionaries() {
    let value = dict(vec![
        (
            "keyboard_diagnostics",
            dict(vec![("net_apple", text("ok")), ("net_worker", text("slow"))]),
        ),
        ("usageCount", Value::Integer(4)),
    ]);

    assert_eq!(
        value::render(&value),
        "keyboard_diagnostics:\n  net_apple: \"ok\"\n  net_worker: \"slow\"\nusageCount: 4\n"
    );
}

#[test]
fn render_writes_arrays_as_bullets() {
    let value = dict(vec![(
        "favourites",
        Value::Array(vec![text("one"), Value::Integer(2), Value::Bool(false)]),
    )]);

    assert_eq!(
        value::render(&value),
        "favourites:\n  - \"one\"\n  - 2\n  - false\n"
    );
}

#[test]
fn render_quotes_strings_so_empties_and_numbers_are_distinguishable() {
    let value = dict(vec![
        ("empty", text("")),
        ("numeric", text("4")),
        ("trailing", text("x ")),
        ("actual", Value::Integer(4)),
    ]);

    let rendered = value::render(&value);
    assert!(rendered.contains("empty: \"\""), "got: {rendered}");
    assert!(rendered.contains("numeric: \"4\""), "got: {rendered}");
    assert!(rendered.contains("trailing: \"x \""), "got: {rendered}");
    assert!(rendered.contains("actual: 4"), "got: {rendered}");
}

#[test]
fn render_distinguishes_integral_reals_from_integers() {
    let value = dict(vec![
        ("real", number("2.0")),
        ("integer", Value::Integer(2)),
        ("fractional", number("3.5")),
    ]);

    let rendered = value::render(&value);
    assert!(rendered.contains("real: 2.0"), "got: {rendered}");
    assert!(rendered.contains("integer: 2\n"), "got: {rendered}");
    assert!(rendered.contains("fractional: 3.5"), "got: {rendered}");
}

#[test]
fn render_shows_non_finite_reals_without_panicking() {
    let value = dict(vec![("nan", number("nan"))]);
    assert!(value::render(&value).contains("nan: NaN"));
}

#[test]
fn render_shows_empty_containers_inline() {
    let value = dict(vec![
        ("emptyDict", dict(vec![])),
        ("emptyArray", Value::Array(Vec::new())),
    ]);

    assert_eq!(value::render(&value), "emptyArray: []\nemptyDict: {}\n");
}

#[test]
fn render_previews_data_with_a_byte_count() {
    let value = dict(vec![("blob", Value::Data(b"hello".to_vec()))]);
    assert_eq!(value::render(&value), "blob: <5 bytes> 68656c6c6f\n");
}

#[test]
fn render_truncates_a_long_data_preview() {
    let value = dict(vec![("blob", Value::Data(vec![0xab; 40]))]);
    let rendered = value::render(&value);
    assert!(rendered.contains("<40 bytes>"), "got: {rendered}");
    assert!(rendered.ends_with("…\n"), "got: {rendered}");
}

#[test]
fn render_nests_containers_in_arrays() {
    let value = Value::Array(vec![
        dict(vec![("a", Value::Array(vec![Value::Uid(7)]))]),
        Value::Date("2026-07-30T21:36:02Z".to_string()),
    ]);
    assert_eq!(
        value::render(&value),
        "-\n  a:\n    - <uid 7>\n- 2026-07-30T21:36:02Z\n"
    );
    assert_eq!(value::render(&text("a\nb")), "\"a\\nb\"\n");
}

#[test]
fn doubles_are_told_apart_by_their_fraction() {
    for (written, shown) in [
        ("0", "0.0"),
        ("-0", "-0.0"),
        ("1", "1.0"),
        ("0.5", "0.5"),
        ("-7", "-7.0"),
        ("1e300", &format!("{:.1}", 1e300)),
        ("4503599627370495.5", "4503599627370495.5"),
        ("4503599627370497", "4503599627370497.0"),
        ("9007199254740993", "9007199254740992.0"),
        ("1e-320", &1e-320f64.to_string()),
        ("inf", "inf"),
    ] {
        assert_eq!(scalar(&number(written)), shown, "{written}");
    }
}

#[test]
fn data_previews_stop_at_sixteen_bytes() {
    assert_eq!(data_preview(&[]), "<0 bytes> ");
    assert_eq!(
        data_preview(&[0x0a; 16]),
        "<16 bytes> 0a0a0a0a0a0a0a0a0a0a0a0a0a0a0a0a"
    );
    assert_eq!(
        data_preview(&[0x0a; 17]),
        "<17 bytes> 0a0a0a0a0a0a0a0a0a0a0a0a0a0a0a0a…"
    );
}

#[test]
fn hexdump_lays_out_offsets_bytes_and_ascii() {
    let dumped = hexdump(b"bplist00\x01\x02", 0);
    assert_eq!(
        dumped,
        "00000000  62 70 6c 69 73 74 30 30  01 02                    |bplist00..|\n"
    );
}

#[test]
fn hexdump_honours_a_limit_and_says_what_it_dropped() {
    let dumped = hexdump(&[0x41; 40], 16);
    assert!(dumped.contains("… 24 more bytes"), "got: {dumped}");
    assert_eq!(dumped.lines().count(), 2);
}

#[test]
fn hexdump_of_nothing_is_empty() {
    assert_eq!(hexdump(b"", 0), "");
}

#[test]
fn hexdump_counts_offsets_in_sixteens() {
    let bytes: Vec<u8> = (0..40).collect();
    assert_eq!(
        hexdump(&bytes, 33),
        "00000000  00 01 02 03 04 05 06 07  08 09 0a 0b 0c 0d 0e 0f  |................|\n\
         00000010  10 11 12 13 14 15 16 17  18 19 1a 1b 1c 1d 1e 1f  |................|\n\
         00000020  20                                                | |\n\
         … 7 more bytes (use --limit 0 for all)\n"
    );
    assert_eq!(hexdump(&bytes, 40), hexdump(&bytes, 0));
    assert_eq!(hexdump(&bytes, 41), hexdump(&bytes, 0));
}

#[test]
fn render_reports_a_changed_key_under_its_file() {
    let set = changes(vec![modified(
        "Library/Preferences/group.app.natively.shared.plist",
        Some(vec![KeyChange {
            key: "usageCount".into(),
            change: Change::Modified,
            before: Some(whole(3)),
            after: Some(whole(4)),
        }]),
    )]);

    assert_eq!(
        plain(&ui_diff::render(&set)),
        "~ Library/Preferences/group.app.natively.shared.plist\n  ~ usageCount: 3 → 4\n"
    );
}

#[test]
fn render_shows_nested_key_paths() {
    let set = changes(vec![modified(
        "a.plist",
        Some(vec![KeyChange {
            key: "keyboard_diagnostics.net_apple".into(),
            change: Change::Modified,
            before: Some(Json::String("ok".into())),
            after: Some(Json::String("slow".into())),
        }]),
    )]);

    assert!(
        plain(&ui_diff::render(&set))
            .contains("~ keyboard_diagnostics.net_apple: \"ok\" → \"slow\""),
        "got: {}",
        plain(&ui_diff::render(&set))
    );
}

#[test]
fn render_marks_additions_and_removals() {
    let set = changes(vec![modified(
        "a.plist",
        Some(vec![
            KeyChange {
                key: "fresh".into(),
                change: Change::Added,
                before: None,
                after: Some(whole(1)),
            },
            KeyChange {
                key: "gone".into(),
                change: Change::Removed,
                before: Some(whole(2)),
                after: None,
            },
        ]),
    )]);

    let rendered = plain(&ui_diff::render(&set));
    assert!(rendered.contains("+ fresh: 1"), "got: {rendered}");
    assert!(rendered.contains("- gone: 2"), "got: {rendered}");
}

#[test]
fn render_notes_a_size_change_on_the_file_line() {
    let mut file = modified("a.plist", None);
    file.size_after = Some(140);
    let rendered = plain(&ui_diff::render(&changes(vec![file])));
    assert!(rendered.contains("(100 → 140 bytes)"), "got: {rendered}");
}

#[test]
fn render_explains_a_hash_only_change() {
    let rendered = plain(&ui_diff::render(&changes(vec![modified(
        "a.plist",
        Some(vec![]),
    )])));
    assert!(
        rendered.contains("contents differ but decode identically"),
        "got: {rendered}"
    );
}

#[test]
fn render_summarises_containers_rather_than_expanding_them() {
    let set = changes(vec![modified(
        "a.plist",
        Some(vec![KeyChange {
            key: "items".into(),
            change: Change::Added,
            before: None,
            after: Some(Json::Array(vec![whole(1), whole(2), whole(3)])),
        }]),
    )]);

    assert!(plain(&ui_diff::render(&set)).contains("+ items: [3 items]"));
}

#[test]
fn render_of_no_changes_says_so() {
    let rendered = plain(&ui_diff::render(&changes(vec![])));
    assert!(
        rendered.contains("no changes in group.example"),
        "got: {rendered}"
    );
    assert_eq!(
        rendered,
        "no changes in group.example between t0 and t1\n"
    );
}

#[test]
fn changes_render_with_their_styles() {
    let set = changes(vec![
        FileChange {
            path: "new".into(),
            change: Change::Added,
            size_before: None,
            size_after: Some(5),
            keys: None,
        },
        FileChange {
            path: "old".into(),
            change: Change::Removed,
            size_before: Some(6),
            size_after: None,
            keys: None,
        },
        modified(
            "p",
            Some(vec![KeyChange {
                key: String::new(),
                change: Change::Modified,
                before: Some(Json::Bool(true)),
                after: Some(Json::Null),
            }]),
        ),
    ]);
    assert_eq!(
        ui_diff::render(&set),
        "\u{1b}[1m\u{1b}[32m+ new\u{1b}[0m \u{1b}[2m(5 bytes)\u{1b}[0m\n\
         \u{1b}[1m\u{1b}[31m- old\u{1b}[0m \u{1b}[2m(6 bytes)\u{1b}[0m\n\
         \u{1b}[1m\u{1b}[33m~ p\u{1b}[0m\n  \u{1b}[1m\u{1b}[33m~ (root)\u{1b}[0m: true → null\n"
    );
}

#[test]
fn json_scalars_fit_on_a_line() {
    let shown = |value: Json| ui_diff::scalar(&value);
    assert_eq!(shown(Json::Number(Number::NegInt(-12))), "-12");
    assert_eq!(
        shown(Json::Number(Number::Float {
            bits: 2.5f64.to_bits(),
            text: "2.5".into()
        })),
        "2.5"
    );
    assert_eq!(shown(Json::String("a\"b".into())), "\"a\\\"b\"");
    assert_eq!(
        shown(Json::Object(SortedMap {
            entries: vec![("k".into(), Json::Null)]
        })),
        "{1 keys}"
    );
    assert_eq!(shown(Json::Bool(false)), "false");
}

#[test]
fn a_truncated_dump_is_no_dump_of_a_shorter_file() {
    let cut = hexdump(&[0x41; 40], 16);
    assert_ne!(cut, hexdump(&[0x41; 16], 0));
    assert!(cut.starts_with(&hexdump(&[0x41; 16], 0)));
}
