//! Text, numbers, orders and maps.

use agpeek::double::{are_equal, is_finite, is_integral};
use agpeek::number::{decimal_of, integer_of, push_padded_hexadecimal};
use agpeek::order::{collect, sort, SortedMap};
use agpeek::snapshot::FileEntry;
use agpeek::text::{comes_before, same, same_ignoring_case, words_of};

fn strings(items: &[&str]) -> Vec<String> {
    items.iter().map(|item| item.to_string()).collect()
}

#[test]
fn same_compares_characters() {
    assert!(same("caf\u{e9}", "caf\u{e9}"));
    assert!(!same("cafe\u{301}", "caf\u{e9}"));
    assert!(!same("a", "ab"));
}

#[test]
fn texts_come_in_the_order_of_their_bytes() {
    let texts = ["", "A", "AB", "B", "a", "\u{e9}", "\u{ffff}", "\u{10000}"];
    for a in texts {
        for b in texts {
            assert_eq!(comes_before(a, b), a < b, "{a:?} {b:?}");
        }
    }
}

#[test]
fn case_is_ignored_for_ascii_only() {
    assert!(same_ignoring_case("BOOTED", "booted"));
    assert!(!same_ignoring_case("\u{c9}", "\u{e9}"));
    assert!(!same_ignoring_case("@", "`"));
    assert!(!same_ignoring_case("ab", "abc"));
}

#[test]
fn words_are_split_as_in_the_standard_library() {
    for text in ["", " ", "a", " a  b ", "a\u{b}b\u{85}c\u{1680}d\u{200b}e"] {
        let expected: Vec<String> = text.split_whitespace().map(str::to_string).collect();
        assert_eq!(words_of(text), expected, "{text:?}");
    }
}

#[test]
fn numbers_are_written_out_in_full() {
    for n in [0, 9, 10, 99, 100, u128::MAX] {
        assert_eq!(decimal_of(n), n.to_string());
    }
    for n in [0, -1, 7, i128::MIN, i128::MAX] {
        assert_eq!(integer_of(n), n.to_string());
    }
    for n in [0, 15, 16, 0xdead_beef, u64::MAX] {
        let mut out = String::new();
        push_padded_hexadecimal(&mut out, n, 8);
        assert_eq!(out, format!("{n:08x}"));
    }
}

#[test]
fn doubles_are_read_off_their_bits() {
    let values = [
        0.0,
        -0.0,
        0.5,
        1.0,
        1.5,
        -2.0,
        3.25,
        4503599627370495.5,
        4503599627370496.0,
        1e22,
        1e300,
        5e-324,
        f64::MAX,
        f64::INFINITY,
        f64::NEG_INFINITY,
        f64::NAN,
    ];
    for a in values {
        assert_eq!(is_finite(a.to_bits()), a.is_finite(), "{a}");
        if a.is_finite() {
            assert_eq!(is_integral(a.to_bits()), a.fract() == 0.0, "{a}");
        }
        for b in values {
            assert_eq!(are_equal(a.to_bits(), b.to_bits()), a == b, "{a} {b}");
        }
    }
}

#[test]
fn collecting_sorts_and_drops_repeats() {
    assert_eq!(
        collect(strings(&["b", "a", "b", "", "a"])),
        strings(&["", "a", "b"])
    );
}

#[test]
fn sorting_keeps_the_order_of_ties() {
    let file = |path: &str, size| FileEntry {
        path: path.to_string(),
        size,
        modified: None,
        sha256: String::new(),
        content: None,
    };
    let sorted = sort(vec![file("b", 1), file("a", 2), file("b", 3), file("a", 4)]);
    let rows: Vec<(&str, u64)> = sorted
        .iter()
        .map(|file| (file.path.as_str(), file.size))
        .collect();
    assert_eq!(rows, vec![("a", 2), ("a", 4), ("b", 1), ("b", 3)]);
}

#[test]
fn maps_hold_the_last_value_of_a_key() {
    let mut map: SortedMap<u64> = SortedMap::new();
    map.insert("b".to_string(), 1);
    map.insert("a".to_string(), 2);
    map.insert("b".to_string(), 3);
    assert_eq!(map.get("a"), Some(&2));
    assert_eq!(map.get("b"), Some(&3));
    assert_eq!(map.get("c"), None);
    assert_eq!(
        map.entries,
        vec![("a".to_string(), 2), ("b".to_string(), 3)]
    );
}
