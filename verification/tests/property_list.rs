//! Property lists, binary and XML.

use agpeek::decode::property_list::{
    convert, decode, has_far_date, read, PlistError, Tree, MAX_DEPTH, TOO_DEEP,
};
use agpeek::decode::xml_dates::{cut_short, find_far_date};
use agpeek::decode::Value;
use agpeek::order::SortedMap;

/// An XML property list exercising every type worth converting.
const SAMPLE: &str = r#"<?xml version="1.0" encoding="UTF-8"?>
<!DOCTYPE plist PUBLIC "-//Apple//DTD PLIST 1.0//EN" "http://www.apple.com/DTDs/PropertyList-1.0.dtd">
<plist version="1.0">
<dict>
    <key>someData</key>
    <data>aGVsbG8=</data>
    <key>aString</key>
    <string>hello</string>
    <key>aBool</key>
    <true/>
    <key>anInteger</key>
    <integer>42</integer>
    <key>aReal</key>
    <real>3.5</real>
    <key>aDate</key>
    <date>2026-07-30T20:36:02Z</date>
    <key>nested</key>
    <dict>
        <key>inner</key>
        <string>value</string>
    </dict>
    <key>anArray</key>
    <array>
        <string>one</string>
        <integer>2</integer>
        <false/>
    </array>
</dict>
</plist>
"#;

/// Re-encodes the XML fixture as a binary plist, which is the form found in
/// containers.
fn sample_binary() -> Vec<u8> {
    let value =
        plist::Value::from_reader_xml(std::io::Cursor::new(SAMPLE)).expect("fixture parses");
    let mut out = Vec::new();
    plist::to_writer_binary(&mut out, &value).expect("re-encodes");
    out
}

fn dict(value: &Value) -> &SortedMap<Value> {
    match value {
        Value::Dict(entries) => entries,
        other => panic!("expected a dict, got {other:?}"),
    }
}

fn document(element: &str) -> String {
    format!("<?xml version=\"1.0\"?><plist version=\"1.0\">{element}</plist>")
}

#[test]
fn decode_reads_the_xml_fixture() {
    let value = decode(SAMPLE.as_bytes()).expect("decodes");
    let entries = dict(&value);
    assert_eq!(entries.get("aString"), Some(&Value::String("hello".into())));
    assert_eq!(entries.get("aBool"), Some(&Value::Bool(true)));
    assert_eq!(entries.get("anInteger"), Some(&Value::Integer(42)));
}

#[test]
fn decode_reads_the_same_content_from_binary() {
    let from_xml = decode(SAMPLE.as_bytes()).expect("decodes");
    let from_binary = decode(&sample_binary()).expect("decodes");
    assert_eq!(from_xml, from_binary);
}

#[test]
fn decode_preserves_data_dates_and_nesting() {
    let value = decode(&sample_binary()).expect("decodes");
    let entries = dict(&value);

    assert_eq!(
        entries.get("someData"),
        Some(&Value::Data(b"hello".to_vec()))
    );
    assert!(matches!(entries.get("aDate"), Some(Value::Date(_))));

    let nested = dict(entries.get("nested").expect("nested key"));
    assert_eq!(nested.get("inner"), Some(&Value::String("value".into())));

    match entries.get("anArray") {
        Some(Value::Array(items)) => assert_eq!(items.len(), 3),
        other => panic!("expected an array, got {other:?}"),
    }
}

#[test]
fn dictionary_keys_are_sorted() {
    let value = decode(&sample_binary()).expect("decodes");
    let keys: Vec<&String> = dict(&value).entries.iter().map(|entry| &entry.0).collect();
    let mut sorted = keys.clone();
    sorted.sort();
    assert_eq!(keys, sorted, "keys come back in a deterministic order");
}

#[test]
fn decode_rejects_a_truncated_binary_plist_without_panicking() {
    let binary = sample_binary();
    // The trailer lives in the last 32 bytes, so this removes it entirely.
    assert!(decode(&binary[..20]).is_err());
}

/// The core promise of this module: malformed input errors, never panics.
#[test]
fn decode_never_panics_on_truncation_at_any_offset() {
    let binary = sample_binary();
    for length in 0..binary.len() {
        let _ = decode(&binary[..length]);
    }
}

#[test]
fn decode_never_panics_on_a_corrupted_byte_at_any_offset() {
    let binary = sample_binary();
    for index in 0..binary.len() {
        let mut corrupted = binary.clone();
        // Flipping the high bit tends to produce absurd lengths and offsets.
        corrupted[index] ^= 0x80;
        let _ = decode(&corrupted);
    }
}

#[test]
fn decode_never_panics_on_arbitrary_bytes() {
    for seed in 0u16..=u16::MAX {
        let bytes: Vec<u8> = seed
            .to_le_bytes()
            .iter()
            .cycle()
            .take(64)
            .copied()
            .collect();
        let _ = decode(&bytes);
    }
}

#[test]
fn convert_caps_runaway_nesting() {
    // Build a plist nested well beyond the cap.
    let mut value = Tree::String("bottom".into());
    for _ in 0..(MAX_DEPTH + 10) {
        value = Tree::Array(vec![value]);
    }

    let converted = convert(&value, 0);

    // Walk down and confirm it terminates in the marker rather than blowing up.
    let mut cursor = &converted;
    let mut depth = 0;
    while let Value::Array(items) = cursor {
        cursor = items.first().expect("one item");
        depth += 1;
    }
    assert_eq!(cursor, &Value::String(TOO_DEEP.into()));
    assert_eq!(depth, MAX_DEPTH);
}

#[test]
fn decode_caps_runaway_nesting_of_a_document() {
    let levels = MAX_DEPTH + 10;
    let text = document(&format!(
        "{}<string>bottom</string>{}",
        "<array>".repeat(levels),
        "</array>".repeat(levels)
    ));
    let value = decode(text.as_bytes()).expect("decodes");
    let mut cursor = &value;
    let mut depth = 0;
    while let Value::Array(items) = cursor {
        cursor = items.first().expect("one item");
        depth += 1;
    }
    assert_eq!(cursor, &Value::String(TOO_DEEP.into()));
    assert_eq!(depth, MAX_DEPTH);
}

#[test]
fn nesting_just_within_the_cap_is_kept() {
    let mut value = Tree::String("bottom".into());
    for _ in 0..(MAX_DEPTH - 1) {
        value = Tree::Array(vec![value]);
    }
    let converted = convert(&value, 0);
    let mut cursor = &converted;
    while let Value::Array(items) = cursor {
        cursor = items.first().expect("one item");
    }
    assert_eq!(cursor, &Value::String("bottom".into()));
}

#[test]
fn convert_takes_each_kind_of_value() {
    let integer = |signed, unsigned, text: &str| Tree::Integer {
        signed,
        unsigned,
        text: text.to_string(),
    };
    assert_eq!(convert(&Tree::Bool(false), 0), Value::Bool(false));
    assert_eq!(
        convert(&integer(Some(-3), None, "-3"), 0),
        Value::Integer(-3)
    );
    assert_eq!(
        convert(&integer(None, Some(u64::MAX), "18446744073709551615"), 0),
        Value::Integer(u64::MAX.into())
    );
    assert_eq!(
        convert(&integer(None, None, "99999999999999999999"), 0),
        Value::String("99999999999999999999".into())
    );
    assert_eq!(
        convert(&Tree::Data(vec![1, 2]), 0),
        Value::Data(vec![1, 2])
    );
    assert_eq!(
        convert(&Tree::Date("d".into()), 0),
        Value::Date("d".into())
    );
    assert_eq!(convert(&Tree::Uid(9), 0), Value::Uid(9));
    assert_eq!(
        convert(&Tree::Other("Thing".into()), 0),
        Value::String("<unsupported plist value: Thing>".into())
    );
    assert_eq!(
        convert(&Tree::Bool(true), MAX_DEPTH),
        Value::String(TOO_DEEP.into())
    );
}

#[test]
fn convert_sorts_keys_and_lets_the_last_of_two_win() {
    let tree = Tree::Dict(vec![
        ("b".into(), Tree::Uid(1)),
        ("a".into(), Tree::Uid(2)),
        ("b".into(), Tree::Uid(3)),
    ]);
    let converted = convert(&tree, 0);
    assert_eq!(
        dict(&converted).entries,
        vec![
            ("a".to_string(), Value::Uid(2)),
            ("b".to_string(), Value::Uid(3))
        ]
    );
}

#[test]
fn decode_reads_integers_of_either_sign() {
    let value = |text: &str| decode(document(text).as_bytes()).expect("decodes");
    assert_eq!(
        value("<integer>-9223372036854775808</integer>"),
        Value::Integer(i64::MIN.into())
    );
    assert_eq!(
        value("<integer>18446744073709551615</integer>"),
        Value::Integer(u64::MAX.into())
    );
}

#[test]
fn decode_writes_dates_in_rfc_3339() {
    let value = decode(document("<date>2026-07-30T20:36:02Z</date>").as_bytes()).expect("decodes");
    match value {
        Value::Date(text) => {
            let parsed = chrono::DateTime::parse_from_rfc3339(&text).expect("RFC 3339");
            assert_eq!(parsed.timestamp(), 1785443762);
        }
        other => panic!("expected a date, got {other:?}"),
    }
}

#[test]
fn read_hands_over_plain_values() {
    match read(document("<dict><key>k</key><array><true/></array></dict>").as_bytes()) {
        Ok(Tree::Dict(entries)) => {
            assert_eq!(entries.len(), 1);
            assert_eq!(entries[0].0, "k");
            match &entries[0].1 {
                Tree::Array(items) => assert!(matches!(items[..], [Tree::Bool(true)])),
                other => panic!("expected an array, got {other:?}"),
            }
        }
        other => panic!("expected a dictionary, got {other:?}"),
    }
}

#[test]
fn malformed_documents_are_errors_with_a_message() {
    match decode(b"bplist00 and then nothing that makes sense") {
        Err(error @ PlistError::Malformed(_)) => assert!(!error.message().is_empty()),
        other => panic!("expected an error, got {other:?}"),
    }
}

#[test]
fn a_date_that_leaves_the_year_9999_is_an_error() {
    let text = document("<date>9999-12-31T23:30:00-01:00</date>");
    match decode(text.as_bytes()) {
        Err(error @ PlistError::FarDate) => {
            assert_eq!(error.message(), "a date lies after the year 9999")
        }
        other => panic!("expected an error, got {other:?}"),
    }
}

#[test]
fn ordinary_dates_are_not_far() {
    assert!(!has_far_date(SAMPLE.as_bytes()));
    assert!(!has_far_date(&sample_binary()));
    for element in [
        "<date>9999-12-31T23:59:59Z</date>",
        "<date>9999-12-31T23:59:59+01:00</date>",
        "<date>9999-12-31T00:00:00-01:00</date>",
        "<date>2026-07-30T20:36:02-09:00</date>",
        "<date >2026-07-30T20:36:02Z</date>",
        "<date id=\"a>b\">2026-07-30T20:36:02Z</date>",
        "<date>2026<!-- the year -->-07-30T20:36:02Z</date>",
        "<date><!---->2024-01-01T00:00:00Z</date>",
        "<date><!-->--><!-- </date> -->2026-07-30T20:36:02Z</date>",
        "<date><![CDATA[9999]]>2026-07-30T20:36:02Z</date>",
        "<date><?x > y?>2026-07-30T20:36:02Z</date>",
        "<date>&#50;&#x30;26-07-30&#x54;20:36:02Z&unknown;</date>",
        "<!-- <date>9999-12-31T23:59:59-01:00</date> --><date>2026-07-30T20:36:02Z</date>",
        "<?a <date>9999-12-31T23:59:59-01:00</date>?><date>2026-07-30T20:36:02Z</date>",
        "<![CDATA[<date>9999-12-31T23:59:59-01:00</date>]]><date>2026-07-30T20:36:02Z</date>",
    ] {
        let text = document(element);
        assert!(!has_far_date(text.as_bytes()), "{element}");
        assert!(
            matches!(decode(text.as_bytes()), Ok(Value::Date(_))),
            "{element}"
        );
    }
    for element in [
        "<string>9999-12-31T23:59:59-01:00 &amp; more</string>",
        "<update>9999-12-31T23:59:59-01:00</update>",
        "<a:b:date>9999-12-31T23:59:59-01:00</a:b:date>",
        "<date/>",
        "<date>9999-12-31T23:59:59-01:00&#0;</date>",
        "<date>9999-12-31T23:59:59-01:00&</date>",
        "<date>9999-12-31<b/>T23:59:59-01:00</date>",
    ] {
        assert!(!has_far_date(document(element).as_bytes()), "{element}");
        let _ = decode(document(element).as_bytes());
    }
}

#[test]
fn dates_that_are_far_are_noticed() {
    for element in [
        "<date>9999-12-31T23:59:59-01:00</date>",
        "<date>9999-12-31 23:59:59.5-01:00</date>",
        "<x:date>9999-12-31T23:59:59-01:00</x:date>",
        "<date >9999-12-31T23:59:59-01:00</date>",
        "<date\n>9999-12-31T23:59:59-01:00</date>",
        "<date a='>'>9999-12-31T23:59:59-01:00</date>",
        "<date a='\"'>9999-12-31T23:59:59-01:00</date>",
        "<a\">\":date>9999-12-31T23:59:59-01:00</a\">\":date>",
        "<date>&#57;999-12-31T23:59:59-01:00</date>",
        "<date>&#x39;999-12-31T23:59:59-01:00</date>",
        "<date>9999-12-31&gt;23:59:59-01:00</date>",
        "<date>&unknown;9999-12-31T23:59:59-01:00</date>",
        "<date><!-- -->9999-12-31T23:59:59-01:00</date>",
        "<date><!-- </date> -->9999-12-31T23:59:59-01:00</date>",
        "<date>99<![CDATA[x]]>99-12-31T23:59:59-01:00</date>",
        "<date>9999<?x?>-12-31T23:59:59-01:00</date>",
        "<date>9999<!DOCTYPE \">\" x>-12-31T23:59:59-01:00</date>",
    ] {
        let text = document(element);
        assert!(has_far_date(text.as_bytes()), "{element}");
        assert!(
            matches!(decode(text.as_bytes()), Err(PlistError::FarDate)),
            "{element}"
        );
    }
}

#[test]
fn document_types_are_passed_over() {
    let with = |doctype: &str, date: &str| {
        format!("<?xml version=\"1.0\"?>{doctype}<plist><date>{date}</date></plist>")
    };
    for doctype in [
        "<!DOCTYPE plist PUBLIC \"-//Apple//DTD PLIST 1.0//EN\" \"http://www.apple.com/DTDs/>\">",
        "<!doctype plist>",
        "<!DOCTYPE plist [ <!ENTITY a \"<date>\"> ]>",
        "<!DOCTYPE plist [<!-- ]> -->]>",
        "<!DOCTYPE plist [<?a ]> ?>]>",
        "<!DOCTYPE plist [<!ENTITY a ']>'><!ATTLIST b \"]>\"><!NOTATION c ']>'>]>",
        "<!DOCTYPE plist '[' [<!ELEMENT a (b)>] >",
        "<!DOCTYPE plist [<?><!DOCTYPE ?>]>",
    ] {
        let near = with(doctype, "2026-07-30T20:36:02Z");
        assert!(!has_far_date(near.as_bytes()), "{near}");
        assert!(
            matches!(decode(near.as_bytes()), Ok(Value::Date(_))),
            "{near}"
        );
        let far = with(doctype, "9999-12-31T23:59:59-01:00");
        assert!(has_far_date(far.as_bytes()), "{far}");
    }
}

const FAR: &str = "<date>9999-12-31T23:00:00-01:00</date>";

#[test]
fn a_far_date_in_the_declarations_of_a_document_type_is_not_read() {
    let text = format!("<!DOCTYPE plist[<!--{FAR}-->]><true/>");
    assert!(!has_far_date(text.as_bytes()));
    assert!(matches!(decode(text.as_bytes()), Ok(Value::Bool(true))));
    for inner in [
        format!("<?a {FAR}?>"),
        format!("<!ENTITY a \"{FAR}]>\">"),
        format!("<!ATTLIST a '{FAR}]>'>"),
        format!("<!NOTATION a '{FAR}]>'>"),
        format!("<!ENTITY a \"<!--\">{FAR}<!ENTITY b \"-->\">"),
        FAR.to_string(),
    ] {
        let text = format!("<!DOCTYPE plist [{inner}]><true/>");
        assert_eq!(find_far_date(text.as_bytes()), None, "{text}");
        assert!(
            matches!(decode(text.as_bytes()), Ok(Value::Bool(true))),
            "{text}"
        );
    }
}

#[test]
fn a_far_date_in_an_ascii_document_is_text() {
    let text = format!("{{ a = \"{FAR}\"; }}");
    assert!(find_far_date(text.as_bytes()).is_some());
    assert!(!has_far_date(text.as_bytes()));
    match decode(text.as_bytes()).expect("decodes") {
        Value::Dict(entries) => {
            assert!(matches!(entries.get("a"), Some(Value::String(s)) if s == FAR))
        }
        other => panic!("expected a dict, got {other:?}"),
    }
    // Neither are these XML: what comes first is no element of a property list.
    for start in ["x", "<x/>", "<integer>x</integer>", "&x", "</a>"] {
        let text = format!("{start}{FAR}");
        assert!(
            matches!(decode(text.as_bytes()), Ok(Value::String(s)) if s == text),
            "{text}"
        );
    }
}

#[test]
fn what_is_wrong_before_a_far_date_is_what_is_said() {
    for (start, end, kind) in [
        ("<integer>x</integer>", "", "InvalidIntegerString"),
        ("<x/>", "", "UnknownXmlElement"),
        ("x", "", "UnexpectedXmlCharactersExpectedElement"),
        ("<dict><true/>", "</dict>", "UnexpectedEventType"),
        ("<true/><true/>", "", "ExpectedEndOfEventStream"),
        ("<string>", "</string>", "UnexpectedXmlOpeningTag"),
        ("<array></dict>", "</array>", "InvalidXmlSyntax"),
        ("<!ELEMENT a>", "", "UnexpectedEof"),
    ] {
        let text = document(&format!("{start}{FAR}{end}"));
        match decode(text.as_bytes()) {
            Err(PlistError::Malformed(error)) => {
                assert!(error.starts_with(kind), "{text}: {error}")
            }
            other => panic!("expected an error, got {other:?}"),
        }
    }
    for (element, kind) in [
        ("<date>9999-12-31T23:00:00-01:00</data>", "InvalidXmlSyntax"),
        ("<date>9999-12-31T24:00:00-01:00</date>", "InvalidDateString"),
        ("<date>9999-12-31T23:60:00-01:00</date>", "InvalidDateString"),
        ("<date>9999-12-31T23:00:60-01:00</date>", "InvalidDateString"),
        ("<date>9999-12-31T23:00:00.-01:00</date>", "InvalidDateString"),
        ("<date>9999-12-31T23:00:00-24:00</date>", "InvalidDateString"),
        ("<date>9999-12-31T23:00:00-01:60</date>", "InvalidDateString"),
        ("<date>9999-12-31T23:00:00x-01:00</date>", "InvalidDateString"),
        ("<date>9999-12-31T23.00.00-01:00</date>", "InvalidDateString"),
        ("<date>9999-12-31T23:00:00-01:00<!DOCTYPE ></date>", "InvalidXmlSyntax"),
        ("<date>9999-12-31T23:00:00-01:00", "InvalidXmlSyntax"),
    ] {
        let text = document(element);
        assert_eq!(find_far_date(text.as_bytes()), None, "{text}");
        match decode(text.as_bytes()) {
            Err(PlistError::Malformed(error)) => {
                assert!(error.starts_with(kind), "{text}: {error}")
            }
            other => panic!("expected an error, got {other:?}"),
        }
    }
    let mut bytes = document("<date>9999-12-31T23:00:00-01:00<!--?--></date>").into_bytes();
    let mark = bytes.len() - "?--></date></plist>".len();
    bytes[mark] = 0xff;
    assert_eq!(find_far_date(&bytes), None);
    assert!(matches!(decode(&bytes), Err(PlistError::Malformed(_))));
}

#[test]
fn a_far_date_is_reached_behind_the_mark_of_utf_8() {
    let text = format!("\u{feff}{FAR}");
    assert!(matches!(decode(text.as_bytes()), Err(PlistError::FarDate)));
    let twice = format!("\u{feff}\u{feff}{FAR}");
    assert!(!has_far_date(twice.as_bytes()));
    assert!(matches!(decode(twice.as_bytes()), Ok(Value::String(_))));
}

#[test]
fn a_document_is_cut_off_with_a_tag() {
    assert_eq!(cut_short(b"<a><b>", 3, true), b"<?xml?><a><true/>");
    assert_eq!(cut_short(b"<a><b>", 0, false), b"<?xml?><none/>");
}

/// Markup strewn into and around a far date in every way never makes the decoder
/// panic: either the date is noticed, and would have been read, or the outcome is that
/// of the reader.
#[test]
fn decode_never_panics_on_a_far_date_in_odd_markup() {
    let bits = [
        "<!--", "-->", "<![CDATA[", "]]>", "<?", "?>", "\"", "'", ">", "<", "<a b=\"", "</a>",
        "<!DOCTYPE x", "[", "]", "&#57;", "&", ";", "/", "<date>", "</date>", "--", "<!",
    ];
    let around = |one: &str, two: &str, first: usize, second: usize, sign: &str| {
        let pieces = [
            "<plist>",
            "<date",
            ">",
            "9999-12-31",
            "T23:59:59",
            sign,
            "01:00",
            "</date>",
            "</plist>",
        ];
        let mut text = String::new();
        for (index, piece) in pieces.iter().enumerate() {
            text.push_str(piece);
            if index == first {
                text.push_str(one);
            }
            if index == second {
                text.push_str(two);
            }
        }
        text
    };
    let parsed = |text: &str| {
        plist::Value::from_reader(std::io::Cursor::new(text)).map_err(|error| error.to_string())
    };
    for one in bits {
        for two in bits {
            for first in 0..8 {
                for second in [0, 2, 3, 6, 7] {
                    let text = around(one, two, first, second, "-");
                    match decode(text.as_bytes()) {
                        Ok(_) => assert!(parsed(&text).is_ok(), "{text}"),
                        Err(PlistError::Malformed(error)) => {
                            assert_eq!(parsed(&text), Err(error), "{text}")
                        }
                        Err(PlistError::FarDate) => {
                            let near = around(one, two, first, second, "+");
                            let spoilt = around(one, two, first, second, "x");
                            assert_ne!(parsed(&near), parsed(&spoilt), "{text}");
                        }
                    }
                }
            }
        }
    }
}

#[test]
fn the_last_day_of_the_year_9999_ends_at_midnight_in_utc() {
    for hour in 0..24 {
        for behind in 0..24 {
            for minute in [0, 30, 59] {
                let text = document(&format!(
                    "<date>9999-12-31T{hour:02}:59:00-{behind:02}:{minute:02}</date>"
                ));
                let far = (hour + behind) * 60 + 59 + minute >= 24 * 60;
                assert_eq!(has_far_date(text.as_bytes()), far, "{text}");
                assert_eq!(decode(text.as_bytes()).is_err(), far, "{text}");
            }
        }
    }
}

#[test]
fn a_binary_document_without_its_trailer_is_an_error() {
    for length in 8..32 {
        let mut cut = sample_binary();
        cut.truncate(length);
        assert!(matches!(decode(&cut), Err(PlistError::Malformed(_))));
    }
}

#[test]
fn the_order_of_entries_does_not_matter() {
    let first = document(
        "<dict><key>b</key><dict><key>x</key><true/><key>y</key><date>2026-07-30T20:36:02Z</date>\
         </dict><key>a</key><array><integer>1</integer></array></dict>",
    );
    let second = document(
        "<dict><key>a</key><array><integer>1</integer></array><key>b</key><dict><key>y</key>\
         <date>2026-07-30T20:36:02Z</date><key>x</key><true/></dict></dict>",
    );
    let value = plist::Value::from_reader_xml(std::io::Cursor::new(&second)).expect("parses");
    let mut binary = Vec::new();
    plist::to_writer_binary(&mut binary, &value).expect("re-encodes");
    let shown = |bytes: &[u8]| format!("{:?}", decode(bytes).expect("decodes"));
    assert_eq!(shown(first.as_bytes()), shown(second.as_bytes()));
    assert_eq!(shown(first.as_bytes()), shown(&binary));
}
