//! Sniffing and decoding of file contents.

use agpeek::decode::property_list::PlistError;
use agpeek::decode::{
    decode, is_printable, looks_like_xml_plist, png_dimensions, settle, Body, Decoded, Format,
    Real, Value,
};
use agpeek::json::{Json, Number};

const PNG_MAGIC: &[u8] = b"\x89PNG\r\n\x1a\n";

fn text(s: &str) -> Json {
    Json::String(s.to_string())
}

fn object(entries: Vec<(&str, Json)>) -> Json {
    Json::Object(agpeek::order::SortedMap {
        entries: entries
            .into_iter()
            .map(|(key, value)| (key.to_string(), value))
            .collect(),
    })
}

/// The value that an XML plist of a single element decodes to.
fn xml(element: &str) -> Value {
    let document = format!("<?xml version=\"1.0\"?><plist version=\"1.0\">{element}</plist>");
    match decode(document.as_bytes()).body {
        Body::Value(value) => value,
        other => panic!("expected a value, got {other:?}"),
    }
}

fn note(decoded: Decoded) -> String {
    decoded.note.expect("a note")
}

#[test]
fn decode_recognises_an_empty_file() {
    let decoded = decode(b"");
    assert_eq!(decoded.format, Format::Empty);
    assert!(matches!(decoded.body, Body::Opaque));
}

#[test]
fn decode_recognises_sqlite_and_points_at_raw() {
    let decoded = decode(b"SQLite format 3\0rest of the header");
    assert_eq!(decoded.format, Format::Sqlite);
    assert!(decoded.note.expect("a note").contains("--raw"));
}

#[test]
fn decode_reads_png_dimensions() {
    let mut png = Vec::from(PNG_MAGIC);
    png.extend_from_slice(&[0, 0, 0, 13]); // IHDR length
    png.extend_from_slice(b"IHDR");
    png.extend_from_slice(&320u32.to_be_bytes());
    png.extend_from_slice(&240u32.to_be_bytes());

    let decoded = decode(&png);
    assert_eq!(decoded.format, Format::Png);
    assert!(decoded.note.expect("a note").contains("320x240"));
}

#[test]
fn decode_does_not_index_past_a_truncated_png() {
    let decoded = decode(PNG_MAGIC);
    assert_eq!(decoded.format, Format::Png);
    assert!(!decoded.note.expect("a note").contains('x'));
}

#[test]
fn decode_treats_utf8_as_text() {
    let decoded = decode("hello\nworld\n".as_bytes());
    assert_eq!(decoded.format, Format::Text);
    match decoded.body {
        Body::Text(text) => assert_eq!(text, "hello\nworld\n"),
        other => panic!("expected text, got {other:?}"),
    }
}

#[test]
fn decode_treats_utf8_with_control_bytes_as_binary() {
    // Decodes as UTF-8 but is plainly not text.
    let decoded = decode(b"\x00\x01\x02valid ascii");
    assert_eq!(decoded.format, Format::Binary);
}

#[test]
fn decode_recognises_an_xml_plist_with_leading_whitespace() {
    let xml = b"  \n<?xml version=\"1.0\"?><plist version=\"1.0\"><dict/></plist>";
    assert_eq!(decode(xml).format, Format::XmlPlist);
}

#[test]
fn looks_like_xml_plist_ignores_a_byte_order_mark() {
    assert!(looks_like_xml_plist(b"\xef\xbb\xbf<?xml version=\"1.0\"?>"));
}

#[test]
fn looks_like_xml_plist_rejects_other_xml_shaped_input() {
    assert!(!looks_like_xml_plist(b"<html><body>hi</body></html>"));
}

#[test]
fn looks_like_xml_plist_accepts_each_opening() {
    assert!(looks_like_xml_plist(b"<?xml"));
    assert!(looks_like_xml_plist(b"<!DOCTYPE plist PUBLIC>"));
    assert!(looks_like_xml_plist(b"\x0c\t<plist>"));
    assert!(!looks_like_xml_plist(b"\x0b<plist>"), "vertical tab is not skipped");
    assert!(!looks_like_xml_plist(b""));
    assert!(!looks_like_xml_plist(b"\xef\xbb\xbf"));
    assert!(!looks_like_xml_plist(b"<!DOCTYPE html>"));
}

#[test]
fn integers_beyond_json_range_serialise_as_strings() {
    let json = Value::Integer(i128::MAX).to_json();
    assert!(matches!(json, Json::String(_)), "got: {json:?}");

    let json = Value::Integer(-5).to_json();
    assert_eq!(json, Json::Number(Number::NegInt(-5)));

    let json = Value::Integer(u64::MAX.into()).to_json();
    assert_eq!(json, Json::Number(Number::PosInt(u64::MAX)));
}

#[test]
fn integers_serialise_exactly_at_the_edges() {
    let cases = [
        (0, Json::Number(Number::PosInt(0))),
        (i128::from(i64::MAX), Json::Number(Number::PosInt(9223372036854775807))),
        (i128::from(i64::MIN), Json::Number(Number::NegInt(i64::MIN))),
        (i128::from(i64::MIN) - 1, text("-9223372036854775809")),
        (i128::from(u64::MAX) + 1, text("18446744073709551616")),
        (i128::MIN, text("-170141183460469231731687303715884105728")),
    ];
    for (value, expected) in cases {
        assert_eq!(Value::Integer(value).to_json(), expected);
    }
}

#[test]
fn data_serialises_as_base64_with_a_byte_count() {
    let json = Value::Data(b"hello".to_vec()).to_json();
    assert_eq!(
        json,
        object(vec![
            ("base64", text("aGVsbG8=")),
            ("bytes", Json::Number(Number::PosInt(5))),
        ])
    );
}

#[test]
fn non_finite_reals_serialise_as_strings() {
    let json = xml("<real>nan</real>").to_json();
    assert!(matches!(json, Json::String(_)), "got: {json:?}");
    assert_eq!(xml("<real>nan</real>").to_json(), text("NaN"));
    assert_eq!(xml("<real>-inf</real>").to_json(), text("-inf"));
}

#[test]
fn finite_reals_serialise_as_numbers() {
    match xml("<real>2</real>").to_json() {
        Json::Number(Number::Float { bits, text }) => {
            assert_eq!(bits, 2.0f64.to_bits());
            assert_eq!(text, "2.0");
        }
        other => panic!("expected a number, got {other:?}"),
    }
}

#[test]
fn references_serialise_as_objects() {
    assert_eq!(
        Value::Uid(7).to_json(),
        object(vec![("uid", Json::Number(Number::PosInt(7)))])
    );
}

#[test]
fn nested_values_serialise_in_place() {
    let value = Value::Array(vec![
        Value::Bool(true),
        Value::Date("2026-07-30T21:36:02Z".to_string()),
        Value::Array(vec![Value::String("x".to_string())]),
    ]);
    assert_eq!(
        value.to_json(),
        Json::Array(vec![
            Json::Bool(true),
            text("2026-07-30T21:36:02Z"),
            Json::Array(vec![text("x")]),
        ])
    );
}

#[test]
fn decode_tells_a_png_by_its_dimensions_and_length() {
    let mut png = Vec::from(PNG_MAGIC);
    png.extend_from_slice(&[0, 0, 0, 13]);
    png.extend_from_slice(b"IHDR");
    png.extend_from_slice(&[0, 0, 1, 0]);
    png.extend_from_slice(&[1, 2, 3, 4]);
    assert_eq!(note(decode(&png)), "256x16909060 PNG, 24 bytes");
    assert_eq!(png_dimensions(&png), Some((256, 16909060)));
    for index in 12..16 {
        let mut odd = png.clone();
        odd[index] ^= 1;
        assert_eq!(png_dimensions(&odd), None);
        assert_eq!(note(decode(&odd)), "PNG, 24 bytes");
    }
    assert_eq!(note(decode(PNG_MAGIC)), "PNG, 8 bytes");
    assert_eq!(png_dimensions(&png[..23]), None);
}

#[test]
fn decode_sniffs_content_whatever_it_is_called() {
    assert_eq!(decode(b"bplist00").format, Format::BinaryPlist);
    assert_eq!(decode(b"bplist0").format, Format::Text);
    assert_eq!(decode(b"SQLite format 3").format, Format::Text);
    assert_eq!(decode(b"\xff\xfe").format, Format::Binary);
    assert_eq!(decode("caf\u{e9}".as_bytes()).format, Format::Text);
    assert_eq!(decode("\u{85}".as_bytes()).format, Format::Binary);
}

#[test]
fn a_plist_that_cannot_be_parsed_is_opaque_with_a_note() {
    let decoded = decode(b"bplist00");
    assert_eq!(decoded.format, Format::BinaryPlist);
    assert!(matches!(decoded.body, Body::Opaque));
    let said = note(decoded);
    assert!(
        said.starts_with("could not be parsed as a binary plist: "),
        "got: {said}"
    );
    assert!(said.len() > "could not be parsed as a binary plist: ".len());

    let said = note(decode(b"<?xml version=\"1.0\"?><plist><wrong></wrong></plist>"));
    assert!(
        said.starts_with("could not be parsed as a XML plist: "),
        "got: {said}"
    );
}

#[test]
fn settle_keeps_the_value_or_says_why_there_is_none() {
    let decoded = settle(Ok(Value::Bool(true)), Format::BinaryPlist);
    assert_eq!(decoded.format, Format::BinaryPlist);
    assert!(matches!(decoded.body, Body::Value(Value::Bool(true))));
    assert_eq!(decoded.note, None);

    let decoded = settle(
        Err(PlistError::Malformed("broken".to_string())),
        Format::XmlPlist,
    );
    assert!(matches!(decoded.body, Body::Opaque));
    assert_eq!(
        decoded.note,
        Some("could not be parsed as a XML plist: broken".to_string())
    );
}

#[test]
fn printable_text_has_no_control_characters_but_breaks_and_tabs() {
    assert!(is_printable("a\tb\r\nc \u{a0}\u{2028}"));
    assert!(!is_printable("a\u{0}"));
    assert!(!is_printable("\u{1f}"));
    assert!(!is_printable("\u{7f}"));
    assert!(!is_printable("\u{9f}"));
    assert!(is_printable(""));
}

#[test]
fn formats_have_names() {
    let names: Vec<&str> = [
        Format::BinaryPlist,
        Format::XmlPlist,
        Format::Sqlite,
        Format::Png,
        Format::Text,
        Format::Binary,
        Format::Empty,
    ]
    .into_iter()
    .map(Format::name)
    .collect();
    assert_eq!(
        names,
        vec![
            "binary plist",
            "XML plist",
            "SQLite database",
            "PNG image",
            "text",
            "binary",
            "empty"
        ]
    );
}

#[test]
fn reals_carry_their_texts() {
    match xml("<real>3.5</real>") {
        Value::Real(Real { bits, display, fixed, json }) => {
            assert_eq!(bits, 3.5f64.to_bits());
            assert_eq!(display, "3.5");
            assert_eq!(fixed, "3.5");
            assert_eq!(json, "3.5");
        }
        other => panic!("expected a real, got {other:?}"),
    }
    match xml("<real>2</real>") {
        Value::Real(written) => {
            assert_eq!(written.display, "2");
            assert_eq!(written.fixed, "2.0");
            assert_eq!(written.json, "2.0");
        }
        other => panic!("expected a real, got {other:?}"),
    }
}

#[test]
fn base64_pads_the_last_group() {
    for (bytes, encoded) in [
        (vec![], ""),
        (vec![0xff], "/w=="),
        (vec![0xfb, 0xf0], "+/A="),
        (vec![0, 16, 131], "ABCD"),
        (vec![0xff, 0xff, 0xff, 0x69], "////aQ=="),
        (b"0123456789".to_vec(), "MDEyMzQ1Njc4OQ=="),
    ] {
        let count = bytes.len() as u64;
        assert_eq!(
            Value::Data(bytes).to_json(),
            object(vec![
                ("base64", text(encoded)),
                ("bytes", Json::Number(Number::PosInt(count))),
            ])
        );
    }
}

#[test]
fn content_that_is_not_understood_says_so() {
    for bytes in [&b"\xff"[..], b"\x00\x01\x02valid ascii", b"\xc3\x28"] {
        let decoded = decode(bytes);
        assert_eq!(decoded.format, Format::Binary);
        assert!(matches!(decoded.body, Body::Opaque));
        assert_eq!(note(decoded), "not in a format that can be decoded");
    }
    assert_eq!(decode(b"").note, None);
}
