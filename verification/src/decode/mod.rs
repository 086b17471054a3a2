//! Making container bytes human-readable.
//!
//! App Group contents are mostly opaque binary, and this module is where that is
//! dealt with. Two rules govern everything here:
//!
//! * **Decoding never fails the command.** [`decode`] returns a best-effort result
//!   and cannot return an error — anything it does not understand, or understands
//!   but cannot parse, comes back as [`Body::Opaque`] with a note explaining why,
//!   for the caller to hexdump. A debugging tool that panics on the thing you were
//!   trying to debug is worse than useless.
//! * **Content is sniffed, never inferred from the filename.** A `.plist`
//!   extension on a JPEG proves nothing about what an app actually wrote.

use base64::Engine;
use vstd::prelude::*;
use crate::bytes;
use crate::bytes::{end_of_space, number_at, starts_at, utf8_text};
use crate::double;
use crate::double::is_finite;
use crate::json;
use crate::json::{Json, JsonModel, Number, NumberModel};
use crate::number;
use crate::number::{integer_of, push_decimal};
use crate::order;
use crate::order::SortedMap;
use crate::text;
use crate::text::chars_of;

use self::property_list::PlistError;

pub mod property_list;
pub mod xml_dates;

verus! {

/// A floating-point number: its IEEE 754 bits with the texts that stand for it.
#[derive(Debug, PartialEq)]
pub struct Real {
    /// The IEEE 754 bits.
    pub bits: u64,
    /// The shortest text that reads back as the number.
    pub display: String,
    /// The number with one digit after the point.
    pub fixed: String,
    /// The number as written in a JSON document.
    pub json: String,
}

/// A decoded value, covering the property-list type system.
///
/// This exists rather than decoding straight to [`Json`] because plists carry three
/// types JSON has no equivalent for — raw data, dates, and `CF$UID` references —
/// and collapsing them early would lose exactly the detail worth seeing.
#[derive(Debug, PartialEq)]
pub enum Value {
    /// A boolean.
    Bool(bool),
    /// An integer. Widened to `i128` so both `i64` and `u64` plist integers fit.
    Integer(i128),
    /// A floating-point number.
    Real(Real),
    /// A string.
    String(String),
    /// Raw bytes.
    Data(Vec<u8>),
    /// A timestamp, already formatted as RFC 3339.
    Date(String),
    /// An `NSKeyedArchiver` object reference.
    Uid(u64),
    /// An ordered list.
    Array(Vec<Value>),
    /// A mapping, sorted by key so output is deterministic.
    Dict(SortedMap<Value>),
}

/// What a floating-point number is.
pub struct RealModel {
    /// The IEEE 754 bits.
    pub bits: u64,
    /// The shortest text that reads back as the number.
    pub display: Seq<char>,
    /// The number with one digit after the point.
    pub fixed: Seq<char>,
    /// The number as written in a JSON document.
    pub json: Seq<char>,
}

/// What a decoded value is.
pub enum ValueModel {
    /// A boolean.
    Bool(bool),
    /// An integer.
    Integer(i128),
    /// A floating-point number.
    Real(RealModel),
    /// A string.
    String(Seq<char>),
    /// Raw bytes.
    Data(Seq<u8>),
    /// A timestamp, already formatted as RFC 3339.
    Date(Seq<char>),
    /// An `NSKeyedArchiver` object reference.
    Uid(u64),
    /// An ordered list.
    Array(Seq<ValueModel>),
    /// The keys with their values.
    Dict(Seq<(Seq<char>, ValueModel)>),
}

impl View for Real {
    type V = RealModel;

    open spec fn view(&self) -> RealModel {
        RealModel {
            bits: self.bits,
            display: self.display@,
            fixed: self.fixed@,
            json: self.json@,
        }
    }
}

impl View for Value {
    type V = ValueModel;

    open spec fn view(&self) -> ValueModel {
        model(*self)
    }
}

/// What a decoded value is.
pub open spec fn model(value: Value) -> ValueModel
    decreases value,
{
    match value {
        Value::Bool(b) => ValueModel::Bool(b),
        Value::Integer(n) => ValueModel::Integer(n),
        Value::Real(r) => ValueModel::Real(r@),
        Value::String(s) => ValueModel::String(s@),
        Value::Data(data) => ValueModel::Data(data@),
        Value::Date(s) => ValueModel::Date(s@),
        Value::Uid(n) => ValueModel::Uid(n),
        Value::Array(items) => ValueModel::Array(
            Seq::new(
                items@.len(),
                |i: int|
                    if 0 <= i < items@.len() {
                        model(items@[i])
                    } else {
                        ValueModel::Uid(0)
                    },
            ),
        ),
        Value::Dict(map) => ValueModel::Dict(
            Seq::new(
                map.entries@.len(),
                |i: int|
                    if 0 <= i < map.entries@.len() {
                        (map.entries@[i].0@, model(map.entries@[i].1))
                    } else {
                        (seq![], ValueModel::Uid(0))
                    },
            ),
        ),
    }
}

/// The views of a list of values.
pub open spec fn models(items: Seq<Value>) -> Seq<ValueModel> {
    items.map_values(|item: Value| item@)
}

/// The view of an array lists the views of its items.
pub proof fn array_view(items: Vec<Value>)
    ensures
        Value::Array(items)@ == ValueModel::Array(models(items@)),
        Value::Array(items)@ matches ValueModel::Array(found) && found.len() == items@.len()
            && forall|i: int| 0 <= i < found.len() ==> #[trigger] found[i] == items@[i]@,
{
    assert(Value::Array(items)@->Array_0 =~= models(items@));
}

/// The view of a dictionary lists the views of its entries.
pub proof fn dict_view(map: SortedMap<Value>)
    ensures
        Value::Dict(map)@ == ValueModel::Dict(map.pairs()),
        Value::Dict(map)@ matches ValueModel::Dict(found) && found.len() == map.entries@.len()
            && forall|i: int|
            0 <= i < found.len() ==> #[trigger] found[i] == (
                map.entries@[i].0@,
                map.entries@[i].1@,
            ),
{
    assert(Value::Dict(map)@->Dict_0 =~= map.pairs());
}

/// Whether the keys of every dictionary in the value ascend.
pub open spec fn valid(value: ValueModel) -> bool
    decreases value,
{
    match value {
        ValueModel::Array(items) => forall|i: int|
            0 <= i < items.len() ==> valid(#[trigger] items[i]),
        ValueModel::Dict(entries) => {
            &&& order::ascending(order::keys(entries))
            &&& forall|i: int| 0 <= i < entries.len() ==> valid((#[trigger] entries[i]).1)
        },
        _ => true,
    }
}

// ---------------------------------------------------------------------------
// Values as JSON
// ---------------------------------------------------------------------------

/// The digit of the standard base64 alphabet for a number below 64.
pub open spec fn base64_digit(n: int) -> char {
    if n < 26 {
        ('A' as int + n) as char
    } else if n < 52 {
        ('a' as int + n - 26) as char
    } else if n < 62 {
        ('0' as int + n - 52) as char
    } else if n == 62 {
        '+'
    } else {
        '/'
    }
}

/// Bytes in base64: every three bytes make four digits of six bits each, and where
/// the last group is short of a byte or two, padding fills it up.
pub open spec fn base64_text(bytes: Seq<u8>) -> Seq<char>
    decreases bytes.len(),
{
    if bytes.len() == 0 {
        seq![]
    } else if bytes.len() == 1 {
        seq![
            base64_digit(bytes[0] as int / 4),
            base64_digit(bytes[0] as int % 4 * 16),
            '=',
            '=',
        ]
    } else if bytes.len() == 2 {
        seq![
            base64_digit(bytes[0] as int / 4),
            base64_digit(bytes[0] as int % 4 * 16 + bytes[1] as int / 16),
            base64_digit(bytes[1] as int % 16 * 4),
            '=',
        ]
    } else {
        seq![
            base64_digit(bytes[0] as int / 4),
            base64_digit(bytes[0] as int % 4 * 16 + bytes[1] as int / 16),
            base64_digit(bytes[1] as int % 16 * 4 + bytes[2] as int / 64),
            base64_digit(bytes[2] as int % 64),
        ] + base64_text(bytes.skip(3))
    }
}

/// `base64::engine::general_purpose::STANDARD` encodes bytes in the standard
/// alphabet with padding.
#[verifier::external_body]
fn base64_of(bytes: &Vec<u8>) -> (encoded: String)
    ensures
        encoded@ == base64_text(bytes@),
{
    base64::engine::general_purpose::STANDARD.encode(bytes)
}

/// An integer as JSON: a number as far as 64 bits reach, a string beyond.
pub open spec fn integer_json(n: i128) -> JsonModel {
    if i64::MIN <= n < 0 {
        JsonModel::Number(NumberModel::NegInt(n as i64))
    } else if 0 <= n <= u64::MAX {
        JsonModel::Number(NumberModel::PosInt(n as u64))
    } else {
        JsonModel::String(number::integer(n as int))
    }
}

/// A value as JSON.
///
/// Data becomes its base64 form beside its length, a reference becomes an object of
/// its own, and a number that JSON does not have becomes a string.
pub open spec fn projected(value: ValueModel) -> JsonModel
    decreases value,
{
    match value {
        ValueModel::Bool(b) => JsonModel::Bool(b),
        ValueModel::Integer(n) => integer_json(n),
        ValueModel::Real(r) => if double::finite(r.bits) {
            JsonModel::Number(NumberModel::Float(r.bits, r.json))
        } else {
            JsonModel::String(r.display)
        },
        ValueModel::String(s) => JsonModel::String(s),
        ValueModel::Data(data) => JsonModel::Object(
            seq![
                ("base64"@, JsonModel::String(base64_text(data))),
                ("bytes"@, JsonModel::Number(NumberModel::PosInt(data.len() as u64))),
            ],
        ),
        ValueModel::Date(s) => JsonModel::String(s),
        ValueModel::Uid(n) => JsonModel::Object(
            seq![("uid"@, JsonModel::Number(NumberModel::PosInt(n)))],
        ),
        ValueModel::Array(items) => JsonModel::Array(
            Seq::new(
                items.len(),
                |i: int|
                    if 0 <= i < items.len() {
                        projected(items[i])
                    } else {
                        JsonModel::Null
                    },
            ),
        ),
        ValueModel::Dict(entries) => JsonModel::Object(
            Seq::new(
                entries.len(),
                |i: int|
                    if 0 <= i < entries.len() {
                        (entries[i].0, projected(entries[i].1))
                    } else {
                        (seq![], JsonModel::Null)
                    },
            ),
        ),
    }
}

/// Serialises an integer, falling back to a string beyond JSON's number range.
fn serialize_integer(value: i128) -> (json: Json)
    ensures
        json@ == integer_json(value),
{
    if value < 0 && value >= i64::MIN as i128 {
        Json::Number(Number::NegInt(value as i64))
    } else if value >= 0 && value <= u64::MAX as i128 {
        Json::Number(Number::PosInt(value as u64))
    } else {
        Json::String(integer_of(value))
    }
}

impl Value {
    /// The value as JSON.
    pub fn to_json(&self) -> (json: Json)
        ensures
            json@ == projected(self@),
        decreases self,
    {
        match self {
            Value::Bool(value) => Json::Bool(*value),
            Value::Integer(value) => serialize_integer(*value),
            Value::Real(value) => {
                // JSON has no NaN or infinity; a string keeps the fact visible.
                if is_finite(value.bits) {
                    Json::Number(Number::Float { bits: value.bits, text: value.json.clone() })
                } else {
                    Json::String(value.display.clone())
                }
            },
            Value::String(value) => Json::String(value.clone()),
            Value::Data(data) => {
                let mut entries: Vec<(String, Json)> = Vec::new();
                entries.push(("base64".to_string(), Json::String(base64_of(data))));
                entries.push(
                    ("bytes".to_string(), Json::Number(Number::PosInt(data.len() as u64))),
                );
                let map = SortedMap { entries };
                proof {
                    json::object_view(map);
                    assert(map.pairs() =~= projected(self@)->Object_0);
                }
                Json::Object(map)
            },
            Value::Date(value) => Json::String(value.clone()),
            Value::Uid(value) => {
                let mut entries: Vec<(String, Json)> = Vec::new();
                entries.push(("uid".to_string(), Json::Number(Number::PosInt(*value))));
                let map = SortedMap { entries };
                proof {
                    json::object_view(map);
                    assert(map.pairs() =~= projected(self@)->Object_0);
                }
                Json::Object(map)
            },
            Value::Array(values) => {
                let mut items: Vec<Json> = Vec::new();
                let mut i: usize = 0;
                while i < values.len()
                    invariant
                        i <= values@.len(),
                        *self == Value::Array(*values),
                        items@.len() == i,
                        forall|k: int| 0 <= k < i ==> (#[trigger] items@[k])@ == projected(
                            values@[k]@,
                        ),
                    decreases values@.len() - i,
                {
                    assert(decreases_to!(*self => self->Array_0@[i as int]));
                    items.push(values[i].to_json());
                    i += 1;
                }
                proof {
                    array_view(*values);
                    json::array_view(items);
                    assert(json::models(items@) =~= projected(self@)->Array_0);
                }
                Json::Array(items)
            },
            Value::Dict(map) => {
                let mut entries: Vec<(String, Json)> = Vec::new();
                let mut i: usize = 0;
                while i < map.entries.len()
                    invariant
                        i <= map.entries@.len(),
                        *self == Value::Dict(*map),
                        entries@.len() == i,
                        forall|k: int|
                            0 <= k < i ==> (#[trigger] entries@[k]).0@ == map.entries@[k].0@
                                && entries@[k].1@ == projected(map.entries@[k].1@),
                    decreases map.entries@.len() - i,
                {
                    assert(decreases_to!(*self => self->Dict_0.entries@[i as int].1));
                    entries.push((map.entries[i].0.clone(), map.entries[i].1.to_json()));
                    i += 1;
                }
                let object = SortedMap { entries };
                proof {
                    dict_view(*map);
                    json::object_view(object);
                    assert(object.pairs() =~= projected(self@)->Object_0);
                }
                Json::Object(object)
            },
        }
    }
}

/// The JSON form of a value with ascending keys has ascending keys.
pub proof fn projected_is_valid(value: ValueModel)
    requires
        valid(value),
    ensures
        json::valid(projected(value)),
    decreases value,
{
    match value {
        ValueModel::Array(items) => {
            let made = projected(value)->Array_0;
            assert forall|i: int| 0 <= i < made.len() implies json::valid(#[trigger] made[i]) by {
                assert(valid(items[i]));
                projected_is_valid(items[i]);
            }
        },
        ValueModel::Dict(entries) => {
            let made = projected(value)->Object_0;
            assert(order::keys(made) =~= order::keys(entries));
            assert forall|i: int| 0 <= i < made.len() implies json::valid((#[trigger] made[i]).1) by {
                assert(valid(entries[i].1));
                projected_is_valid(entries[i].1);
            }
        },
        ValueModel::Data(data) => {
            let made = projected(value)->Object_0;
            let names = order::keys(made);
            reveal_strlit("base64");
            reveal_strlit("bytes");
            reveal_with_fuel(text::precedes, 3);
            assert forall|i: int, j: int| 0 <= i < j < names.len() implies text::precedes(
                #[trigger] names[i],
                #[trigger] names[j],
            ) by {
                assert(i == 0 && j == 1);
                assert(names[0] == "base64"@);
                assert(names[1] == "bytes"@);
                assert(names[0][0] == names[1][0]);
                assert(names[0].drop_first()[0] == 'a');
                assert(names[1].drop_first()[0] == 'y');
            }
            assert forall|i: int| 0 <= i < made.len() implies json::valid((#[trigger] made[i]).1) by {
                assert(i == 0 || i == 1);
            }
        },
        ValueModel::Uid(n) => {
            let made = projected(value)->Object_0;
            assert forall|i: int| 0 <= i < made.len() implies json::valid((#[trigger] made[i]).1) by {
                assert(i == 0);
            }
        },
        _ => {},
    }
}

// ---------------------------------------------------------------------------
// Sniffing
// ---------------------------------------------------------------------------

/// What a byte slice turned out to be.
#[derive(Debug, Clone, Copy, PartialEq, Eq, Structural)]
pub enum Format {
    /// A binary property list.
    BinaryPlist,
    /// An XML property list.
    XmlPlist,
    /// A SQLite database, recognised but not decoded.
    Sqlite,
    /// A PNG image.
    Png,
    /// Valid UTF-8 text.
    Text,
    /// Anything else.
    Binary,
    /// A zero-length file.
    Empty,
}

impl Format {
    /// The format in words.
    pub open spec fn named(self) -> Seq<char> {
        match self {
            Format::BinaryPlist => "binary plist"@,
            Format::XmlPlist => "XML plist"@,
            Format::Sqlite => "SQLite database"@,
            Format::Png => "PNG image"@,
            Format::Text => "text"@,
            Format::Binary => "binary"@,
            Format::Empty => "empty"@,
        }
    }

    /// The format in words.
    pub fn name(self) -> (name: &'static str)
        ensures
            name@ == self.named(),
    {
        match self {
            Format::BinaryPlist => "binary plist",
            Format::XmlPlist => "XML plist",
            Format::Sqlite => "SQLite database",
            Format::Png => "PNG image",
            Format::Text => "text",
            Format::Binary => "binary",
            Format::Empty => "empty",
        }
    }
}

/// The decoded content, if there is any.
#[derive(Debug)]
pub enum Body {
    /// Structured data.
    Value(Value),
    /// Plain text.
    Text(String),
    /// Bytes the caller should hexdump.
    Opaque,
}

/// The result of decoding a byte slice.
#[derive(Debug)]
pub struct Decoded {
    /// What the content was sniffed as.
    pub format: Format,
    /// The decoded content.
    pub body: Body,
    /// Why the content was not decoded further, when it was not.
    pub note: Option<String>,
}

/// The bytes behind a byte order mark, if they start with one.
pub open spec fn without_mark(bytes: Seq<u8>) -> Seq<u8> {
    if bytes::start_with(bytes, "\u{ef}\u{bb}\u{bf}"@) {
        bytes.skip(3)
    } else {
        bytes
    }
}

/// Whether the bytes open an XML property list, ignoring leading whitespace.
pub open spec fn opens_xml_plist(bytes: Seq<u8>) -> bool {
    let rest = bytes::without_leading_space(without_mark(bytes));
    ||| bytes::start_with(rest, "<?xml"@)
    ||| bytes::start_with(rest, "<!DOCTYPE plist"@)
    ||| bytes::start_with(rest, "<plist"@)
}

/// Whether a character is a control character other than a tab, a line feed or a
/// carriage return.
pub open spec fn unprintable(c: char) -> bool {
    let n = c as u32;
    &&& n <= 0x1f || 0x7f <= n <= 0x9f
    &&& c != '\t' && c != '\n' && c != '\r'
}

/// Whether a text holds nothing unprintable.
pub open spec fn printable(s: Seq<char>) -> bool {
    forall|i: int| 0 <= i < s.len() ==> !unprintable(#[trigger] s[i])
}

/// What some bytes are, by their content.
pub open spec fn sniffed(bytes: Seq<u8>) -> Format {
    if bytes.len() == 0 {
        Format::Empty
    } else if bytes::start_with(bytes, "bplist00"@) {
        Format::BinaryPlist
    } else if bytes::start_with(bytes, "SQLite format 3\0"@) {
        Format::Sqlite
    } else if bytes::start_with(bytes, "\u{89}PNG\r\n\u{1a}\n"@) {
        Format::Png
    } else if opens_xml_plist(bytes) {
        Format::XmlPlist
    } else if vstd::utf8::valid_utf8(bytes) && printable(vstd::utf8::decode_utf8(bytes)) {
        Format::Text
    } else {
        Format::Binary
    }
}

/// Whether the first chunk of a PNG image is the `IHDR` chunk that holds its
/// dimensions, and is there as far as those.
pub open spec fn has_dimensions(bytes: Seq<u8>) -> bool {
    bytes.len() >= 24 && bytes.subrange(12, 16) == seq![0x49u8, 0x48u8, 0x44u8, 0x52u8]
}

/// What is said of a PNG image: its dimensions, where it has them, and its length.
pub open spec fn png_note(bytes: Seq<u8>) -> Seq<char> {
    let length = number::decimal(bytes.len()) + " bytes"@;
    if has_dimensions(bytes) {
        number::decimal(bytes::big_endian(bytes, 16)) + "x"@ + number::decimal(
            bytes::big_endian(bytes, 20),
        ) + " PNG, "@ + length
    } else {
        "PNG, "@ + length
    }
}

/// What is said of a SQLite database.
pub open spec fn sqlite_note() -> Seq<char> {
    "SQLite databases are not decoded; use --raw for the bytes"@
}

/// What is said of bytes that are in no format known here.
pub open spec fn binary_note() -> Seq<char> {
    "not in a format that can be decoded"@
}

/// Whether `decoded` is what an attempt to decode a property list comes to.
pub open spec fn settled(
    outcome: Result<Value, PlistError>,
    format: Format,
    decoded: Decoded,
) -> bool {
    &&& decoded.format == format
    &&& match outcome {
        Ok(value) => decoded.body == Body::Value(value) && decoded.note is None,
        Err(error) => {
            &&& decoded.body is Opaque
            &&& decoded.note matches Some(note) && note@ == "could not be parsed as a "@
                + format.named() + ": "@ + error.said()
        },
    }
}

/// Whether `decoded` is what some bytes come to, sniffed as `format`.
pub open spec fn decoded_from(bytes: Seq<u8>, format: Format, decoded: Decoded) -> bool {
    &&& decoded.format == format
    &&& match format {
        Format::BinaryPlist | Format::XmlPlist => exists|outcome: Result<Value, PlistError>| #[trigger]
            property_list::outcome_of(bytes, outcome) && settled(outcome, format, decoded),
        Format::Sqlite => {
            &&& decoded.body is Opaque
            &&& decoded.note matches Some(note) && note@ == sqlite_note()
        },
        Format::Png => {
            &&& decoded.body is Opaque
            &&& decoded.note matches Some(note) && note@ == png_note(bytes)
        },
        Format::Text => {
            &&& decoded.body matches Body::Text(text) && text@ == vstd::utf8::decode_utf8(bytes)
            &&& decoded.note is None
        },
        Format::Binary => {
            &&& decoded.body is Opaque
            &&& decoded.note matches Some(note) && note@ == binary_note()
        },
        Format::Empty => decoded.body is Opaque && decoded.note is None,
    }
}

/// Decodes a byte slice, as far as it can be understood.
///
/// This never returns an error. Content that is not understood, or is understood but
/// cannot be parsed, comes back as [`Body::Opaque`] with a note explaining why. Only
/// of an empty file there is nothing to explain.
pub fn decode(bytes: &[u8]) -> (decoded: Decoded)
    ensures
        decoded_from(bytes@, sniffed(bytes@), decoded),
        bytes@.len() > 0 && decoded.body is Opaque ==> decoded.note is Some,
        property_list::lacks_trailer(bytes@) ==> decoded.body is Opaque,
{
    assert(bytes@.skip(0) =~= bytes@);
    if bytes.len() == 0 {
        return Decoded { format: Format::Empty, body: Body::Opaque, note: None };
    }
    if starts_at(bytes, 0, "bplist00") {
        return decode_plist(bytes, Format::BinaryPlist);
    }
    if starts_at(bytes, 0, "SQLite format 3\0") {
        return Decoded {
            format: Format::Sqlite,
            body: Body::Opaque,
            note: Some("SQLite databases are not decoded; use --raw for the bytes".to_string()),
        };
    }
    if starts_at(bytes, 0, "\u{89}PNG\r\n\u{1a}\n") {
        let mut note = String::new();
        match png_dimensions(bytes) {
            Some((width, height)) => {
                push_decimal(&mut note, width as u128);
                note.push_str("x");
                push_decimal(&mut note, height as u128);
                note.push_str(" PNG, ");
            },
            None => {
                note.push_str("PNG, ");
            },
        }
        push_decimal(&mut note, bytes.len() as u128);
        note.push_str(" bytes");
        assert(note@ =~= png_note(bytes@));
        return Decoded { format: Format::Png, body: Body::Opaque, note: Some(note) };
    }
    if looks_like_xml_plist(bytes) {
        return decode_plist(bytes, Format::XmlPlist);
    }
    if let Some(text) = utf8_text(bytes) {
        if is_printable(text.as_str()) {
            return Decoded { format: Format::Text, body: Body::Text(text), note: None };
        }
    }
    Decoded {
        format: Format::Binary,
        body: Body::Opaque,
        note: Some("not in a format that can be decoded".to_string()),
    }
}

/// Runs the plist decoder, degrading to opaque bytes when it refuses the input.
pub fn decode_plist(bytes: &[u8], format: Format) -> (decoded: Decoded)
    ensures
        exists|outcome: Result<Value, PlistError>| #[trigger]
            property_list::outcome_of(bytes@, outcome) && settled(outcome, format, decoded),
        property_list::lacks_trailer(bytes@) ==> decoded.body is Opaque,
{
    let outcome = property_list::decode(bytes);
    assert(property_list::outcome_of(bytes@, outcome));
    settle(outcome, format)
}

/// What an attempt to decode a property list comes to: the value, or opaque bytes
/// with a note of the error.
pub fn settle(outcome: Result<Value, PlistError>, format: Format) -> (decoded: Decoded)
    ensures
        settled(outcome, format, decoded),
{
    match outcome {
        Ok(value) => Decoded { format, body: Body::Value(value), note: None },
        Err(error) => {
            let mut note = "could not be parsed as a ".to_string();
            note.push_str(format.name());
            note.push_str(": ");
            note.push_str(error.message().as_str());
            Decoded { format, body: Body::Opaque, note: Some(note) }
        },
    }
}

/// Whether the bytes open an XML property list, ignoring leading whitespace.
pub fn looks_like_xml_plist(bytes: &[u8]) -> (yes: bool)
    ensures
        yes == opens_xml_plist(bytes@),
{
    assert(bytes@.skip(0) =~= bytes@);
    proof {
        reveal_strlit("\u{ef}\u{bb}\u{bf}");
    }
    let start: usize = if starts_at(bytes, 0, "\u{ef}\u{bb}\u{bf}") {
        3
    } else {
        0
    };
    assert(bytes@.skip(start as int) =~= without_mark(bytes@));
    let rest = end_of_space(bytes, start);
    starts_at(bytes, rest, "<?xml") || starts_at(bytes, rest, "<!DOCTYPE plist") || starts_at(
        bytes,
        rest,
        "<plist",
    )
}

/// Whether text is plausibly meant to be read, rather than binary that happens to
/// decode as UTF-8.
///
/// Control characters other than tab, newline, and carriage return are the tell.
pub fn is_printable(text: &str) -> (yes: bool)
    ensures
        yes == printable(text@),
{
    let chars = chars_of(text);
    let mut i: usize = 0;
    while i < chars.len()
        invariant
            i <= chars@.len(),
            chars@ == text@,
            forall|k: int| 0 <= k < i ==> !unprintable(#[trigger] text@[k]),
        decreases chars@.len() - i,
    {
        let c = chars[i];
        let n: u32 = c as u32;
        if (n <= 0x1f || (0x7f <= n && n <= 0x9f)) && c != '\t' && c != '\n' && c != '\r' {
            assert(unprintable(text@[i as int]));
            return false;
        }
        i += 1;
    }
    true
}

/// Reads a PNG's pixel dimensions from its IHDR chunk.
///
/// Returns `None` for anything shorter or differently shaped than expected rather
/// than indexing past the end.
pub fn png_dimensions(bytes: &[u8]) -> (dimensions: Option<(u32, u32)>)
    ensures
        dimensions is Some <==> bytes@.len() >= 24 && bytes@.subrange(12, 16) == seq![
            0x49u8,
            0x48u8,
            0x44u8,
            0x52u8,
        ],
        dimensions matches Some((width, height)) ==> {
            &&& width == bytes::big_endian(bytes@, 16)
            &&& height == bytes::big_endian(bytes@, 20)
        },
{
    if bytes.len() < 24 {
        return None;
    }
    let ghost name = bytes@.subrange(12, 16);
    assert(name[0] == bytes@[12] && name[1] == bytes@[13] && name[2] == bytes@[14] && name[3]
        == bytes@[15]);
    if bytes[12] == 0x49 && bytes[13] == 0x48 && bytes[14] == 0x44 && bytes[15] == 0x52 {
        assert(name =~= seq![0x49u8, 0x48u8, 0x44u8, 0x52u8]);
        Some((number_at(bytes, 16), number_at(bytes, 20)))
    } else {
        None
    }
}

/// No two digits of the base64 alphabet are the same, and none is the padding.
proof fn base64_digits_differ(m: int, n: int)
    requires
        0 <= m < 64,
        0 <= n < 64,
    ensures
        base64_digit(m) == base64_digit(n) ==> m == n,
        base64_digit(m) != '=',
{
}

/// Different data never looks the same in base64, so a change of data always shows
/// in what a snapshot holds of it.
pub proof fn base64_injective(a: Seq<u8>, b: Seq<u8>)
    requires
        base64_text(a) == base64_text(b),
    ensures
        a == b,
    decreases a.len(),
{
    let x = base64_text(a);
    let y = base64_text(b);
    if a.len() == 0 {
        assert(b.len() == 0) by {
            if b.len() > 0 {
                assert(y.len() >= 4);
            }
        }
        assert(a =~= b);
    } else {
        assert(x.len() >= 4);
        assert(b.len() > 0);
        let a1 = if a.len() > 1 { a[1] as int } else { 0 };
        let b1 = if b.len() > 1 { b[1] as int } else { 0 };
        let a2 = if a.len() > 2 { a[2] as int } else { 0 };
        let b2 = if b.len() > 2 { b[2] as int } else { 0 };
        assert(x[0] == y[0] && x[1] == y[1] && x[2] == y[2] && x[3] == y[3]);
        let a0 = a[0] as int;
        let b0 = b[0] as int;
        assert(x[0] == base64_digit(a0 / 4));
        assert(y[0] == base64_digit(b0 / 4));
        assert(x[1] == base64_digit(a0 % 4 * 16 + a1 / 16));
        assert(y[1] == base64_digit(b0 % 4 * 16 + b1 / 16));
        base64_digits_differ(a0 / 4, b0 / 4);
        base64_digits_differ(a0 % 4 * 16 + a1 / 16, b0 % 4 * 16 + b1 / 16);
        base64_digits_differ(a1 % 16 * 4 + a2 / 64, b1 % 16 * 4 + b2 / 64);
        base64_digits_differ(b1 % 16 * 4 + b2 / 64, 0);
        base64_digits_differ(a2 % 64, b2 % 64);
        base64_digits_differ(b2 % 64, 0);
        assert(x[2] == '=' <==> a.len() == 1);
        assert(y[2] == '=' <==> b.len() == 1);
        assert(x[3] == '=' <==> a.len() <= 2);
        assert(y[3] == '=' <==> b.len() <= 2);
        assert(a0 / 4 == b0 / 4 && a0 % 4 == b0 % 4 && a1 / 16 == b1 / 16);
        assert(a[0] == b[0]);
        if a.len() >= 2 {
            assert(a1 % 16 == b1 % 16 && a2 / 64 == b2 / 64);
            assert(a[1] == b[1]);
        }
        if a.len() >= 3 {
            assert(a[2] == b[2]);
            assert(x.skip(4) =~= base64_text(a.skip(3)));
            assert(y.skip(4) =~= base64_text(b.skip(3)));
            base64_injective(a.skip(3), b.skip(3));
            assert(a =~= seq![a[0], a[1], a[2]] + a.skip(3));
            assert(b =~= seq![b[0], b[1], b[2]] + b.skip(3));
        }
        assert(a =~= b);
    }
}

// ---------------------------------------------------------------------------
// Laws
// ---------------------------------------------------------------------------

/// The view of a scalar says what the scalar says.
pub proof fn scalar_views(b: bool, n: i128, r: Real, text: String, data: Vec<u8>, uid: u64)
    ensures
        Value::Bool(b)@ == ValueModel::Bool(b),
        Value::Integer(n)@ == ValueModel::Integer(n),
        Value::Real(r)@ matches ValueModel::Real(found) && found.bits == r.bits && found.display
            == r.display@ && found.fixed == r.fixed@ && found.json == r.json@,
        Value::String(text)@ == ValueModel::String(text@),
        Value::Data(data)@ == ValueModel::Data(data@),
        Value::Date(text)@ == ValueModel::Date(text@),
        Value::Uid(uid)@ == ValueModel::Uid(uid),
{
}

/// Whether a JSON value says what a decoded value says: the same boolean, the same
/// integer (as a text, where JSON has no such number), the same double, the same text,
/// data as its base64 beside its length, the same reference, the same items in the same
/// order, and the same keys with the same under each.
pub open spec fn says_the_same(value: ValueModel, json: JsonModel) -> bool
    decreases value,
{
    match value {
        ValueModel::Bool(b) => json == JsonModel::Bool(b),
        ValueModel::Integer(n) => match json {
            JsonModel::Number(NumberModel::PosInt(m)) => n == m,
            JsonModel::Number(NumberModel::NegInt(m)) => n == m && n < 0,
            JsonModel::String(text) => {
                &&& n < -0x8000_0000_0000_0000 || n > 0xffff_ffff_ffff_ffff
                &&& text.len() > 0 && (text[0] == '-' <==> n < 0)
                &&& n < 0 ==> number::number_meant(text.skip(1), 10) == -n
                &&& n >= 0 ==> number::number_meant(text, 10) == n
            },
            _ => false,
        },
        ValueModel::Real(r) => if r.bits % 0x8000_0000_0000_0000 < 0x7ff0_0000_0000_0000 {
            json == JsonModel::Number(NumberModel::Float(r.bits, r.json))
        } else {
            json == JsonModel::String(r.display)
        },
        ValueModel::String(s) => json == JsonModel::String(s),
        ValueModel::Data(data) => json matches JsonModel::Object(entries) && entries.len() == 2
            && entries[0].0 == "base64"@ && entries[0].1 == JsonModel::String(base64_text(data))
            && entries[1].0 == "bytes"@ && (entries[1].1 matches JsonModel::Number(
            NumberModel::PosInt(count),
        ) && (data.len() <= u64::MAX ==> count == data.len())),
        ValueModel::Date(s) => json == JsonModel::String(s),
        ValueModel::Uid(n) => json matches JsonModel::Object(entries) && entries.len() == 1
            && entries[0].0 == "uid"@ && entries[0].1 == JsonModel::Number(NumberModel::PosInt(n)),
        ValueModel::Array(items) => json matches JsonModel::Array(found) && found.len()
            == items.len() && forall|i: int|
            0 <= i < items.len() ==> says_the_same(#[trigger] items[i], found[i]),
        ValueModel::Dict(entries) => json matches JsonModel::Object(found) && found.len()
            == entries.len() && forall|i: int|
            0 <= i < entries.len() ==> (#[trigger] entries[i]).0 == found[i].0 && says_the_same(
                entries[i].1,
                found[i].1,
            ),
    }
}

/// The JSON form of a value says what the value says.
pub proof fn json_keeps_what_is_said(value: ValueModel)
    ensures
        says_the_same(value, projected(value)),
    decreases value,
{
    match value {
        ValueModel::Integer(n) => {
            number::integer_reads_back(n as int);
        },
        ValueModel::Real(r) => {
            double::numbers_lie_below_infinity(r.bits);
        },
        ValueModel::Array(items) => {
            assert forall|i: int| 0 <= i < items.len() implies says_the_same(
                #[trigger] items[i],
                projected(value)->Array_0[i],
            ) by {
                json_keeps_what_is_said(items[i]);
            }
        },
        ValueModel::Dict(entries) => {
            let found = projected(value)->Object_0;
            assert forall|i: int| 0 <= i < entries.len() implies (#[trigger] entries[i]).0
                == found[i].0 && says_the_same(entries[i].1, found[i].1) by {
                json_keeps_what_is_said(entries[i].1);
            }
        },
        _ => {},
    }
}

/// Whether two values are built alike: of the same kinds throughout, as far as they have
/// the same lengths and the same keys.
pub open spec fn built_alike(a: ValueModel, b: ValueModel) -> bool
    decreases a,
{
    match (a, b) {
        (ValueModel::Bool(_), ValueModel::Bool(_)) => true,
        (ValueModel::Integer(_), ValueModel::Integer(_)) => true,
        (ValueModel::Real(_), ValueModel::Real(_)) => true,
        (ValueModel::String(_), ValueModel::String(_)) => true,
        (ValueModel::Data(_), ValueModel::Data(_)) => true,
        (ValueModel::Date(_), ValueModel::Date(_)) => true,
        (ValueModel::Uid(_), ValueModel::Uid(_)) => true,
        (ValueModel::Array(x), ValueModel::Array(y)) => x.len() == y.len() ==> forall|i: int|
            0 <= i < x.len() ==> built_alike(#[trigger] x[i], y[i]),
        (ValueModel::Dict(x), ValueModel::Dict(y)) => x.len() == y.len() ==> forall|i: int|
            0 <= i < x.len() ==> built_alike((#[trigger] x[i]).1, y[i].1),
        _ => false,
    }
}

/// Whether two values say the same; of a double, its bits where it is finite and its
/// text where it is not.
pub open spec fn told_alike(a: ValueModel, b: ValueModel) -> bool
    decreases a,
{
    match (a, b) {
        (ValueModel::Real(x), ValueModel::Real(y)) => x.bits == y.bits || x.display == y.display,
        (ValueModel::Array(x), ValueModel::Array(y)) => x.len() == y.len() && forall|i: int|
            0 <= i < x.len() ==> told_alike(#[trigger] x[i], y[i]),
        (ValueModel::Dict(x), ValueModel::Dict(y)) => x.len() == y.len() && forall|i: int|
            0 <= i < x.len() ==> (#[trigger] x[i]).0 == y[i].0 && told_alike(x[i].1, y[i].1),
        _ => a == b,
    }
}

/// Values of the same kinds with the same JSON form say the same: every change of a
/// boolean, an integer, a string, a date, a reference, data, a key or the order of items
/// shows in the JSON form.
pub proof fn json_tells_values_apart(a: ValueModel, b: ValueModel)
    requires
        built_alike(a, b),
        projected(a) == projected(b),
    ensures
        told_alike(a, b),
    decreases a,
{
    let p = projected(a);
    let q = projected(b);
    match (a, b) {
        (ValueModel::Integer(x), ValueModel::Integer(y)) => {
            if p is String {
                number::integer_injective(x as int, y as int);
            }
        },
        (ValueModel::Data(x), ValueModel::Data(y)) => {
            assert(p->Object_0[0].1 == q->Object_0[0].1);
            base64_injective(x, y);
        },
        (ValueModel::Uid(x), ValueModel::Uid(y)) => {
            assert(p->Object_0[0].1 == JsonModel::Number(NumberModel::PosInt(x)));
            assert(q->Object_0[0].1 == JsonModel::Number(NumberModel::PosInt(y)));
        },
        (ValueModel::Array(x), ValueModel::Array(y)) => {
            assert(p->Array_0.len() == x.len() && q->Array_0.len() == y.len());
            assert forall|i: int| 0 <= i < x.len() implies told_alike(#[trigger] x[i], y[i]) by {
                assert(p->Array_0[i] == projected(x[i]) && q->Array_0[i] == projected(y[i]));
                json_tells_values_apart(x[i], y[i]);
            }
        },
        (ValueModel::Dict(x), ValueModel::Dict(y)) => {
            assert(p->Object_0.len() == x.len() && q->Object_0.len() == y.len());
            assert forall|i: int| 0 <= i < x.len() implies (#[trigger] x[i]).0 == y[i].0
                && told_alike(x[i].1, y[i].1) by {
                assert(p->Object_0[i] == q->Object_0[i]);
                json_tells_values_apart(x[i].1, y[i].1);
            }
        },
        _ => {},
    }
}

/// Whether bytes start with others.
pub open spec fn begin_with(bytes: Seq<u8>, first: Seq<u8>) -> bool {
    first.len() <= bytes.len() && bytes.take(first.len() as int) == first
}

/// The eight bytes `bplist00`.
pub open spec fn plist_magic() -> Seq<u8> {
    seq![0x62u8, 0x70, 0x6c, 0x69, 0x73, 0x74, 0x30, 0x30]
}

/// The sixteen bytes `SQLite format 3` and a zero.
pub open spec fn sqlite_magic() -> Seq<u8> {
    seq![
        0x53u8,
        0x51,
        0x4c,
        0x69,
        0x74,
        0x65,
        0x20,
        0x66,
        0x6f,
        0x72,
        0x6d,
        0x61,
        0x74,
        0x20,
        0x33,
        0x00,
    ]
}

/// The eight bytes that a PNG image starts with.
pub open spec fn png_magic() -> Seq<u8> {
    seq![0x89u8, 0x50, 0x4e, 0x47, 0x0d, 0x0a, 0x1a, 0x0a]
}

/// Bytes start with a text exactly where they start with the bytes of its codes.
proof fn starts_are_bytes(bytes: Seq<u8>, text: Seq<char>, first: Seq<u8>)
    requires
        text.len() == first.len(),
        forall|i: int| 0 <= i < text.len() ==> first[i] as u32 == (#[trigger] text[i]) as u32,
    ensures
        bytes::start_with(bytes, text) <==> begin_with(bytes, first),
{
    if bytes::start_with(bytes, text) {
        assert forall|i: int| 0 <= i < first.len() implies bytes[i] == first[i] by {
            assert(bytes[i] as u32 == text[i] as u32);
        }
        assert(bytes.take(first.len() as int) =~= first);
    }
    if begin_with(bytes, first) {
        assert forall|i: int| 0 <= i < text.len() implies bytes[i] as u32 == (
        #[trigger] text[i]) as u32 by {
            assert(bytes.take(first.len() as int)[i] == bytes[i]);
        }
    }
}

/// Content is told by its first bytes: nothing is empty, `bplist00` makes a binary
/// property list, the header of SQLite a database and that of PNG an image, whatever
/// follows and under whatever name, and nothing else is taken for one of them.
pub proof fn magic_decides(bytes: Seq<u8>)
    ensures
        sniffed(bytes) == Format::Empty <==> bytes.len() == 0,
        sniffed(bytes) == Format::BinaryPlist <==> begin_with(bytes, plist_magic()),
        sniffed(bytes) == Format::Sqlite <==> begin_with(bytes, sqlite_magic()),
        sniffed(bytes) == Format::Png <==> begin_with(bytes, png_magic()),
{
    reveal_strlit("bplist00");
    reveal_strlit("SQLite format 3\0");
    reveal_strlit("\u{89}PNG\r\n\u{1a}\n");
    starts_are_bytes(bytes, "bplist00"@, plist_magic());
    starts_are_bytes(bytes, "SQLite format 3\0"@, sqlite_magic());
    starts_are_bytes(bytes, "\u{89}PNG\r\n\u{1a}\n"@, png_magic());
    if begin_with(bytes, plist_magic()) {
        assert(bytes.take(8)[0] == bytes[0]);
    }
    if begin_with(bytes, sqlite_magic()) {
        assert(bytes.take(16)[0] == bytes[0]);
    }
    if begin_with(bytes, png_magic()) {
        assert(bytes.take(8)[0] == bytes[0]);
    }
}

/// Whether a byte is white space before a document: a space, a tab, a line feed, a form
/// feed or a carriage return.
pub open spec fn blank_byte(byte: u8) -> bool {
    byte == 0x20 || byte == 0x09 || byte == 0x0a || byte == 0x0c || byte == 0x0d
}

/// Whether bytes, from `at` on, start with one of the three openings of an XML property
/// list.
pub open spec fn opens_at(bytes: Seq<u8>, at: int) -> bool {
    let rest = bytes.skip(at);
    ||| bytes::start_with(rest, "<?xml"@)
    ||| bytes::start_with(rest, "<!DOCTYPE plist"@)
    ||| bytes::start_with(rest, "<plist"@)
}

/// An XML property list opens behind nothing but white space, and before that the mark
/// of UTF-8 where there is one.
pub proof fn xml_opens_behind_white_space(
    bytes: Seq<u8>,
    mark: bool,
    blanks: Seq<u8>,
    rest: Seq<u8>,
)
    requires
        forall|i: int| 0 <= i < blanks.len() ==> blank_byte(#[trigger] blanks[i]),
        rest.len() > 0,
        rest[0] == 0x3c,
        bytes == (if mark { seq![0xefu8, 0xbb, 0xbf] } else { Seq::<u8>::empty() }) + blanks
            + rest,
    ensures
        opens_xml_plist(bytes) <==> opens_at(rest, 0),
        opens_at(rest, 0) ==> sniffed(bytes) == Format::XmlPlist,
{
    let lead: Seq<u8> = if mark { seq![0xefu8, 0xbb, 0xbf] } else { Seq::<u8>::empty() };
    reveal_strlit("\u{ef}\u{bb}\u{bf}");
    starts_are_bytes(bytes, "\u{ef}\u{bb}\u{bf}"@, seq![0xefu8, 0xbb, 0xbf]);
    let body = blanks + rest;
    if mark {
        assert(bytes.take(3) =~= seq![0xefu8, 0xbb, 0xbf]);
        assert(bytes.skip(3) =~= body);
    } else {
        assert(bytes =~= body);
        assert(body[0] != 0xef);
        if begin_with(bytes, seq![0xefu8, 0xbb, 0xbf]) {
            assert(bytes.take(3)[0] == bytes[0]);
        }
    }
    assert(without_mark(bytes) == body);
    let count = bytes::leading_space_is_left_out(body);
    if count < blanks.len() {
        assert(blank_byte(blanks[count]));
        assert(body[count] == blanks[count]);
    }
    if count > blanks.len() {
        assert(body[blanks.len() as int] == rest[0]);
    }
    assert(body.skip(count) =~= rest);
    assert(rest.skip(0) =~= rest);
    assert(bytes[0] == 0xef || bytes[0] == 0x3c || blank_byte(bytes[0])) by {
        if !mark {
            assert(bytes[0] == body[0]);
            if blanks.len() > 0 {
                assert(blank_byte(blanks[0]));
            }
        }
    }
    magic_decides(bytes);
    if begin_with(bytes, plist_magic()) {
        assert(bytes.take(8)[0] == bytes[0]);
    }
    if begin_with(bytes, sqlite_magic()) {
        assert(bytes.take(16)[0] == bytes[0]);
    }
    if begin_with(bytes, png_magic()) {
        assert(bytes.take(8)[0] == bytes[0]);
    }
}

/// Whether a character is one that is meant to be read: no control character but the
/// tab, the line feed and the carriage return.
pub open spec fn readable(c: char) -> bool {
    ||| c == '\t' || c == '\n' || c == '\r'
    ||| ' ' <= c <= '~'
    ||| '\u{a0}' <= c
}

/// What is not meant to be read is what is unprintable.
proof fn readable_or_not(c: char)
    ensures
        readable(c) == !unprintable(c),
{
}

/// What is in no other format is text exactly where it is UTF-8 and every character is
/// meant to be read.
pub proof fn text_is_readable(bytes: Seq<u8>)
    requires
        sniffed(bytes) == Format::Text || sniffed(bytes) == Format::Binary,
    ensures
        sniffed(bytes) == Format::Text <==> vstd::utf8::valid_utf8(bytes) && forall|i: int|
            0 <= i < vstd::utf8::decode_utf8(bytes).len() ==> readable(
                #[trigger] vstd::utf8::decode_utf8(bytes)[i],
            ),
{
    let s = vstd::utf8::decode_utf8(bytes);
    if printable(s) {
        assert forall|i: int| 0 <= i < s.len() implies readable(#[trigger] s[i]) by {
            assert(!unprintable(s[i]));
            readable_or_not(s[i]);
        }
    }
    if forall|i: int| 0 <= i < s.len() ==> readable(#[trigger] s[i]) {
        assert forall|i: int| 0 <= i < s.len() implies !unprintable(#[trigger] s[i]) by {
            assert(readable(s[i]));
            readable_or_not(s[i]);
        }
    }
}

/// What some bytes are decoded to is what they hold: text is the text that encodes to the
/// bytes, a value says what the property list says, and where there is neither, a note
/// says why, unless there are no bytes.
pub proof fn decoding_shows_the_content(bytes: &[u8], decoded: Decoded)
    requires
        call_ensures(decode, (bytes,), decoded),
    ensures
        decoded.format == sniffed(bytes@),
        decoded.body is Text <==> decoded.format == Format::Text,
        decoded.body matches Body::Text(text) ==> vstd::utf8::encode_utf8(text@) == bytes@,
        decoded.body is Value <==> (decoded.format == Format::BinaryPlist || decoded.format
            == Format::XmlPlist) && !property_list::far_date_in(bytes@)
            && property_list::plist_parsed(bytes@) is Ok,
        decoded.body matches Body::Value(value) ==> property_list::holds(
            property_list::plist_parsed(bytes@)->Ok_0,
            value@,
            128,
        ),
        decoded.body is Opaque && bytes@.len() > 0 <==> decoded.note is Some,
{
    assert(decoded_from(bytes@, sniffed(bytes@), decoded));
    if decoded.format == Format::Text {
        vstd::utf8::decode_utf8_encode_utf8(bytes@);
    }
    if decoded.format == Format::BinaryPlist || decoded.format == Format::XmlPlist {
        let outcome = choose|outcome: Result<Value, PlistError>| #[trigger]
            property_list::outcome_of(bytes@, outcome) && settled(
                outcome,
                decoded.format,
                decoded,
            );
        if let Ok(value) = outcome {
            property_list::outcome_holds(property_list::plist_parsed(bytes@)->Ok_0, value@);
        }
    }
    magic_decides(bytes@);
}

/// The note on an image gives its width, its height and its length, the first two as four
/// bytes each behind its sixteenth byte, the most significant first.
pub proof fn image_note_gives_dimensions(bytes: &[u8], decoded: Decoded)
    requires
        call_ensures(decode, (bytes,), decoded),
        decoded.format == Format::Png,
    ensures
        decoded.note matches Some(note) && note@ == if bytes@.len() >= 24 && bytes@[12] == 0x49
            && bytes@[13] == 0x48 && bytes@[14] == 0x44 && bytes@[15] == 0x52 {
            number::decimal(
                (16_777_216 * bytes@[16] + 65_536 * bytes@[17] + 256 * bytes@[18]
                    + bytes@[19]) as nat,
            ) + "x"@ + number::decimal(
                (16_777_216 * bytes@[20] + 65_536 * bytes@[21] + 256 * bytes@[22]
                    + bytes@[23]) as nat,
            ) + " PNG, "@ + number::decimal(bytes@.len()) + " bytes"@
        } else {
            "PNG, "@ + number::decimal(bytes@.len()) + " bytes"@
        },
{
    assert(decoded_from(bytes@, sniffed(bytes@), decoded));
    bytes::big_endian_counts(bytes@, 16);
    bytes::big_endian_counts(bytes@, 20);
    let name = bytes@.subrange(12, 16);
    let header = seq![0x49u8, 0x48u8, 0x44u8, 0x52u8];
    if bytes@.len() >= 24 {
        assert(name[0] == bytes@[12] && name[1] == bytes@[13] && name[2] == bytes@[14] && name[3]
            == bytes@[15]);
        if bytes@[12] == 0x49 && bytes@[13] == 0x48 && bytes@[14] == 0x44 && bytes@[15] == 0x52 {
            assert(name =~= header);
        }
    }
    assert(png_note(bytes@) =~= decoded.note->0@);
    let length = number::decimal(bytes@.len());
    if has_dimensions(bytes@) {
        let front = number::decimal(bytes::big_endian(bytes@, 16)) + "x"@ + number::decimal(
            bytes::big_endian(bytes@, 20),
        ) + " PNG, "@;
        assert(front + (length + " bytes"@) =~= front + length + " bytes"@);
    } else {
        assert("PNG, "@ + (length + " bytes"@) =~= "PNG, "@ + length + " bytes"@);
    }
}

/// What opens with anything but a `<` behind white space is no XML property list.
pub proof fn only_a_bracket_opens_xml(bytes: Seq<u8>, mark: bool, blanks: Seq<u8>, rest: Seq<u8>)
    requires
        forall|i: int| 0 <= i < blanks.len() ==> blank_byte(#[trigger] blanks[i]),
        rest.len() > 0 ==> !blank_byte(rest[0]) && rest[0] != 0x3c && rest[0] != 0xef,
        bytes == (if mark { seq![0xefu8, 0xbb, 0xbf] } else { Seq::<u8>::empty() }) + blanks
            + rest,
    ensures
        !opens_xml_plist(bytes),
{
    reveal_strlit("\u{ef}\u{bb}\u{bf}");
    reveal_strlit("<?xml");
    reveal_strlit("<!DOCTYPE plist");
    reveal_strlit("<plist");
    starts_are_bytes(bytes, "\u{ef}\u{bb}\u{bf}"@, seq![0xefu8, 0xbb, 0xbf]);
    let body = blanks + rest;
    if mark {
        assert(bytes.take(3) =~= seq![0xefu8, 0xbb, 0xbf]);
        assert(bytes.skip(3) =~= body);
    } else {
        assert(bytes =~= body);
        if begin_with(bytes, seq![0xefu8, 0xbb, 0xbf]) {
            assert(bytes.take(3)[0] == bytes[0]);
            if blanks.len() > 0 {
                assert(blank_byte(blanks[0]));
            }
        }
    }
    assert(without_mark(bytes) == body);
    let count = bytes::leading_space_is_left_out(body);
    if count < blanks.len() {
        assert(blank_byte(blanks[count]));
        assert(body[count] == blanks[count]);
    }
    if count > blanks.len() {
        assert(body[blanks.len() as int] == rest[0]);
    }
    let opened = body.skip(count);
    assert(opened =~= rest);
    assert("<?xml"@[0] == '<' && "<!DOCTYPE plist"@[0] == '<' && "<plist"@[0] == '<');
    if opens_xml_plist(bytes) {
        assert(opened[0] as u32 == '<' as u32);
    }
}

/// The note on what was not decoded says why: of a database that it is one, of anything
/// unknown that it is not decoded, of a property list in which format it could not be
/// parsed and what was wrong with it. There is no note on what was decoded.
pub proof fn notes_say_why(bytes: &[u8], decoded: Decoded)
    requires
        call_ensures(decode, (bytes,), decoded),
    ensures
        decoded.body is Value || decoded.body is Text ==> decoded.note is None,
        decoded.format == Format::Sqlite ==> (decoded.note matches Some(note) && note@
            == "SQLite databases are not decoded; use --raw for the bytes"@),
        decoded.format == Format::Binary ==> (decoded.note matches Some(note) && note@
            == "not in a format that can be decoded"@),
        decoded.format == Format::BinaryPlist && decoded.body is Opaque && !property_list::far_date_in(
            bytes@,
        ) ==> (decoded.note matches Some(note) && note@
            == "could not be parsed as a "@ + "binary plist"@ + ": "@
            + property_list::plist_parsed(bytes@)->Err_0),
        decoded.format == Format::XmlPlist && decoded.body is Opaque && !property_list::far_date_in(
            bytes@,
        ) ==> (decoded.note matches Some(note) && note@
            == "could not be parsed as a "@ + "XML plist"@ + ": "@ + property_list::plist_parsed(
            bytes@,
        )->Err_0),
{
    assert(decoded_from(bytes@, sniffed(bytes@), decoded));
    if decoded.format == Format::BinaryPlist || decoded.format == Format::XmlPlist {
        let outcome = choose|outcome: Result<Value, PlistError>| #[trigger]
            property_list::outcome_of(bytes@, outcome) && settled(
                outcome,
                decoded.format,
                decoded,
            );
        if !property_list::far_date_in(bytes@) {
            if let Err(error) = outcome {
                assert(error.said() == property_list::plist_parsed(bytes@)->Err_0);
            }
        }
    }
}

/// The dimensions of an image are four bytes each, the most significant first, behind the
/// name of its first chunk, which is `IHDR`.
pub proof fn dimensions_follow_the_header(bytes: &[u8], dimensions: Option<(u32, u32)>)
    requires
        call_ensures(png_dimensions, (bytes,), dimensions),
    ensures
        dimensions is Some <==> bytes@.len() >= 24 && bytes@[12] == 0x49 && bytes@[13] == 0x48
            && bytes@[14] == 0x44 && bytes@[15] == 0x52,
        dimensions matches Some((width, height)) ==> {
            &&& width == 16_777_216 * bytes@[16] + 65_536 * bytes@[17] + 256 * bytes@[18]
                + bytes@[19]
            &&& height == 16_777_216 * bytes@[20] + 65_536 * bytes@[21] + 256 * bytes@[22]
                + bytes@[23]
        },
{
    if bytes@.len() >= 24 {
        let name = bytes@.subrange(12, 16);
        bytes::big_endian_counts(bytes@, 16);
        bytes::big_endian_counts(bytes@, 20);
        assert(name[0] == bytes@[12] && name[1] == bytes@[13] && name[2] == bytes@[14] && name[3]
            == bytes@[15]);
        if bytes@[12] == 0x49 && bytes@[13] == 0x48 && bytes@[14] == 0x44 && bytes@[15] == 0x52 {
            assert(name =~= seq![0x49u8, 0x48u8, 0x44u8, 0x52u8]);
        }
    }
}

/// The number that a base64 digit means.
pub open spec fn base64_meant(c: char) -> int {
    if 'A' <= c <= 'Z' {
        c as int - 'A' as int
    } else if 'a' <= c <= 'z' {
        c as int - 'a' as int + 26
    } else if '0' <= c <= '9' {
        c as int - '0' as int + 52
    } else if c == '+' {
        62
    } else if c == '/' {
        63
    } else {
        0
    }
}

/// A base64 digit means the number it is for.
proof fn base64_digit_reads_back(n: int)
    requires
        0 <= n < 64,
    ensures
        base64_meant(base64_digit(n)) == n,
{
}

/// The number that a group of four base64 digits means.
pub open spec fn base64_group(digits: Seq<char>, group: int) -> int {
    262_144 * base64_meant(digits[4 * group]) + 4_096 * base64_meant(digits[4 * group + 1]) + 64
        * base64_meant(digits[4 * group + 2]) + base64_meant(digits[4 * group + 3])
}

/// Bytes make four base64 digits for every three of them or fewer.
proof fn base64_length(bytes: Seq<u8>)
    ensures
        base64_text(bytes).len() == 4 * ((bytes.len() + 2) / 3),
    decreases bytes.len(),
{
    if bytes.len() > 2 {
        base64_length(bytes.skip(3));
    }
}

/// The first group of digits reads back as the first bytes.
proof fn base64_starts_with_its_bytes(bytes: Seq<u8>)
    requires
        bytes.len() > 0,
    ensures
        ({
            let digits = base64_text(bytes);
            let all = base64_group(digits, 0);
            &&& 2 < bytes.len() ==> all == 65_536 * bytes[0] + 256 * bytes[1] + bytes[2]
            &&& 2 == bytes.len() ==> all == 65_536 * bytes[0] + 256 * bytes[1] && digits[3] == '='
            &&& 1 == bytes.len() ==> all == 65_536 * bytes[0] && digits[2] == '=' && digits[3]
                == '='
        }),
{
    let a = bytes[0] as int;
    let b = if bytes.len() > 1 { bytes[1] as int } else { 0 };
    let c = if bytes.len() > 2 { bytes[2] as int } else { 0 };
    base64_digit_reads_back(a / 4);
    base64_digit_reads_back(a % 4 * 16 + b / 16);
    base64_digit_reads_back(b % 16 * 4 + c / 64);
    base64_digit_reads_back(c % 64);
}

/// Behind the first group stand the digits of the bytes behind the first three.
proof fn base64_behind_the_first_group(bytes: Seq<u8>)
    requires
        bytes.len() > 2,
    ensures
        forall|i: int|
            0 <= i < base64_text(bytes.skip(3)).len() ==> #[trigger] base64_text(bytes)[i + 4]
                == base64_text(bytes.skip(3))[i],
{
}

/// Base64 reads back as the bytes: the four digits of a group make up its three bytes,
/// group by group, and the digits of a short last group make up those it has, with
/// padding for the others.
#[verifier::spinoff_prover]
pub proof fn base64_reads_back(bytes: Seq<u8>, group: int)
    requires
        0 <= group,
        3 * group < bytes.len(),
    ensures
        base64_text(bytes).len() == 4 * ((bytes.len() + 2) / 3),
        ({
            let digits = base64_text(bytes);
            let at = 3 * group;
            let all = base64_group(digits, group);
            &&& at + 2 < bytes.len() ==> all == 65_536 * bytes[at] + 256 * bytes[at + 1] + bytes[at
                + 2]
            &&& at + 2 == bytes.len() ==> all == 65_536 * bytes[at] + 256 * bytes[at + 1]
                && digits[4 * group + 3] == '='
            &&& at + 1 == bytes.len() ==> all == 65_536 * bytes[at] && digits[4 * group + 2] == '='
                && digits[4 * group + 3] == '='
        }),
    decreases bytes.len(),
{
    base64_length(bytes);
    if group == 0 {
        base64_starts_with_its_bytes(bytes);
    } else {
        let digits = base64_text(bytes);
        let rest = bytes.skip(3);
        let later = base64_text(rest);
        let early = 4 * (group - 1);
        base64_reads_back(rest, group - 1);
        base64_behind_the_first_group(bytes);
        let count = (rest.len() as int + 2) / 3;
        assert(3 * count >= rest.len());
        assert(count >= group);
        assert(early + 3 < later.len());
        assert(digits[early + 4] == later[early]);
        assert(digits[early + 5] == later[early + 1]);
        assert(digits[early + 6] == later[early + 2]);
        assert(digits[early + 7] == later[early + 3]);
        assert(base64_group(digits, group) == base64_group(later, group - 1));
        assert(rest[3 * group - 3] == bytes[3 * group]);
        assert(3 * group + 1 < bytes.len() ==> rest[3 * group - 2] == bytes[3 * group + 1]);
        assert(3 * group + 2 < bytes.len() ==> rest[3 * group - 1] == bytes[3 * group + 2]);
    }
}

/// Each format has a name of its own.
pub proof fn formats_have_their_names(format: Format, name: &'static str)
    requires
        call_ensures(Format::name, (format,), name),
    ensures
        format == Format::BinaryPlist ==> name@ == "binary plist"@,
        format == Format::XmlPlist ==> name@ == "XML plist"@,
        format == Format::Sqlite ==> name@ == "SQLite database"@,
        format == Format::Png ==> name@ == "PNG image"@,
        format == Format::Text ==> name@ == "text"@,
        format == Format::Binary ==> name@ == "binary"@,
        format == Format::Empty ==> name@ == "empty"@,
{
}

/// Turning a value into JSON keeps what it says.
pub proof fn to_json_keeps_what_is_said(value: &Value, json: Json)
    requires
        call_ensures(Value::to_json, (value,), json),
    ensures
        says_the_same(value@, json@),
        json::valid(json@) <== valid(value@),
{
    json_keeps_what_is_said(value@);
    if valid(value@) {
        projected_is_valid(value@);
    }
}

/// Two values of the same kinds that turn into the same JSON say the same.
pub proof fn to_json_tells_values_apart(a: &Value, b: &Value, x: Json, y: Json)
    requires
        call_ensures(Value::to_json, (a,), x),
        call_ensures(Value::to_json, (b,), y),
        built_alike(a@, b@),
        x@ == y@,
    ensures
        told_alike(a@, b@),
{
    json_tells_values_apart(a@, b@);
}

} // verus!
