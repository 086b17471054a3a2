//! Property-list decoding.
//!
//! Wraps the `plist` crate behind one narrow function so the implementation stays
//! swappable — a hand-written parser could replace it without touching a caller.
//!
//! # Edge cases
//!
//! The input is a binary format written by an app that may be buggy, so the
//! conversion is bounded: nesting deeper than [`MAX_DEPTH`] is replaced with a
//! marker string. Malformed bytes come back as an error, and the one kind of input
//! on which the crate is known to panic is turned away before it gets there.
//!
//! The bound is on what is made of a document, not on the document: the crate holds
//! all of it, however deep it nests, and gives it up level by level. Nesting that
//! takes a document of a megabyte or more can still run the stack out there.

use chrono::{DateTime, Utc};
use plist::Value as Document;
use std::time::SystemTime;
use vstd::prelude::*;
use crate::bytes;
use crate::bytes::starts_at;
use crate::clock;
use crate::clock::format_local;
use crate::decode;
use crate::decode::xml_dates;
use crate::decode::xml_dates::{cut_short, find_far_date, start_of_body};
use crate::decode::{Real, RealModel, Value, ValueModel};
use crate::double;
use crate::number;
use crate::order;
use crate::order::SortedMap;
use crate::text;
use crate::text::same;

verus! {

/// How deep the converter will follow nested containers.
///
/// Real preference files nest a handful of levels; anything approaching this is a
/// bug or an attack, and either way a marker is a better outcome than a crash.
pub const MAX_DEPTH: usize = 128;

/// Text substituted for structure below [`MAX_DEPTH`].
pub const TOO_DEEP: &'static str = "<nesting too deep>";

/// The second that starts the year -9999.
pub const FIRST_DATE: i64 = -377_705_116_800;

/// The second that ends the year 9999.
pub const LAST_DATE: i64 = 253_402_300_799;

// ---------------------------------------------------------------------------
// Property lists as the `plist` crate holds them
// ---------------------------------------------------------------------------

/// A property list as the `plist` crate holds it.
#[verifier::external_type_specification]
#[verifier::external_body]
pub struct ExPlistValue(Document);

/// A dictionary as the `plist` crate holds it.
#[verifier::external_type_specification]
#[verifier::external_body]
pub struct ExPlistDictionary(plist::Dictionary);

/// What a property list is.
pub enum PlistModel {
    /// A boolean.
    Bool(bool),
    /// An integer.
    Integer(int),
    /// A floating-point number: its bits, or nothing for what is not a number.
    Real(Option<u64>),
    /// A string.
    String(Seq<char>),
    /// Raw bytes.
    Data(Seq<u8>),
    /// A date, in whole seconds since the start of 1970.
    Date(i64),
    /// A reference to an object of an archive.
    Uid(u64),
    /// An ordered list.
    Array(Seq<PlistModel>),
    /// The keys with their values, in the order they came in.
    Dict(Seq<(Seq<char>, PlistModel)>),
    /// Anything else, by its label.
    Other(Seq<char>),
}

/// What a value of the `plist` crate holds.
pub uninterp spec fn plist_contents(value: Document) -> PlistModel;

/// What a dictionary of the `plist` crate holds: its keys with their values, in the
/// order of its iterator.
pub uninterp spec fn plist_entries(entries: plist::Dictionary) -> Seq<(Seq<char>, PlistModel)>;

/// What the `plist` crate makes of a document: what the document holds, or the text
/// of the error.
pub uninterp spec fn plist_parsed(bytes: Seq<u8>) -> Result<PlistModel, Seq<char>>;

/// A floating-point number in the shortest text that reads back as the number.
pub uninterp spec fn real_display(number: Option<u64>) -> Seq<char>;

/// A floating-point number with one digit after the point.
pub uninterp spec fn real_fixed(number: Option<u64>) -> Seq<char>;

/// A floating-point number as `serde_json` writes it, `null` where JSON has no such
/// number.
pub uninterp spec fn real_json(number: Option<u64>) -> Seq<char>;

/// Whether every date lies in the years -9999 to 9999.
pub open spec fn dates_in_range(source: PlistModel) -> bool
    decreases source,
{
    match source {
        PlistModel::Date(seconds) => FIRST_DATE <= seconds <= LAST_DATE,
        PlistModel::Array(items) => forall|i: int|
            0 <= i < items.len() ==> dates_in_range(#[trigger] items[i]),
        PlistModel::Dict(entries) => forall|i: int|
            0 <= i < entries.len() ==> dates_in_range((#[trigger] entries[i]).1),
        _ => true,
    }
}

/// Whether bytes are a binary document that was cut short of its trailer.
pub open spec fn lacks_trailer(document: Seq<u8>) -> bool {
    bytes::start_with(document, "bplist00"@) && document.len() < 32
}

/// What a list of values of the `plist` crate holds.
pub open spec fn all_contents(items: Seq<Document>) -> Seq<PlistModel> {
    items.map_values(|item: Document| plist_contents(item))
}

/// The outermost layer of a property list.
enum Node<'a> {
    Bool(bool),
    Integer(Option<i64>, Option<u64>, String),
    Real(u64),
    String(String),
    Data(Vec<u8>),
    Date(i64),
    Uid(u64),
    Array(&'a Vec<Document>),
    Dict(&'a plist::Dictionary),
    Other(String),
}

/// Whether a node is the outermost layer of what a property list holds.
spec fn tops(node: Node, source: PlistModel) -> bool {
    match (node, source) {
        (Node::Bool(a), PlistModel::Bool(b)) => a == b,
        (Node::Integer(signed, unsigned, text), PlistModel::Integer(n)) => {
            &&& i64::MIN <= n <= u64::MAX
            &&& signed == if n <= i64::MAX { Some(n as i64) } else { None }
            &&& unsigned == if n >= 0 { Some(n as u64) } else { None }
            &&& text@ == number::integer(n)
        },
        (Node::Real(bits), PlistModel::Real(number)) => double::number_of(bits) == number,
        (Node::String(a), PlistModel::String(b)) => a@ == b,
        (Node::Data(a), PlistModel::Data(b)) => a@ == b,
        (Node::Date(a), PlistModel::Date(b)) => a == b,
        (Node::Uid(a), PlistModel::Uid(b)) => a == b,
        (Node::Array(items), PlistModel::Array(models)) => all_contents(items@) == models,
        (Node::Dict(entries), PlistModel::Dict(models)) => plist_entries(*entries) == models,
        (Node::Other(a), PlistModel::Other(b)) => a@ == b,
        _ => false,
    }
}

/// Whether the `plist` crate reads an XML document as far as the tag at `at`. If it
/// does, it makes one thing of the document with a tag there that it knows, and
/// another of the document with one that it does not. If it does not, it has failed
/// before, and both fail alike.
pub open spec fn reads_up_to(body: Seq<u8>, at: int) -> bool {
    match (
        plist_parsed(xml_dates::cut_off(body, at, true)),
        plist_parsed(xml_dates::cut_off(body, at, false)),
    ) {
        (Err(first), Err(second)) => first != second,
        _ => true,
    }
}

/// Whether the `plist` crate comes to a date in a document that leaves the year 9999
/// in UTC: the document is not binary, and it is read up to the first such date.
pub open spec fn far_date_in(document: Seq<u8>) -> bool {
    let body = xml_dates::body_of(document);
    !bytes::start_with(document, "bplist00"@) && match xml_dates::first_far(body, 0) {
        Some(at) => reads_up_to(body, at),
        None => false,
    }
}

/// `plist::Value::from_reader` turns a document, binary, XML or ASCII, into a value
/// or an error. Every date it reads lies in the years -9999 to 9999: a binary date
/// beyond is an error, and XML has no others. It panics when it comes to an XML
/// date that leaves the year 9999 as it is moved to UTC, so documents in which it does
/// are kept out. It reads a document from the front and stops at the first error, and
/// only a document that fails before any declaration or element is taken for ASCII.
/// A binary document ends with a trailer of thirty-two bytes, so one that is
/// shorter is an error.
#[verifier::external_body]
fn parse(bytes: &[u8]) -> (parsed: Result<Document, String>)
    requires
        !far_date_in(bytes@),
    ensures
        match parsed {
            Ok(value) => plist_parsed(bytes@) == Ok::<PlistModel, Seq<char>>(plist_contents(value))
                && dates_in_range(plist_contents(value)),
            Err(error) => plist_parsed(bytes@) == Err::<PlistModel, Seq<char>>(error@),
        },
        lacks_trailer(bytes@) ==> parsed is Err,
{
    Document::from_reader(std::io::Cursor::new(bytes)).map_err(|error| error.to_string())
}

/// The outermost layer of a `plist::Value`, variant for variant. `Integer` holds
/// what fits an `i64` or a `u64`, and its two accessors and its text are those of
/// that number; a date is moved into whole seconds, rounded down, by
/// `chrono::DateTime`, which takes every date in the given range.
#[verifier::external_body]
fn node(value: &Document) -> (node: Node<'_>)
    requires
        dates_in_range(plist_contents(*value)),
    ensures
        tops(node, plist_contents(*value)),
{
    match value {
        Document::Boolean(value) => Node::Bool(*value),
        Document::String(value) => Node::String(value.clone()),
        Document::Real(value) => Node::Real(value.to_bits()),
        Document::Data(data) => Node::Data(data.clone()),
        Document::Uid(uid) => Node::Uid(uid.get()),
        Document::Integer(n) => Node::Integer(n.as_signed(), n.as_unsigned(), n.to_string()),
        Document::Date(date) => Node::Date(DateTime::<Utc>::from(SystemTime::from(*date)).timestamp()),
        Document::Array(items) => Node::Array(items),
        Document::Dictionary(entries) => Node::Dict(entries),
        other => Node::Other(format!("{other:?}")),
    }
}

/// `plist::Dictionary::iter` hands out the keys with their values.
#[verifier::external_body]
fn entries_of(dictionary: &plist::Dictionary) -> (entries: Vec<(String, &Document)>)
    ensures
        plist_entries(*dictionary) == Seq::new(
            entries@.len(),
            |i: int| (entries@[i].0@, plist_contents(*entries@[i].1)),
        ),
{
    dictionary.iter().map(|(key, value)| (key.clone(), value)).collect()
}

/// The `Display` form of a double, for a value that is one.
#[verifier::external_body]
fn display_of(value: &Document) -> (text: Option<String>)
    ensures
        text is Some <==> plist_contents(*value) is Real,
        text matches Some(found) ==> found@ == real_display(plist_contents(*value)->Real_0),
{
    value.as_real().map(|value| value.to_string())
}

/// The `Display` form of a double with a precision of one, for a value that is one:
/// one digit after the point, so that there is a point wherever there is a number.
#[verifier::external_body]
fn fixed_of(value: &Document) -> (text: Option<String>)
    ensures
        text is Some <==> plist_contents(*value) is Real,
        text matches Some(found) ==> {
            &&& found@ == real_fixed(plist_contents(*value)->Real_0)
            &&& plist_contents(*value)->Real_0 matches Some(bits) ==> double::finite(bits)
                ==> found@.contains('.')
        },
{
    value.as_real().map(|value| format!("{value:.1}"))
}

/// The text of the `serde_json::Value` made from a double, for a value that is one.
#[verifier::external_body]
fn json_of(value: &Document) -> (text: Option<String>)
    ensures
        text is Some <==> plist_contents(*value) is Real,
        text matches Some(found) ==> found@ == real_json(plist_contents(*value)->Real_0),
{
    value.as_real().map(|value| serde_json::Value::from(value).to_string())
}

// ---------------------------------------------------------------------------
// Property lists as plain values
// ---------------------------------------------------------------------------

/// A property list as plain values.
#[derive(Debug)]
pub enum Tree {
    /// A boolean.
    Bool(bool),
    /// An integer: as a signed and as an unsigned number, where it is one, and in
    /// decimal.
    Integer {
        /// The integer, if it fits an `i64`.
        signed: Option<i64>,
        /// The integer, if it fits a `u64`.
        unsigned: Option<u64>,
        /// The integer in decimal.
        text: String,
    },
    /// A floating-point number.
    Real(Real),
    /// A string.
    String(String),
    /// Raw bytes.
    Data(Vec<u8>),
    /// A date, already formatted as RFC 3339.
    Date(String),
    /// A reference to an object of an archive.
    Uid(u64),
    /// An ordered list.
    Array(Vec<Tree>),
    /// The keys with their values, in the order they came in.
    Dict(Vec<(String, Tree)>),
    /// Anything else, by its label.
    Other(String),
}

/// What a property list in plain values is.
pub enum TreeModel {
    /// A boolean.
    Bool(bool),
    /// An integer: as a signed and as an unsigned number, and in decimal.
    Integer(Option<i64>, Option<u64>, Seq<char>),
    /// A floating-point number.
    Real(RealModel),
    /// A string.
    String(Seq<char>),
    /// Raw bytes.
    Data(Seq<u8>),
    /// A date, already formatted as RFC 3339.
    Date(Seq<char>),
    /// A reference to an object of an archive.
    Uid(u64),
    /// An ordered list.
    Array(Seq<TreeModel>),
    /// The keys with their values, in the order they came in.
    Dict(Seq<(Seq<char>, TreeModel)>),
    /// Anything else, by its label.
    Other(Seq<char>),
}

impl View for Tree {
    type V = TreeModel;

    open spec fn view(&self) -> TreeModel {
        tree_model(*self)
    }
}

/// What a property list in plain values is.
pub open spec fn tree_model(tree: Tree) -> TreeModel
    decreases tree,
{
    match tree {
        Tree::Bool(b) => TreeModel::Bool(b),
        Tree::Integer { signed, unsigned, text } => TreeModel::Integer(signed, unsigned, text@),
        Tree::Real(r) => TreeModel::Real(r@),
        Tree::String(s) => TreeModel::String(s@),
        Tree::Data(data) => TreeModel::Data(data@),
        Tree::Date(s) => TreeModel::Date(s@),
        Tree::Uid(n) => TreeModel::Uid(n),
        Tree::Array(items) => TreeModel::Array(
            Seq::new(
                items@.len(),
                |i: int|
                    if 0 <= i < items@.len() {
                        tree_model(items@[i])
                    } else {
                        TreeModel::Uid(0)
                    },
            ),
        ),
        Tree::Dict(entries) => TreeModel::Dict(
            Seq::new(
                entries@.len(),
                |i: int|
                    if 0 <= i < entries@.len() {
                        (entries@[i].0@, tree_model(entries@[i].1))
                    } else {
                        (seq![], TreeModel::Uid(0))
                    },
            ),
        ),
        Tree::Other(s) => TreeModel::Other(s@),
    }
}

/// Whether the numbers and texts of a double belong together.
pub open spec fn real_agrees(number: Option<u64>, written: RealModel) -> bool {
    &&& double::number_of(written.bits) == number
    &&& written.display == real_display(number)
    &&& written.fixed == real_fixed(number)
    &&& written.json == real_json(number)
    &&& double::finite(written.bits) ==> written.fixed.contains('.')
}

/// Whether plain values hold what a property list holds, as far as `room` levels
/// down.
///
/// A date agrees with its text in local time; everything else has one form.
pub open spec fn agrees(source: PlistModel, tree: TreeModel, room: nat) -> bool
    decreases room,
{
    room == 0 || match (source, tree) {
        (PlistModel::Bool(a), TreeModel::Bool(b)) => a == b,
        (PlistModel::Integer(n), TreeModel::Integer(signed, unsigned, text)) => {
            &&& i64::MIN <= n <= u64::MAX
            &&& signed == if n <= i64::MAX { Some(n as i64) } else { None }
            &&& unsigned == if n >= 0 { Some(n as u64) } else { None }
            &&& text == number::integer(n)
        },
        (PlistModel::Real(number), TreeModel::Real(written)) => real_agrees(number, written),
        (PlistModel::String(a), TreeModel::String(b)) => a == b,
        (PlistModel::Data(a), TreeModel::Data(b)) => a == b,
        (PlistModel::Date(seconds), TreeModel::Date(text)) => clock::written(seconds, text),
        (PlistModel::Uid(a), TreeModel::Uid(b)) => a == b,
        (PlistModel::Array(a), TreeModel::Array(b)) => {
            &&& a.len() == b.len()
            &&& forall|i: int|
                0 <= i < a.len() ==> agrees(#[trigger] a[i], b[i], (room - 1) as nat)
        },
        (PlistModel::Dict(a), TreeModel::Dict(b)) => {
            &&& a.len() == b.len()
            &&& forall|i: int|
                0 <= i < a.len() ==> (#[trigger] a[i]).0 == b[i].0 && agrees(
                    a[i].1,
                    b[i].1,
                    (room - 1) as nat,
                )
        },
        (PlistModel::Other(a), TreeModel::Other(b)) => a == b,
        _ => false,
    }
}

/// Formats a plist date as RFC 3339 in local time.
fn format_date(seconds: i64) -> (text: String)
    requires
        FIRST_DATE <= seconds <= LAST_DATE,
    ensures
        clock::written(seconds, text@),
{
    format_local(seconds)
}

/// A floating-point number with the texts that stand for it.
fn load_real(value: &Document, bits: u64) -> (written: Real)
    requires
        plist_contents(*value) == PlistModel::Real(double::number_of(bits)),
    ensures
        real_agrees(double::number_of(bits), written@),
{
    match (display_of(value), fixed_of(value), json_of(value)) {
        (Some(display), Some(fixed), Some(json)) => Real { bits, display, fixed, json },
        _ => {
            assert(false);
            Real { bits, display: String::new(), fixed: String::new(), json: String::new() }
        },
    }
}

/// Moves a property list into plain values, as far down as a conversion looks.
fn load(value: &Document, depth: usize) -> (tree: Tree)
    requires
        dates_in_range(plist_contents(*value)),
    ensures
        depth < MAX_DEPTH ==> agrees(
            plist_contents(*value),
            tree@,
            (MAX_DEPTH - depth) as nat,
        ),
    decreases MAX_DEPTH - depth,
{
    if depth >= MAX_DEPTH {
        return Tree::Other(String::new());
    }
    let ghost source = plist_contents(*value);
    match node(value) {
        Node::Bool(value) => Tree::Bool(value),
        Node::Integer(signed, unsigned, text) => Tree::Integer { signed, unsigned, text },
        Node::Real(bits) => Tree::Real(load_real(value, bits)),
        Node::String(value) => Tree::String(value),
        Node::Data(data) => Tree::Data(data),
        Node::Date(seconds) => Tree::Date(format_date(seconds)),
        Node::Uid(uid) => Tree::Uid(uid),
        Node::Array(values) => {
            let ghost room = (MAX_DEPTH - depth - 1) as nat;
            let mut items: Vec<Tree> = Vec::new();
            let mut i: usize = 0;
            while i < values.len()
                invariant
                    depth < MAX_DEPTH,
                    room == MAX_DEPTH - depth - 1,
                    i <= values@.len(),
                    items@.len() == i,
                    source == PlistModel::Array(all_contents(values@)),
                    dates_in_range(source),
                    forall|k: int|
                        0 <= k < i ==> agrees(
                            plist_contents(values@[k]),
                            (#[trigger] items@[k])@,
                            room,
                        ),
                decreases values@.len() - i,
            {
                assert(dates_in_range(source->Array_0[i as int]));
                items.push(load(&values[i], depth + 1));
                i += 1;
            }
            let tree = Tree::Array(items);
            proof {
                let a = source->Array_0;
                let b = tree@->Array_0;
                assert forall|k: int| 0 <= k < a.len() implies agrees(#[trigger] a[k], b[k], room) by {
                    assert(b[k] == items@[k]@);
                }
            }
            tree
        },
        Node::Dict(dictionary) => {
            let ghost room = (MAX_DEPTH - depth - 1) as nat;
            let found = entries_of(dictionary);
            let mut entries: Vec<(String, Tree)> = Vec::new();
            let mut i: usize = 0;
            while i < found.len()
                invariant
                    depth < MAX_DEPTH,
                    room == MAX_DEPTH - depth - 1,
                    i <= found@.len(),
                    entries@.len() == i,
                    source == PlistModel::Dict(
                        Seq::new(
                            found@.len(),
                            |i: int| (found@[i].0@, plist_contents(*found@[i].1)),
                        ),
                    ),
                    dates_in_range(source),
                    forall|k: int|
                        0 <= k < i ==> (#[trigger] entries@[k]).0@ == found@[k].0@ && agrees(
                            plist_contents(*found@[k].1),
                            entries@[k].1@,
                            room,
                        ),
                decreases found@.len() - i,
            {
                assert(dates_in_range(source->Dict_0[i as int].1));
                entries.push((found[i].0.clone(), load(found[i].1, depth + 1)));
                i += 1;
            }
            let tree = Tree::Dict(entries);
            proof {
                let a = source->Dict_0;
                let b = tree@->Dict_0;
                assert forall|k: int| 0 <= k < a.len() implies (#[trigger] a[k]).0 == b[k].0
                    && agrees(a[k].1, b[k].1, room) by {
                    assert(b[k] == (entries@[k].0@, entries@[k].1@));
                }
            }
            tree
        },
        Node::Other(label) => Tree::Other(label),
    }
}

// ---------------------------------------------------------------------------
// Converting
// ---------------------------------------------------------------------------

/// What a property list converts to, found `depth` levels down.
///
/// Plist integers may be signed or unsigned 64-bit; `i128` holds either. Entries
/// are put in order of their keys; anything else keeps its order and its place.
pub open spec fn converted(tree: TreeModel, depth: nat) -> ValueModel
    decreases tree,
{
    if depth >= MAX_DEPTH {
        ValueModel::String(TOO_DEEP@)
    } else {
        match tree {
            TreeModel::Bool(b) => ValueModel::Bool(b),
            TreeModel::Integer(Some(n), _, _) => ValueModel::Integer(n as i128),
            TreeModel::Integer(None, Some(n), _) => ValueModel::Integer(n as i128),
            TreeModel::Integer(None, None, text) => ValueModel::String(text),
            TreeModel::Real(r) => ValueModel::Real(r),
            TreeModel::String(s) => ValueModel::String(s),
            TreeModel::Data(data) => ValueModel::Data(data),
            TreeModel::Date(s) => ValueModel::Date(s),
            TreeModel::Uid(n) => ValueModel::Uid(n),
            TreeModel::Array(items) => ValueModel::Array(
                Seq::new(
                    items.len(),
                    |i: int|
                        if 0 <= i < items.len() {
                            converted(items[i], depth + 1)
                        } else {
                            ValueModel::Uid(0)
                        },
                ),
            ),
            TreeModel::Dict(entries) => ValueModel::Dict(
                order::mapped(converted_entries(entries, depth + 1)),
            ),
            TreeModel::Other(label) => ValueModel::String(
                "<unsupported plist value: "@ + label + ">"@,
            ),
        }
    }
}

/// What entries convert to, found `depth` levels down.
pub open spec fn converted_entries(entries: Seq<(Seq<char>, TreeModel)>, depth: nat) -> Seq<
    (Seq<char>, ValueModel),
>
    decreases entries,
{
    Seq::new(
        entries.len(),
        |i: int|
            if 0 <= i < entries.len() {
                (entries[i].0, converted(entries[i].1, depth))
            } else {
                (seq![], ValueModel::Uid(0))
            },
    )
}

/// The label of a value that has no form here.
fn unsupported(label: &str) -> (text: String)
    ensures
        text@ == "<unsupported plist value: "@ + label@ + ">"@,
{
    let mut text = "<unsupported plist value: ".to_string();
    text.push_str(label);
    text.push_str(">");
    text
}

/// A copy of some bytes.
fn copy_bytes(data: &Vec<u8>) -> (copy: Vec<u8>)
    ensures
        copy@ == data@,
{
    let mut copy: Vec<u8> = Vec::new();
    let mut i: usize = 0;
    while i < data.len()
        invariant
            i <= data@.len(),
            copy@ == data@.take(i as int),
        decreases data@.len() - i,
    {
        copy.push(data[i]);
        i += 1;
    }
    copy
}

/// Converts a property list into our own value, bounded by depth.
pub fn convert(tree: &Tree, depth: usize) -> (value: Value)
    ensures
        value@ == converted(tree@, depth as nat),
    decreases tree,
{
    if depth >= MAX_DEPTH {
        return Value::String(TOO_DEEP.to_string());
    }
    match tree {
        Tree::Bool(value) => Value::Bool(*value),
        Tree::Integer { signed, unsigned, text } => match (*signed, *unsigned) {
            (Some(value), _) => Value::Integer(value as i128),
            (None, Some(value)) => Value::Integer(value as i128),
            (None, None) => Value::String(text.clone()),
        },
        Tree::Real(value) => Value::Real(
            Real {
                bits: value.bits,
                display: value.display.clone(),
                fixed: value.fixed.clone(),
                json: value.json.clone(),
            },
        ),
        Tree::String(value) => Value::String(value.clone()),
        Tree::Data(data) => Value::Data(copy_bytes(data)),
        Tree::Date(value) => Value::Date(value.clone()),
        Tree::Uid(uid) => Value::Uid(*uid),
        Tree::Array(items) => {
            let mut values: Vec<Value> = Vec::new();
            let mut i: usize = 0;
            while i < items.len()
                invariant
                    depth < MAX_DEPTH,
                    i <= items@.len(),
                    *tree == Tree::Array(*items),
                    values@.len() == i,
                    forall|k: int|
                        0 <= k < i ==> (#[trigger] values@[k])@ == converted(
                            items@[k]@,
                            depth as nat + 1,
                        ),
                decreases items@.len() - i,
            {
                assert(decreases_to!(*tree => tree->Array_0@[i as int]));
                values.push(convert(&items[i], depth + 1));
                i += 1;
            }
            proof {
                decode::array_view(values);
                assert(decode::models(values@) =~= converted(tree@, depth as nat)->Array_0);
            }
            Value::Array(values)
        },
        Tree::Dict(entries) => {
            let mut pairs: Vec<(String, Value)> = Vec::new();
            let mut i: usize = 0;
            while i < entries.len()
                invariant
                    depth < MAX_DEPTH,
                    i <= entries@.len(),
                    *tree == Tree::Dict(*entries),
                    pairs@.len() == i,
                    forall|k: int|
                        0 <= k < i ==> (#[trigger] pairs@[k]).0@ == entries@[k].0@
                            && pairs@[k].1@ == converted(entries@[k].1@, depth as nat + 1),
                decreases entries@.len() - i,
            {
                assert(decreases_to!(*tree => tree->Dict_0@[i as int].1));
                pairs.push((entries[i].0.clone(), convert(&entries[i].1, depth + 1)));
                i += 1;
            }
            let ghost listed = (SortedMap { entries: pairs }).pairs();
            assert(listed =~= converted_entries(tree@->Dict_0, depth as nat + 1));
            let map = SortedMap::from_entries(pairs);
            proof {
                decode::dict_view(map);
            }
            Value::Dict(map)
        },
        // Anything new degrades to a label rather than failing the whole decode.
        Tree::Other(label) => Value::String(unsupported(label.as_str())),
    }
}

/// Why a property list was not decoded.
#[derive(Debug)]
pub enum PlistError {
    /// The document is not well-formed, in the words of the `plist` crate.
    Malformed(String),
    /// A date of the document lies after the year 9999, in UTC.
    FarDate,
}

impl PlistError {
    /// What the error says.
    pub open spec fn said(self) -> Seq<char> {
        match self {
            PlistError::Malformed(text) => text@,
            PlistError::FarDate => "a date lies after the year 9999"@,
        }
    }

    /// The error in words.
    pub fn message(&self) -> (text: String)
        ensures
            text@ == self.said(),
    {
        match self {
            PlistError::Malformed(text) => text.clone(),
            PlistError::FarDate => "a date lies after the year 9999".to_string(),
        }
    }
}

/// Whether a property list that holds `source` can decode to `value`.
pub open spec fn decodes_to(source: PlistModel, value: ValueModel) -> bool {
    exists|tree: TreeModel| #[trigger]
        agrees(source, tree, MAX_DEPTH as nat) && value == converted(tree, 0)
}

/// Whether some bytes can decode to `outcome`.
pub open spec fn outcome_of(bytes: Seq<u8>, outcome: Result<Value, PlistError>) -> bool {
    if far_date_in(bytes) {
        outcome == Err::<Value, PlistError>(PlistError::FarDate)
    } else {
        match (plist_parsed(bytes), outcome) {
            (Ok(source), Ok(value)) => decodes_to(source, value@),
            (Err(text), Err(PlistError::Malformed(error))) => error@ == text,
            _ => false,
        }
    }
}

/// Whether the `plist` crate comes to a date in a document that leaves the year 9999
/// in UTC.
pub fn has_far_date(document: &[u8]) -> (yes: bool)
    ensures
        yes == far_date_in(document@),
{
    assert(document@.skip(0) =~= document@);
    if starts_at(document, 0, "bplist00") {
        return false;
    }
    let from = start_of_body(document);
    let body = vstd::slice::slice_subrange(document, from, document.len());
    assert(body@ =~= xml_dates::body_of(document@));
    let at = match find_far_date(body) {
        Some(at) => at,
        None => {
            return false;
        },
    };
    let known = cut_short(body, at, true);
    let unknown = cut_short(body, at, false);
    proof {
        nothing_far_before(body@, at as int, true);
        nothing_far_before(body@, at as int, false);
    }
    match (parse(known.as_slice()), parse(unknown.as_slice())) {
        (Err(first), Err(second)) => !same(first.as_str(), second.as_str()),
        _ => true,
    }
}

/// A document cut off before its first far date holds none.
proof fn nothing_far_before(body: Seq<u8>, at: int, known: bool)
    requires
        xml_dates::first_far(body, 0) == Some(at),
    ensures
        !far_date_in(xml_dates::cut_off(body, at, known)),
{
    xml_dates::cut_off_holds_none(body, at, known);
}

/// Reads a property list into plain values, as far down as a conversion looks.
pub fn read(bytes: &[u8]) -> (outcome: Result<Tree, PlistError>)
    ensures
        if far_date_in(bytes@) {
            outcome == Err::<Tree, PlistError>(PlistError::FarDate)
        } else {
            match (plist_parsed(bytes@), outcome) {
                (Ok(source), Ok(tree)) => agrees(source, tree@, MAX_DEPTH as nat),
                (Err(text), Err(PlistError::Malformed(error))) => error@ == text,
                _ => false,
            }
        },
        lacks_trailer(bytes@) ==> outcome is Err,
{
    if has_far_date(bytes) {
        return Err(PlistError::FarDate);
    }
    match parse(bytes) {
        Ok(value) => Ok(load(&value, 0)),
        Err(error) => Err(PlistError::Malformed(error)),
    }
}

/// Decodes a property list, binary or XML.
///
/// Input that is not a well-formed property list, truncated files among it, is an
/// error.
pub fn decode(bytes: &[u8]) -> (outcome: Result<Value, PlistError>)
    ensures
        outcome_of(bytes@, outcome),
        lacks_trailer(bytes@) ==> outcome is Err,
{
    match read(bytes) {
        Ok(tree) => {
            let value = convert(&tree, 0);
            assert(agrees(plist_parsed(bytes@)->Ok_0, tree@, MAX_DEPTH as nat));
            Ok(value)
        },
        Err(error) => Err(error),
    }
}

// ---------------------------------------------------------------------------
// Laws
// ---------------------------------------------------------------------------

/// Whether a value nests at most `room` levels of containers.
pub open spec fn nests_within(value: ValueModel, room: nat) -> bool
    decreases room,
{
    match value {
        ValueModel::Array(items) => room > 0 && forall|i: int|
            0 <= i < items.len() ==> nests_within(#[trigger] items[i], (room - 1) as nat),
        ValueModel::Dict(entries) => room > 0 && forall|i: int|
            0 <= i < entries.len() ==> nests_within((#[trigger] entries[i]).1, (room - 1) as nat),
        _ => true,
    }
}

/// A conversion nests no deeper than [`MAX_DEPTH`], however deep the property list
/// nests, and the keys of each of its dictionaries ascend, so that none occurs
/// twice.
pub proof fn conversion_is_bounded(tree: TreeModel, depth: nat)
    requires
        depth <= MAX_DEPTH,
    ensures
        nests_within(converted(tree, depth), (MAX_DEPTH - depth) as nat),
        decode::valid(converted(tree, depth)),
    decreases tree,
{
    if depth < MAX_DEPTH {
        match tree {
            TreeModel::Array(items) => {
                let made = converted(tree, depth)->Array_0;
                assert forall|i: int| 0 <= i < made.len() implies nests_within(
                    #[trigger] made[i],
                    (MAX_DEPTH - depth - 1) as nat,
                ) && decode::valid(made[i]) by {
                    conversion_is_bounded(items[i], depth + 1);
                }
            },
            TreeModel::Dict(entries) => {
                let listed = converted_entries(entries, depth + 1);
                let made = order::mapped(listed);
                order::mapped_ascends(listed);
                assert forall|i: int| 0 <= i < made.len() implies nests_within(
                    (#[trigger] made[i]).1,
                    (MAX_DEPTH - depth - 1) as nat,
                ) && decode::valid(made[i].1) by {
                    order::mapped_entry(listed, i);
                    let k = choose|k: int| 0 <= k < listed.len() && listed[k] == made[i];
                    conversion_is_bounded(entries[k].1, depth + 1);
                }
            },
            _ => {},
        }
    }
}

/// Whether two doubles are the same number with the same texts.
pub open spec fn same_real(a: RealModel, b: RealModel) -> bool {
    &&& double::number_of(a.bits) == double::number_of(b.bits)
    &&& a.display == b.display
    &&& a.fixed == b.fixed
    &&& a.json == b.json
}

/// Whether two values are the same but for the bits of what is not a number and the
/// zone that dates are written in.
pub open spec fn same_value(a: ValueModel, b: ValueModel) -> bool
    decreases a,
{
    match (a, b) {
        (ValueModel::Real(x), ValueModel::Real(y)) => same_real(x, y),
        (ValueModel::Date(x), ValueModel::Date(y)) => clock::same_instant(x, y),
        (ValueModel::Array(x), ValueModel::Array(y)) => {
            &&& x.len() == y.len()
            &&& forall|i: int| 0 <= i < x.len() ==> same_value(#[trigger] x[i], y[i])
        },
        (ValueModel::Dict(x), ValueModel::Dict(y)) => {
            &&& x.len() == y.len()
            &&& forall|i: int|
                0 <= i < x.len() ==> (#[trigger] x[i]).0 == y[i].0 && same_value(x[i].1, y[i].1)
        },
        _ => a == b,
    }
}

/// Whether two lists of entries are the same but for the bits of what is not a
/// number and the zone that dates are written in.
spec fn same_entries(
    a: Seq<(Seq<char>, ValueModel)>,
    b: Seq<(Seq<char>, ValueModel)>,
) -> bool {
    &&& a.len() == b.len()
    &&& forall|i: int|
        0 <= i < a.len() ==> (#[trigger] a[i]).0 == b[i].0 && same_value(a[i].1, b[i].1)
}

/// Inserting the same into the same gives the same.
proof fn inserted_same(
    a: Seq<(Seq<char>, ValueModel)>,
    b: Seq<(Seq<char>, ValueModel)>,
    key: Seq<char>,
    x: ValueModel,
    y: ValueModel,
)
    requires
        same_entries(a, b),
        same_value(x, y),
    ensures
        same_entries(order::inserted(a, key, x), order::inserted(b, key, y)),
    decreases a.len(),
{
    if a.len() > 0 {
        assert(a[a.len() - 1].0 == b[b.len() - 1].0);
        let front_a = a.drop_last();
        let front_b = b.drop_last();
        assert(same_entries(front_a, front_b)) by {
            assert forall|i: int| 0 <= i < front_a.len() implies (#[trigger] front_a[i]).0
                == front_b[i].0 && same_value(front_a[i].1, front_b[i].1) by {
                assert(a[i] == front_a[i]);
                assert(b[i] == front_b[i]);
            }
        }
        inserted_same(front_a, front_b, key, x, y);
    }
}

/// The same entries make the same map.
proof fn mapped_same(a: Seq<(Seq<char>, ValueModel)>, b: Seq<(Seq<char>, ValueModel)>)
    requires
        same_entries(a, b),
    ensures
        same_entries(order::mapped(a), order::mapped(b)),
    decreases a.len(),
{
    if a.len() > 0 {
        assert(a[a.len() - 1].0 == b[b.len() - 1].0);
        let front_a = a.drop_last();
        let front_b = b.drop_last();
        assert(same_entries(front_a, front_b)) by {
            assert forall|i: int| 0 <= i < front_a.len() implies (#[trigger] front_a[i]).0
                == front_b[i].0 && same_value(front_a[i].1, front_b[i].1) by {
                assert(a[i] == front_a[i]);
                assert(b[i] == front_b[i]);
            }
        }
        mapped_same(front_a, front_b);
        inserted_same(
            order::mapped(front_a),
            order::mapped(front_b),
            a.last().0,
            a.last().1,
            b.last().1,
        );
    }
}

/// A property list decodes to one value: nothing in it depends on where or when it
/// is decoded but the zone that its dates are written in.
pub proof fn decoding_is_determined(source: PlistModel, a: TreeModel, b: TreeModel, depth: nat)
    requires
        depth <= MAX_DEPTH,
        agrees(source, a, (MAX_DEPTH - depth) as nat),
        agrees(source, b, (MAX_DEPTH - depth) as nat),
    ensures
        same_value(converted(a, depth), converted(b, depth)),
    decreases MAX_DEPTH - depth,
{
    if depth < MAX_DEPTH {
        match (source, a, b) {
            (PlistModel::Date(seconds), TreeModel::Date(x), TreeModel::Date(y)) => {
                assert(clock::written(seconds, x) && clock::written(seconds, y));
            },
            (PlistModel::Array(items), TreeModel::Array(x), TreeModel::Array(y)) => {
                assert forall|i: int| 0 <= i < x.len() implies same_value(
                    converted(#[trigger] x[i], depth + 1),
                    converted(y[i], depth + 1),
                ) by {
                    assert(agrees(items[i], x[i], (MAX_DEPTH - depth - 1) as nat));
                    decoding_is_determined(items[i], x[i], y[i], depth + 1);
                }
            },
            (PlistModel::Dict(entries), TreeModel::Dict(x), TreeModel::Dict(y)) => {
                let p = converted_entries(x, depth + 1);
                let q = converted_entries(y, depth + 1);
                assert forall|i: int| 0 <= i < p.len() implies (#[trigger] p[i]).0 == q[i].0
                    && same_value(p[i].1, q[i].1) by {
                    assert(entries[i].0 == x[i].0);
                    decoding_is_determined(entries[i].1, x[i].1, y[i].1, depth + 1);
                }
                mapped_same(p, q);
            },
            _ => {},
        }
    }
}

/// Whether two property lists hold the same, whatever order the entries of their
/// dictionaries come in: the same keys, and under each the same.
pub open spec fn same_contents(a: PlistModel, b: PlistModel) -> bool
    decreases a,
{
    a == b || match (a, b) {
        (PlistModel::Array(x), PlistModel::Array(y)) => {
            &&& x.len() == y.len()
            &&& forall|i: int| 0 <= i < x.len() ==> same_contents(#[trigger] x[i], y[i])
        },
        (PlistModel::Dict(x), PlistModel::Dict(y)) => {
            &&& forall|key: Seq<char>| #[trigger]
                order::keys(x).contains(key) <==> order::keys(y).contains(key)
            &&& forall|i: int, j: int|
                0 <= i < x.len() && 0 <= j < y.len() && (#[trigger] x[i]).0 == (#[trigger] y[j]).0
                    ==> same_contents(x[i].1, y[j].1)
        },
        _ => false,
    }
}

/// Entries have the keys of the property list that they were converted from.
proof fn keys_of_converted(
    source: Seq<(Seq<char>, PlistModel)>,
    tree: Seq<(Seq<char>, TreeModel)>,
    depth: nat,
)
    requires
        source.len() == tree.len(),
        forall|i: int| 0 <= i < source.len() ==> (#[trigger] source[i]).0 == tree[i].0,
    ensures
        order::keys(converted_entries(tree, depth)) == order::keys(source),
{
    assert(order::keys(converted_entries(tree, depth)) =~= order::keys(source));
}

/// Property lists that hold the same decode to the same value.
proof fn same_contents_decode_alike(
    first: PlistModel,
    second: PlistModel,
    a: TreeModel,
    b: TreeModel,
    depth: nat,
)
    requires
        depth <= MAX_DEPTH,
        same_contents(first, second),
        agrees(first, a, (MAX_DEPTH - depth) as nat),
        agrees(second, b, (MAX_DEPTH - depth) as nat),
    ensures
        same_value(converted(a, depth), converted(b, depth)),
    decreases MAX_DEPTH - depth,
{
    if first == second {
        decoding_is_determined(first, a, b, depth);
    } else if depth < MAX_DEPTH {
        match (first, second, a, b) {
            (
                PlistModel::Array(s),
                PlistModel::Array(t),
                TreeModel::Array(x),
                TreeModel::Array(y),
            ) => {
                assert forall|i: int| 0 <= i < x.len() implies same_value(
                    converted(#[trigger] x[i], depth + 1),
                    converted(y[i], depth + 1),
                ) by {
                    assert(agrees(s[i], x[i], (MAX_DEPTH - depth - 1) as nat));
                    assert(agrees(t[i], y[i], (MAX_DEPTH - depth - 1) as nat));
                    same_contents_decode_alike(s[i], t[i], x[i], y[i], depth + 1);
                }
            },
            (PlistModel::Dict(s), PlistModel::Dict(t), TreeModel::Dict(x), TreeModel::Dict(y)) => {
                let p = converted_entries(x, depth + 1);
                let q = converted_entries(y, depth + 1);
                let related = |v: ValueModel, w: ValueModel| same_value(v, w);
                keys_of_converted(s, x, depth + 1);
                keys_of_converted(t, y, depth + 1);
                assert forall|i: int, j: int|
                    0 <= i < p.len() && 0 <= j < q.len() && (#[trigger] p[i]).0 == (
                    #[trigger] q[j]).0 implies related(p[i].1, q[j].1) by {
                    assert(s[i].0 == x[i].0 && t[j].0 == y[j].0);
                    same_contents_decode_alike(s[i].1, t[j].1, x[i].1, y[j].1, depth + 1);
                }
                order::mapped_pairs_up(p, q, related);
                let m = order::mapped(p);
                let n = order::mapped(q);
                assert forall|i: int| 0 <= i < m.len() implies (#[trigger] m[i]).0 == n[i].0
                    && same_value(m[i].1, n[i].1) by {
                    assert(related(m[i].1, n[i].1));
                }
            },
            _ => {},
        }
    }
}

/// Two documents that hold the same property list, an XML and a binary one say, both
/// decode, and to the same value, in whatever order they list the entries of a
/// dictionary. The keys of its dictionaries ascend.
pub proof fn encodings_decode_alike(
    first: Seq<u8>,
    second: Seq<u8>,
    x: Result<Value, PlistError>,
    y: Result<Value, PlistError>,
)
    requires
        !far_date_in(first),
        !far_date_in(second),
        plist_parsed(first) is Ok,
        plist_parsed(second) is Ok,
        same_contents(plist_parsed(first)->Ok_0, plist_parsed(second)->Ok_0),
        outcome_of(first, x),
        outcome_of(second, y),
    ensures
        x is Ok,
        y is Ok,
        same_value(x->Ok_0@, y->Ok_0@),
        decode::valid(x->Ok_0@),
        decode::valid(y->Ok_0@),
{
    let s = plist_parsed(first)->Ok_0;
    let t = plist_parsed(second)->Ok_0;
    let a = choose|tree: TreeModel| #[trigger]
        agrees(s, tree, MAX_DEPTH as nat) && x->Ok_0@ == converted(tree, 0);
    let b = choose|tree: TreeModel| #[trigger]
        agrees(t, tree, MAX_DEPTH as nat) && y->Ok_0@ == converted(tree, 0);
    same_contents_decode_alike(s, t, a, b, 0);
    conversion_is_bounded(a, 0);
    conversion_is_bounded(b, 0);
}

/// Whether every double of a property list is a number.
pub open spec fn all_numbers(source: PlistModel) -> bool
    decreases source,
{
    match source {
        PlistModel::Real(number) => number is Some,
        PlistModel::Array(items) => forall|i: int|
            0 <= i < items.len() ==> all_numbers(#[trigger] items[i]),
        PlistModel::Dict(entries) => forall|i: int|
            0 <= i < entries.len() ==> all_numbers((#[trigger] entries[i]).1),
        _ => true,
    }
}

/// Whether the dates of plain values are written in the zone that `zone` gives for
/// each time, as far as `room` levels down.
pub open spec fn dated_in(
    source: PlistModel,
    tree: TreeModel,
    room: nat,
    zone: spec_fn(i64) -> i32,
) -> bool
    decreases room,
{
    room == 0 || match (source, tree) {
        (PlistModel::Date(seconds), TreeModel::Date(text)) => text == clock::rfc3339(
            seconds,
            zone(seconds),
        ),
        (PlistModel::Array(a), TreeModel::Array(b)) => forall|i: int|
            0 <= i < a.len() ==> dated_in(#[trigger] a[i], b[i], (room - 1) as nat, zone),
        (PlistModel::Dict(a), TreeModel::Dict(b)) => forall|i: int|
            0 <= i < a.len() ==> dated_in(
                (#[trigger] a[i]).1,
                b[i].1,
                (room - 1) as nat,
                zone,
            ),
        _ => true,
    }
}

/// Whether a property list that holds `source` can decode to `value` where dates are
/// written in the given zone.
pub open spec fn decodes_in(
    source: PlistModel,
    value: ValueModel,
    zone: spec_fn(i64) -> i32,
) -> bool {
    exists|tree: TreeModel| #[trigger]
        agrees(source, tree, MAX_DEPTH as nat) && dated_in(source, tree, MAX_DEPTH as nat, zone)
            && value == converted(tree, 0)
}

/// Plain values of one property list, with dates in one zone, convert to one value.
proof fn converted_in_one_zone(
    source: PlistModel,
    a: TreeModel,
    b: TreeModel,
    depth: nat,
    zone: spec_fn(i64) -> i32,
)
    requires
        depth <= MAX_DEPTH,
        all_numbers(source),
        agrees(source, a, (MAX_DEPTH - depth) as nat),
        agrees(source, b, (MAX_DEPTH - depth) as nat),
        dated_in(source, a, (MAX_DEPTH - depth) as nat, zone),
        dated_in(source, b, (MAX_DEPTH - depth) as nat, zone),
    ensures
        converted(a, depth) == converted(b, depth),
    decreases MAX_DEPTH - depth,
{
    if depth < MAX_DEPTH {
        match (source, a, b) {
            (PlistModel::Array(items), TreeModel::Array(x), TreeModel::Array(y)) => {
                let p = converted(a, depth)->Array_0;
                let q = converted(b, depth)->Array_0;
                assert forall|i: int| 0 <= i < p.len() implies p[i] == q[i] by {
                    assert(all_numbers(items[i]));
                    converted_in_one_zone(items[i], x[i], y[i], depth + 1, zone);
                }
                assert(p =~= q);
            },
            (PlistModel::Dict(entries), TreeModel::Dict(x), TreeModel::Dict(y)) => {
                let p = converted_entries(x, depth + 1);
                let q = converted_entries(y, depth + 1);
                assert forall|i: int| 0 <= i < p.len() implies p[i] == q[i] by {
                    assert(entries[i].0 == x[i].0 && entries[i].0 == y[i].0);
                    assert(all_numbers(entries[i].1));
                    converted_in_one_zone(entries[i].1, x[i].1, y[i].1, depth + 1, zone);
                }
                assert(p =~= q);
            },
            _ => {},
        }
    }
}

/// Plain values of property lists that hold the same, with dates in one zone, convert
/// to one value.
proof fn same_contents_in_one_zone(
    first: PlistModel,
    second: PlistModel,
    a: TreeModel,
    b: TreeModel,
    depth: nat,
    zone: spec_fn(i64) -> i32,
)
    requires
        depth <= MAX_DEPTH,
        same_contents(first, second),
        all_numbers(first),
        all_numbers(second),
        agrees(first, a, (MAX_DEPTH - depth) as nat),
        agrees(second, b, (MAX_DEPTH - depth) as nat),
        dated_in(first, a, (MAX_DEPTH - depth) as nat, zone),
        dated_in(second, b, (MAX_DEPTH - depth) as nat, zone),
    ensures
        converted(a, depth) == converted(b, depth),
    decreases MAX_DEPTH - depth,
{
    if first == second {
        converted_in_one_zone(first, a, b, depth, zone);
    } else if depth < MAX_DEPTH {
        match (first, second, a, b) {
            (
                PlistModel::Array(s),
                PlistModel::Array(t),
                TreeModel::Array(x),
                TreeModel::Array(y),
            ) => {
                let p = converted(a, depth)->Array_0;
                let q = converted(b, depth)->Array_0;
                assert forall|i: int| 0 <= i < p.len() implies p[i] == q[i] by {
                    assert(all_numbers(s[i]) && all_numbers(t[i]));
                    same_contents_in_one_zone(s[i], t[i], x[i], y[i], depth + 1, zone);
                }
                assert(p =~= q);
            },
            (PlistModel::Dict(s), PlistModel::Dict(t), TreeModel::Dict(x), TreeModel::Dict(y)) => {
                let p = converted_entries(x, depth + 1);
                let q = converted_entries(y, depth + 1);
                let related = |v: ValueModel, w: ValueModel| v == w;
                keys_of_converted(s, x, depth + 1);
                keys_of_converted(t, y, depth + 1);
                assert forall|i: int, j: int|
                    0 <= i < p.len() && 0 <= j < q.len() && (#[trigger] p[i]).0 == (
                    #[trigger] q[j]).0 implies related(p[i].1, q[j].1) by {
                    assert(s[i].0 == x[i].0 && t[j].0 == y[j].0);
                    assert(all_numbers(s[i].1) && all_numbers(t[j].1));
                    same_contents_in_one_zone(s[i].1, t[j].1, x[i].1, y[j].1, depth + 1, zone);
                }
                order::mapped_pairs_up(p, q, related);
                let m = order::mapped(p);
                let n = order::mapped(q);
                assert forall|i: int| 0 <= i < m.len() implies m[i] == n[i] by {
                    assert(related(m[i].1, n[i].1));
                }
                assert(m =~= n);
            },
            _ => {},
        }
    }
}

/// In one zone, property lists that hold the same decode to one value, dates and all,
/// in whatever order they list the entries of a dictionary. What is not a number is
/// left out: it has many forms, with nothing to tell them apart.
pub proof fn decoding_in_one_zone_is_exact(
    first: PlistModel,
    second: PlistModel,
    x: ValueModel,
    y: ValueModel,
    zone: spec_fn(i64) -> i32,
)
    requires
        same_contents(first, second),
        all_numbers(first),
        all_numbers(second),
        decodes_in(first, x, zone),
        decodes_in(second, y, zone),
    ensures
        x == y,
{
    let a = choose|tree: TreeModel| #[trigger]
        agrees(first, tree, MAX_DEPTH as nat) && dated_in(first, tree, MAX_DEPTH as nat, zone)
            && x == converted(tree, 0);
    let b = choose|tree: TreeModel| #[trigger]
        agrees(second, tree, MAX_DEPTH as nat) && dated_in(second, tree, MAX_DEPTH as nat, zone)
            && y == converted(tree, 0);
    same_contents_in_one_zone(first, second, a, b, 0, zone);
}

/// Whether a value says what a property list says, as far as `room` levels down: the
/// same scalar, the same items in the same order, and the same keys, ascending, with what
/// the last entry for each key says. Below that a marker stands for everything.
pub open spec fn holds(source: PlistModel, value: ValueModel, room: nat) -> bool
    decreases room,
{
    if room == 0 {
        value == ValueModel::String("<nesting too deep>"@)
    } else {
        match source {
            PlistModel::Bool(b) => value == ValueModel::Bool(b),
            PlistModel::Integer(n) => value matches ValueModel::Integer(m) && m == n,
            PlistModel::Real(number) => value matches ValueModel::Real(r) && double::number_of(
                r.bits,
            ) == number && r.display == real_display(number) && r.fixed == real_fixed(number)
                && r.json == real_json(number),
            PlistModel::String(s) => value == ValueModel::String(s),
            PlistModel::Data(data) => value == ValueModel::Data(data),
            PlistModel::Date(seconds) => value matches ValueModel::Date(text) && clock::written(
                seconds,
                text,
            ),
            PlistModel::Uid(n) => value == ValueModel::Uid(n),
            PlistModel::Array(items) => value matches ValueModel::Array(found) && found.len()
                == items.len() && forall|i: int|
                0 <= i < items.len() ==> holds(#[trigger] items[i], found[i], (room - 1) as nat),
            PlistModel::Dict(entries) => {
                &&& value is Dict
                &&& order::ascending(order::keys(value->Dict_0))
                &&& forall|key: Seq<char>| #[trigger]
                    order::keys(value->Dict_0).contains(key) <==> order::keys(entries).contains(key)
                &&& forall|i: int, j: int|
                    0 <= i < entries.len() && 0 <= j < value->Dict_0.len() && stands_last(
                        entries,
                        i,
                    ) && (#[trigger] entries[i]).0 == (#[trigger] value->Dict_0[j]).0 ==> holds(
                        entries[i].1,
                        value->Dict_0[j].1,
                        (room - 1) as nat,
                    )
            },
            PlistModel::Other(label) => value == ValueModel::String(
                "<unsupported plist value: "@ + label + ">"@,
            ),
        }
    }
}

/// Whether an entry is the last one for its key.
pub open spec fn stands_last(entries: Seq<(Seq<char>, PlistModel)>, index: int) -> bool {
    forall|k: int| index < k < entries.len() ==> (#[trigger] entries[k]).0 != entries[index].0
}

/// What plain values convert to says what their property list says.
proof fn conversion_holds(source: PlistModel, tree: TreeModel, depth: nat)
    requires
        depth <= MAX_DEPTH,
        agrees(source, tree, (MAX_DEPTH - depth) as nat),
    ensures
        holds(source, converted(tree, depth), (MAX_DEPTH - depth) as nat),
    decreases MAX_DEPTH - depth,
{
    let room = (MAX_DEPTH - depth) as nat;
    let value = converted(tree, depth);
    if depth < MAX_DEPTH {
        match (source, tree) {
            (PlistModel::Array(items), TreeModel::Array(x)) => {
                assert forall|i: int| 0 <= i < items.len() implies holds(
                    #[trigger] items[i],
                    value->Array_0[i],
                    (room - 1) as nat,
                ) by {
                    assert(agrees(items[i], x[i], (room - 1) as nat));
                    conversion_holds(items[i], x[i], depth + 1);
                }
            },
            (PlistModel::Dict(entries), TreeModel::Dict(x)) => {
                let listed = converted_entries(x, depth + 1);
                let made = order::mapped(listed);
                order::mapped_ascends(listed);
                order::collected_is_set(order::keys(listed));
                keys_of_converted(entries, x, depth + 1);
                assert forall|key: Seq<char>| #[trigger]
                    order::keys(made).contains(key) <==> order::keys(entries).contains(key) by {
                    assert(order::collected(order::keys(listed)).contains(key) <==> order::keys(
                        listed,
                    ).contains(key));
                }
                assert forall|i: int, j: int|
                    0 <= i < entries.len() && 0 <= j < made.len() && stands_last(entries, i) && (
                    #[trigger] entries[i]).0 == (#[trigger] made[j]).0 implies holds(
                    entries[i].1,
                    made[j].1,
                    (room - 1) as nat,
                ) by {
                    let last = order::mapped_entry_is_the_last(listed, j);
                    assert(entries[last].0 == x[last].0 && entries[i].0 == x[i].0);
                    assert(listed[last].0 == entries[last].0 && listed[i].0 == entries[i].0);
                    if last < i {
                        assert(listed[i].0 != listed[last].0);
                    } else if i < last {
                        assert(entries[last].0 != entries[i].0);
                    }
                    conversion_holds(entries[i].1, x[i].1, depth + 1);
                }
            },
            _ => {},
        }
    }
}

/// A property list decodes to a value that says what it says, a hundred and twenty-eight
/// levels down, and only what is no property list is an error.
pub proof fn decoding_keeps_what_is_said(bytes: &[u8], outcome: Result<Value, PlistError>)
    requires
        call_ensures(decode, (bytes,), outcome),
    ensures
        !far_date_in(bytes@) ==> match plist_parsed(bytes@) {
            Ok(source) => outcome matches Ok(value) && holds(source, value@, 128),
            Err(text) => outcome matches Err(PlistError::Malformed(error)) && error@ == text,
        },
        far_date_in(bytes@) ==> outcome is Err,
{
    assert(outcome_of(bytes@, outcome));
    if !far_date_in(bytes@) {
        if let Ok(source) = plist_parsed(bytes@) {
            outcome_holds(source, outcome->Ok_0@);
        }
    }
}

/// What a property list can decode to says what it says.
pub proof fn outcome_holds(source: PlistModel, value: ValueModel)
    requires
        decodes_to(source, value),
    ensures
        holds(source, value, 128),
{
    let tree = choose|tree: TreeModel| #[trigger]
        agrees(source, tree, MAX_DEPTH as nat) && value == converted(tree, 0);
    conversion_holds(source, tree, 0);
}

/// A property list read into plain values has what it holds at the same places: the
/// same items in the same order and the same entries in the same order, as far as a
/// conversion looks.
pub proof fn reading_keeps_places(bytes: &[u8], outcome: Result<Tree, PlistError>)
    requires
        call_ensures(read, (bytes,), outcome),
    ensures
        !far_date_in(bytes@) ==> (plist_parsed(bytes@) matches Ok(source) ==> outcome matches Ok(
            tree,
        ) && placed_alike(source, tree@, 128)),
{
    if !far_date_in(bytes@) {
        if let Ok(source) = plist_parsed(bytes@) {
            agreement_keeps_places(source, outcome->Ok_0@, MAX_DEPTH as nat);
        }
    }
}

/// Whether plain values have the scalars of a property list in the same places.
pub open spec fn placed_alike(source: PlistModel, tree: TreeModel, room: nat) -> bool
    decreases room,
{
    room == 0 || match source {
        PlistModel::Bool(b) => tree == TreeModel::Bool(b),
        PlistModel::Integer(n) => tree matches TreeModel::Integer(signed, unsigned, _) && (signed
            matches Some(m) ==> m == n) && (unsigned matches Some(m) ==> m == n) && (signed is Some
            || unsigned is Some),
        PlistModel::Real(number) => tree matches TreeModel::Real(r) && double::number_of(r.bits)
            == number,
        PlistModel::String(s) => tree == TreeModel::String(s),
        PlistModel::Data(data) => tree == TreeModel::Data(data),
        PlistModel::Date(seconds) => tree matches TreeModel::Date(text) && clock::written(
            seconds,
            text,
        ),
        PlistModel::Uid(n) => tree == TreeModel::Uid(n),
        PlistModel::Array(items) => tree matches TreeModel::Array(found) && found.len()
            == items.len() && forall|i: int|
            0 <= i < items.len() ==> placed_alike(#[trigger] items[i], found[i], (room - 1) as nat),
        PlistModel::Dict(entries) => tree matches TreeModel::Dict(found) && found.len()
            == entries.len() && forall|i: int|
            0 <= i < entries.len() ==> (#[trigger] entries[i]).0 == found[i].0 && placed_alike(
                entries[i].1,
                found[i].1,
                (room - 1) as nat,
            ),
        PlistModel::Other(label) => tree == TreeModel::Other(label),
    }
}

/// Plain values that agree with a property list have its scalars in the same places.
proof fn agreement_keeps_places(source: PlistModel, tree: TreeModel, room: nat)
    requires
        agrees(source, tree, room),
    ensures
        placed_alike(source, tree, room),
    decreases room,
{
    if room > 0 {
        match (source, tree) {
            (PlistModel::Array(items), TreeModel::Array(x)) => {
                assert forall|i: int| 0 <= i < items.len() implies placed_alike(
                    #[trigger] items[i],
                    x[i],
                    (room - 1) as nat,
                ) by {
                    agreement_keeps_places(items[i], x[i], (room - 1) as nat);
                }
            },
            (PlistModel::Dict(entries), TreeModel::Dict(x)) => {
                assert forall|i: int| 0 <= i < entries.len() implies (#[trigger] entries[i]).0
                    == x[i].0 && placed_alike(entries[i].1, x[i].1, (room - 1) as nat) by {
                    agreement_keeps_places(entries[i].1, x[i].1, (room - 1) as nat);
                }
            },
            _ => {},
        }
    }
}

/// Whether a value carries what plain values hold, as far as `room` levels down: an
/// integer as itself, signed where it is both, and as its text where it is neither, the
/// same scalar for any other, the same items in the same order, and the same keys,
/// ascending, with what the last entry for each key carries. Below that a marker stands
/// for everything.
pub open spec fn carries(value: ValueModel, tree: TreeModel, room: nat) -> bool
    decreases room,
{
    if room == 0 {
        value == ValueModel::String("<nesting too deep>"@)
    } else {
        match tree {
            TreeModel::Bool(b) => value == ValueModel::Bool(b),
            TreeModel::Integer(signed, unsigned, text) => {
                &&& signed matches Some(n) ==> (value matches ValueModel::Integer(m) && m == n)
                &&& signed is None ==> (unsigned matches Some(n) ==> (value matches
                    ValueModel::Integer(m) && m == n))
                &&& signed is None && unsigned is None ==> value == ValueModel::String(text)
            },
            TreeModel::Real(r) => value == ValueModel::Real(r),
            TreeModel::String(s) => value == ValueModel::String(s),
            TreeModel::Data(data) => value == ValueModel::Data(data),
            TreeModel::Date(s) => value == ValueModel::Date(s),
            TreeModel::Uid(n) => value == ValueModel::Uid(n),
            TreeModel::Array(items) => value matches ValueModel::Array(found) && found.len()
                == items.len() && forall|i: int|
                0 <= i < items.len() ==> carries(found[i], #[trigger] items[i], (room - 1) as nat),
            TreeModel::Dict(entries) => {
                &&& value is Dict
                &&& order::ascending(order::keys(value->Dict_0))
                &&& forall|key: Seq<char>| #[trigger]
                    order::keys(value->Dict_0).contains(key) <==> order::keys(entries).contains(key)
                &&& forall|i: int, j: int|
                    0 <= i < entries.len() && 0 <= j < value->Dict_0.len() && is_last_entry(
                        entries,
                        i,
                    ) && (#[trigger] entries[i]).0 == (#[trigger] value->Dict_0[j]).0 ==> carries(
                        value->Dict_0[j].1,
                        entries[i].1,
                        (room - 1) as nat,
                    )
            },
            TreeModel::Other(label) => value == ValueModel::String(
                "<unsupported plist value: "@ + label + ">"@,
            ),
        }
    }
}

/// Whether an entry is the last one for its key.
pub open spec fn is_last_entry(entries: Seq<(Seq<char>, TreeModel)>, index: int) -> bool {
    forall|k: int| index < k < entries.len() ==> (#[trigger] entries[k]).0 != entries[index].0
}

/// What plain values convert to carries what they hold.
proof fn conversion_carries(tree: TreeModel, depth: nat)
    requires
        depth <= MAX_DEPTH,
    ensures
        carries(converted(tree, depth), tree, (MAX_DEPTH - depth) as nat),
    decreases tree,
{
    let room = (MAX_DEPTH - depth) as nat;
    let value = converted(tree, depth);
    if depth < MAX_DEPTH {
        match tree {
            TreeModel::Array(items) => {
                assert forall|i: int| 0 <= i < items.len() implies carries(
                    value->Array_0[i],
                    #[trigger] items[i],
                    (room - 1) as nat,
                ) by {
                    conversion_carries(items[i], depth + 1);
                }
            },
            TreeModel::Dict(entries) => {
                let listed = converted_entries(entries, depth + 1);
                let made = order::mapped(listed);
                order::mapped_ascends(listed);
                order::collected_is_set(order::keys(listed));
                assert(order::keys(listed) =~= order::keys(entries));
                assert forall|key: Seq<char>| #[trigger]
                    order::keys(made).contains(key) <==> order::keys(entries).contains(key) by {
                    assert(order::collected(order::keys(listed)).contains(key) <==> order::keys(
                        listed,
                    ).contains(key));
                }
                assert forall|i: int, j: int|
                    0 <= i < entries.len() && 0 <= j < made.len() && is_last_entry(entries, i) && (
                    #[trigger] entries[i]).0 == (#[trigger] made[j]).0 implies carries(
                    made[j].1,
                    entries[i].1,
                    (room - 1) as nat,
                ) by {
                    let last = order::mapped_entry_is_the_last(listed, j);
                    assert(listed[last].0 == entries[last].0 && listed[i].0 == entries[i].0);
                    if last < i {
                        assert(listed[i].0 != listed[last].0);
                    } else if i < last {
                        assert(entries[last].0 != entries[i].0);
                    }
                    conversion_carries(entries[i].1, depth + 1);
                }
            },
            _ => {},
        }
    }
}

/// Converting plain values carries over all that they hold, each item and each entry in
/// its place, down to the hundred and twenty-eighth level.
pub proof fn conversion_carries_everything(tree: &Tree, depth: usize, value: Value)
    requires
        call_ensures(convert, (tree, depth), value),
        depth <= 128,
    ensures
        carries(value@, tree@, (128 - depth) as nat),
{
    conversion_carries(tree@, depth as nat);
}

/// The view of plain values lists what they hold, items and entries in their order.
pub proof fn tree_views(
    items: Vec<Tree>,
    entries: Vec<(String, Tree)>,
    text: String,
    data: Vec<u8>,
    uid: u64,
    b: bool,
)
    ensures
        Tree::Bool(b)@ == TreeModel::Bool(b),
        Tree::String(text)@ == TreeModel::String(text@),
        Tree::Data(data)@ == TreeModel::Data(data@),
        Tree::Date(text)@ == TreeModel::Date(text@),
        Tree::Uid(uid)@ == TreeModel::Uid(uid),
        Tree::Other(text)@ == TreeModel::Other(text@),
        Tree::Array(items)@ matches TreeModel::Array(found) && found.len() == items@.len()
            && forall|i: int| 0 <= i < found.len() ==> #[trigger] found[i] == items@[i]@,
        Tree::Dict(entries)@ matches TreeModel::Dict(found) && found.len() == entries@.len()
            && forall|i: int|
            0 <= i < found.len() ==> #[trigger] found[i] == (entries@[i].0@, entries@[i].1@),
{
}

} // verus!
