//! Dates of XML property lists that lie too far ahead.
//!
//! The `plist` crate moves each date of an XML document to UTC, and panics where
//! that leaves the year 9999. A date can only do so on the last day of that year,
//! written with an offset that puts it behind UTC, so that is what is looked for
//! before a document is handed over.
//!
//! A document is gone through tag by tag. Comments, CDATA sections, instructions and
//! document types are passed over, and within a date its text is put together across
//! them, with references resolved. What is found is where such a date stands in the
//! markup; whether a reader gets that far is not told here.

use vstd::prelude::*;
use crate::bytes;
use crate::bytes::{starts_at, utf8_text};
use crate::text::chars_of;

verus! {

// ---------------------------------------------------------------------------
// Markup
// ---------------------------------------------------------------------------

/// How much stands before the first place where the bytes that `mark` spells do: all
/// of it, where they stand nowhere.
pub open spec fn until(content: Seq<u8>, mark: Seq<char>) -> int
    decreases content.len(),
{
    if content.len() == 0 || bytes::start_with(content, mark) {
        0
    } else {
        1 + until(content.drop_first(), mark)
    }
}

/// The quote that is open behind a byte: 0 where there is none.
pub open spec fn quote_after(quote: u8, byte: u8) -> u8 {
    if quote == 0 {
        if byte == 0x22 || byte == 0x27 {
            byte
        } else {
            0
        }
    } else if byte == quote {
        0
    } else {
        quote
    }
}

/// How much of a tag stands before the first `>` outside quotes.
pub open spec fn tag_length(tag: Seq<u8>, quote: u8) -> int
    decreases tag.len(),
{
    if tag.len() == 0 || (quote == 0 && tag[0] == 0x3e) {
        0
    } else {
        1 + tag_length(tag.drop_first(), quote_after(quote, tag[0]))
    }
}

/// How much of a document type stands before the first `>` or `[` outside quotes.
pub open spec fn doctype_length(tag: Seq<u8>, quote: u8) -> int
    decreases tag.len(),
{
    if tag.len() == 0 || (quote == 0 && (tag[0] == 0x3e || tag[0] == 0x5b)) {
        0
    } else {
        1 + doctype_length(tag.drop_first(), quote_after(quote, tag[0]))
    }
}

/// Whether bytes start with `<!DOCTYPE`, in capitals or not.
pub open spec fn opens_doctype(rest: Seq<u8>) -> bool {
    &&& bytes::start_with(rest, "<!"@)
    &&& rest.len() >= 9
    &&& forall|i: int|
        0 <= i < 7 ==> {
            ||| rest[2 + i] as u32 == (#[trigger] "DOCTYPE"@[i]) as u32
            ||| rest[2 + i] as u32 == "doctype"@[i] as u32
        }
}

/// What a piece of markup comes to.
pub enum Markup {
    /// It is malformed or has no end, and a reader goes no further.
    Broken,
    /// It is so many bytes long.
    Ends(int),
}

/// Markup that starts with `head` bytes and runs up to a mark and over it.
pub open spec fn closed(rest: Seq<u8>, head: int, mark: Seq<char>) -> Markup {
    let length = until(rest.skip(head), mark);
    if length < rest.len() - head {
        Markup::Ends(head + length + mark.len())
    } else {
        Markup::Broken
    }
}

/// Whether bytes start with a declaration that can hold quoted text.
pub open spec fn opens_quoted(inner: Seq<u8>) -> bool {
    ||| bytes::start_with(inner, "<!ENTITY"@)
    ||| bytes::start_with(inner, "<!ATTLIST"@)
    ||| bytes::start_with(inner, "<!NOTATION"@)
}

/// What stands at the start of the declarations of a document type: one of them, or a
/// byte between them.
pub open spec fn declaration(inner: Seq<u8>) -> Markup {
    if inner[0] != 0x3c {
        Markup::Ends(1)
    } else if bytes::start_with(inner, "<!--"@) {
        closed(inner, 4, "-->"@)
    } else if bytes::start_with(inner, "<?"@) {
        closed(inner, 2, "?>"@)
    } else if opens_quoted(inner) {
        tag(inner)
    } else {
        closed(inner, 1, ">"@)
    }
}

/// Where the `]` stands that ends the declarations of a document type, nothing where
/// none does.
pub open spec fn subset_length(inner: Seq<u8>) -> Option<int>
    decreases inner.len(),
{
    if inner.len() == 0 {
        None
    } else if inner[0] == 0x5d {
        Some(0)
    } else {
        match declaration(inner) {
            Markup::Ends(length) => if 0 < length <= inner.len() {
                match subset_length(inner.skip(length)) {
                    Some(more) => Some(length + more),
                    None => None,
                }
            } else {
                None
            },
            Markup::Broken => None,
        }
    }
}

/// The tag that `rest` starts with, from its `<` to the first `>` outside quotes.
pub open spec fn tag(rest: Seq<u8>) -> Markup {
    let length = tag_length(rest.skip(1), 0);
    if length < rest.len() - 1 {
        Markup::Ends(length + 2)
    } else {
        Markup::Broken
    }
}

/// The document type that `rest` starts with, with the declarations that it can have
/// in brackets.
pub open spec fn doctype(rest: Seq<u8>) -> Markup {
    let length = doctype_length(rest.skip(2), 0);
    if length >= rest.len() - 2 {
        Markup::Broken
    } else if rest[2 + length] == 0x5b {
        match subset_length(rest.skip(3 + length)) {
            Some(inner) => closed(rest, 4 + length + inner, ">"@),
            None => Markup::Broken,
        }
    } else {
        Markup::Ends(length + 3)
    }
}

/// Whether a document type, so many bytes long, has a name.
pub open spec fn named(rest: Seq<u8>, length: int) -> bool {
    exists|i: int| 9 <= i < length - 1 && !ends_name(#[trigger] rest[i])
}

/// The markup that starts with the `<` at the start of `rest`.
#[verifier::opaque]
pub open spec fn markup(rest: Seq<u8>) -> Markup {
    if bytes::start_with(rest, "<!--"@) {
        closed(rest, 4, "-->"@)
    } else if bytes::start_with(rest, "<![CDATA["@) {
        closed(rest, 9, "]]>"@)
    } else if bytes::start_with(rest, "<?"@) {
        if bytes::start_with(rest, "<?>"@) {
            Markup::Broken
        } else {
            closed(rest, 2, "?>"@)
        }
    } else if opens_doctype(rest) {
        match doctype(rest) {
            Markup::Ends(length) => if named(rest, length) {
                Markup::Ends(length)
            } else {
                Markup::Broken
            },
            Markup::Broken => Markup::Broken,
        }
    } else if bytes::start_with(rest, "<!"@) {
        Markup::Broken
    } else {
        tag(rest)
    }
}

/// Whether a byte ends the name of a tag.
pub open spec fn ends_name(byte: u8) -> bool {
    byte == 0x20 || byte == 0x09 || byte == 0x0a || byte == 0x0d
}

/// How long the name is that a tag starts with.
pub open spec fn name_length(tag: Seq<u8>) -> int
    decreases tag.len(),
{
    if tag.len() == 0 || ends_name(tag[0]) {
        0
    } else {
        1 + name_length(tag.drop_first())
    }
}

/// Whether a name is that of a date, with or without a namespace before it.
pub open spec fn is_date_name(name: Seq<u8>) -> bool {
    let prefix = until(name, ":"@);
    if prefix < name.len() {
        name.skip(prefix + 1) == seq![0x64u8, 0x61u8, 0x74u8, 0x65u8]
    } else {
        name == seq![0x64u8, 0x61u8, 0x74u8, 0x65u8]
    }
}

/// The name that a tag starts with.
pub open spec fn name_of(tag: Seq<u8>) -> Seq<u8> {
    tag.take(name_length(tag))
}

/// How much of a text is left without the spaces that it ends with.
pub open spec fn trimmed_length(text: Seq<u8>) -> int
    decreases text.len(),
{
    if text.len() > 0 && ends_name(text.last()) {
        trimmed_length(text.drop_last())
    } else {
        text.len() as int
    }
}

/// Whether what stands between `</` and `>` closes the element of a name.
pub open spec fn closes(tag: Seq<u8>, name: Seq<u8>) -> bool {
    tag.take(trimmed_length(tag)) == name
}

/// Whether what stands between `<` and `>` opens a date that has content.
pub open spec fn opens_date(tag: Seq<u8>) -> bool {
    &&& tag.len() > 0
    &&& tag[0] != 0x21 && tag[0] != 0x2f && tag[0] != 0x3f
    &&& tag.last() != 0x2f
    &&& is_date_name(name_of(tag))
}

// ---------------------------------------------------------------------------
// References
// ---------------------------------------------------------------------------

/// The value of a digit; 16 for what is none.
pub open spec fn digit_value(byte: u8) -> int {
    if 0x30 <= byte <= 0x39 {
        byte - 0x30
    } else if 0x61 <= byte <= 0x66 {
        byte - 0x61 + 10
    } else if 0x41 <= byte <= 0x46 {
        byte - 0x41 + 10
    } else {
        16
    }
}

/// The number that digits make, behind those that made `start`; nothing where one is
/// no digit. No date holds a character past U+007F, so 128 stands for all of them.
pub open spec fn code_of(digits: Seq<u8>, radix: int, start: int) -> Option<int>
    decreases digits.len(),
{
    if digits.len() == 0 {
        Some(start)
    } else if digit_value(digits[0]) >= radix {
        None
    } else {
        let next = start * radix + digit_value(digits[0]);
        code_of(digits.drop_first(), radix, if next < 128 { next } else { 128 })
    }
}

/// What stands for a character by its number; nothing where it cannot be part of a
/// date.
pub open spec fn numbered(digits: Seq<u8>, radix: int) -> Option<Seq<u8>> {
    match code_of(digits, radix, 0) {
        Some(code) => if digits.len() > 0 && 0 < code < 128 {
            Some(seq![code as u8])
        } else {
            None
        },
        None => None,
    }
}

/// What a reference stands for, by what is between `&` and `;`: nothing where it
/// cannot be part of a date, and no bytes where the name is unknown.
pub open spec fn resolved(name: Seq<u8>) -> Option<Seq<u8>> {
    if bytes::start_with(name, "#x"@) {
        numbered(name.skip(2), 16)
    } else if bytes::start_with(name, "#"@) {
        numbered(name.skip(1), 10)
    } else if bytes::start_with(name, "lt"@) && name.len() == 2 {
        Some(seq![0x3cu8])
    } else if bytes::start_with(name, "gt"@) && name.len() == 2 {
        Some(seq![0x3eu8])
    } else if bytes::start_with(name, "amp"@) && name.len() == 3 {
        Some(seq![0x26u8])
    } else if bytes::start_with(name, "apos"@) && name.len() == 4 {
        Some(seq![0x27u8])
    } else if bytes::start_with(name, "quot"@) && name.len() == 4 {
        Some(seq![0x22u8])
    } else {
        Some(seq![])
    }
}

/// How much stands before what ends a reference, well or badly.
pub open spec fn reference_length(content: Seq<u8>) -> int
    decreases content.len(),
{
    if content.len() == 0 || content[0] == 0x3b || content[0] == 0x26 || content[0] == 0x3c {
        0
    } else {
        1 + reference_length(content.drop_first())
    }
}

// ---------------------------------------------------------------------------
// Dates
// ---------------------------------------------------------------------------

/// Whether a byte is a decimal digit.
pub open spec fn is_digit(byte: u8) -> bool {
    0x30 <= byte <= 0x39
}

/// Whether two digits stand at `at`.
pub open spec fn has_pair(text: Seq<u8>, at: int) -> bool {
    is_digit(text[at]) && is_digit(text[at + 1])
}

/// The number that two digits make.
pub open spec fn pair(text: Seq<u8>, at: int) -> int {
    10 * (text[at] - 48) + (text[at + 1] - 48)
}

/// Whether the text of a date, up to the offset that takes its last six bytes, is a
/// time of the last day of the year 9999.
pub open spec fn on_last_day(date: Seq<u8>) -> bool {
    let end = date.len() as int;
    &&& end >= 25
    &&& bytes::start_with(date, "9999-12-31"@)
    &&& has_pair(date, 11) && pair(date, 11) <= 23
    &&& date[13] == 0x3a
    &&& has_pair(date, 14) && pair(date, 14) <= 59
    &&& date[16] == 0x3a
    &&& has_pair(date, 17) && pair(date, 17) <= 59
    &&& end == 25 || (end > 26 && date[19] == 0x2e && forall|i: int|
        20 <= i < end - 6 ==> is_digit(#[trigger] date[i]))
}

/// Whether a date leaves the year 9999 in UTC: it is a date of RFC 3339, lies on the
/// last day of that year, behind UTC, and the offset takes it past midnight.
pub open spec fn far(date: Seq<u8>) -> bool {
    let end = date.len() as int;
    &&& on_last_day(date)
    &&& date[end - 6] == 0x2d
    &&& has_pair(date, end - 5) && pair(date, end - 5) <= 23
    &&& date[end - 3] == 0x3a
    &&& has_pair(date, end - 2) && pair(date, end - 2) <= 59
    &&& 60 * (pair(date, 11) + pair(date, end - 5)) + pair(date, 14) + pair(date, end - 2) >= 24
        * 60
}

/// How long the content of an element is with its closing tag, where the text of the
/// element, `date` and what `content` adds to it, is a date that leaves the year 9999;
/// nothing where it is not.
pub open spec fn far_content(content: Seq<u8>, date: Seq<u8>, name: Seq<u8>) -> Option<int>
    decreases content.len(),
{
    if content.len() == 0 {
        None
    } else if bytes::start_with(content, "</"@) {
        match markup(content) {
            Markup::Ends(length) => if closes(content.subrange(2, length - 1), name) && far(date) {
                Some(length)
            } else {
                None
            },
            Markup::Broken => None,
        }
    } else if bytes::start_with(content, "<!"@) || bytes::start_with(content, "<?"@) {
        match markup(content) {
            Markup::Ends(length) => if 0 < length <= content.len() {
                further(far_content(content.skip(length), date, name), length)
            } else {
                None
            },
            Markup::Broken => None,
        }
    } else if content[0] == 0x3c {
        None
    } else if content[0] == 0x26 {
        let length = reference_length(content.skip(1));
        if 0 <= length < content.len() - 1 && content[1 + length] == 0x3b {
            match resolved(content.subrange(1, 1 + length)) {
                Some(found) => further(
                    far_content(content.skip(length + 2), date + found, name),
                    length + 2,
                ),
                None => None,
            }
        } else {
            None
        }
    } else {
        further(far_content(content.skip(1), date.push(content[0]), name), 1)
    }
}

/// A length, if there is one, with so much more before it.
pub open spec fn further(length: Option<int>, more: int) -> Option<int> {
    match length {
        Some(found) => Some(more + found),
        None => None,
    }
}

/// Whether the markup at the start of `rest` opens a date that leaves the year 9999,
/// in an element that is closed and is UTF-8.
pub open spec fn far_date(rest: Seq<u8>) -> bool {
    match markup(rest) {
        Markup::Ends(length) => {
            let tag = rest.subrange(1, length - 1);
            opens_date(tag) && match far_content(rest.skip(length), seq![], name_of(tag)) {
                Some(more) => vstd::utf8::valid_utf8(rest.take(length + more)),
                None => false,
            }
        },
        Markup::Broken => false,
    }
}

/// Where in a document, from `at` on, the first date stands that leaves the year 9999.
pub open spec fn first_far(document: Seq<u8>, at: int) -> Option<int>
    decreases document.len() - at,
{
    if 0 <= at < document.len() {
        if document[at] != 0x3c {
            first_far(document, at + 1)
        } else {
            match markup(document.skip(at)) {
                Markup::Broken => None,
                Markup::Ends(length) => if far_date(document.skip(at)) {
                    Some(at)
                } else if 0 < length <= document.len() - at {
                    first_far(document, at + length)
                } else {
                    None
                },
            }
        }
    } else {
        None
    }
}

// ---------------------------------------------------------------------------
// Looking for them
// ---------------------------------------------------------------------------

/// A mark is found within what is searched, with room for it.
proof fn until_bounds(content: Seq<u8>, mark: Seq<char>)
    ensures
        0 <= until(content, mark) <= content.len(),
        until(content, mark) < content.len() ==> until(content, mark) + mark.len()
            <= content.len(),
    decreases content.len(),
{
    if content.len() > 0 && !bytes::start_with(content, mark) {
        until_bounds(content.drop_first(), mark);
    }
}

/// Where the first place from `from` on is where the bytes that `mark` spells stand.
fn find_mark(document: &[u8], from: usize, mark: &str) -> (end: usize)
    requires
        from <= document@.len(),
    ensures
        from <= end <= document@.len(),
        end - from == until(document@.skip(from as int), mark@),
        end < document@.len() ==> end + mark@.len() <= document@.len(),
{
    let mut end: usize = from;
    while end < document.len() && !starts_at(document, end, mark)
        invariant
            from <= end <= document@.len(),
            until(document@.skip(from as int), mark@) == end - from + until(
                document@.skip(end as int),
                mark@,
            ),
        decreases document@.len() - end,
    {
        assert(document@.skip(end as int).drop_first() =~= document@.skip(end + 1));
        end += 1;
    }
    proof {
        until_bounds(document@.skip(from as int), mark@);
    }
    end
}

/// Where the tag that starts at `from` ends.
fn end_of_tag(document: &[u8], from: usize) -> (end: usize)
    requires
        from <= document@.len(),
    ensures
        from <= end <= document@.len(),
        end - from == tag_length(document@.skip(from as int), 0),
{
    let mut end: usize = from;
    let mut quote: u8 = 0;
    while end < document.len() && !(quote == 0 && document[end] == 0x3e)
        invariant
            from <= end <= document@.len(),
            tag_length(document@.skip(from as int), 0) == end - from + tag_length(
                document@.skip(end as int),
                quote,
            ),
        decreases document@.len() - end,
    {
        assert(document@.skip(end as int)[0] == document@[end as int]);
        assert(document@.skip(end as int).drop_first() =~= document@.skip(end + 1));
        quote = next_quote(quote, document[end]);
        end += 1;
    }
    if end < document.len() {
        assert(document@.skip(end as int)[0] == document@[end as int]);
    }
    end
}

/// The quote that is open behind a byte: 0 where there is none.
fn next_quote(quote: u8, byte: u8) -> (next: u8)
    ensures
        next == quote_after(quote, byte),
{
    if quote == 0 {
        if byte == 0x22 || byte == 0x27 {
            byte
        } else {
            0
        }
    } else if byte == quote {
        0
    } else {
        quote
    }
}

/// Where the document type that starts at `from` ends, or its brackets start.
fn end_of_doctype(document: &[u8], from: usize) -> (end: usize)
    requires
        from <= document@.len(),
    ensures
        from <= end <= document@.len(),
        end - from == doctype_length(document@.skip(from as int), 0),
{
    let mut end: usize = from;
    let mut quote: u8 = 0;
    while end < document.len() && !(quote == 0 && (document[end] == 0x3e || document[end] == 0x5b))
        invariant
            from <= end <= document@.len(),
            doctype_length(document@.skip(from as int), 0) == end - from + doctype_length(
                document@.skip(end as int),
                quote,
            ),
        decreases document@.len() - end,
    {
        assert(document@.skip(end as int)[0] == document@[end as int]);
        assert(document@.skip(end as int).drop_first() =~= document@.skip(end + 1));
        quote = next_quote(quote, document[end]);
        end += 1;
    }
    if end < document.len() {
        assert(document@.skip(end as int)[0] == document@[end as int]);
    }
    end
}

/// Whether a document type starts at `at`.
fn is_doctype(document: &[u8], at: usize) -> (yes: bool)
    requires
        at <= document@.len(),
    ensures
        yes == opens_doctype(document@.skip(at as int)),
{
    let ghost rest = document@.skip(at as int);
    let length: usize = document.len();
    proof {
        reveal_strlit("DOCTYPE");
        reveal_strlit("doctype");
    }
    if length - at < 9 || !starts_at(document, at, "<!") {
        return false;
    }
    let upper = chars_of("DOCTYPE");
    let lower = chars_of("doctype");
    let mut i: usize = 0;
    while i < 7
        invariant
            i <= 7,
            length == document@.len(),
            at + 9 <= length,
            rest == document@.skip(at as int),
            upper@ == "DOCTYPE"@,
            lower@ == "doctype"@,
            upper@.len() == 7,
            lower@.len() == 7,
            forall|k: int|
                0 <= k < i ==> {
                    ||| rest[2 + k] as u32 == (#[trigger] "DOCTYPE"@[k]) as u32
                    ||| rest[2 + k] as u32 == "doctype"@[k] as u32
                },
        decreases 7 - i,
    {
        let byte: u32 = document[at + 2 + i] as u32;
        assert(rest[2 + i] == document@[at + 2 + i]);
        if byte != upper[i] as u32 && byte != lower[i] as u32 {
            assert(rest[2 + i] as u32 != "DOCTYPE"@[i as int] as u32);
            return false;
        }
        i += 1;
    }
    true
}

/// What a piece of markup comes to, if it is so many bytes long.
spec fn found_as(found: Option<usize>, expected: Markup) -> bool {
    match (found, expected) {
        (None, Markup::Broken) => true,
        (Some(a), Markup::Ends(b)) => a == b,
        _ => false,
    }
}

/// How long the markup is that starts at `at` with `head` bytes and runs up to a mark
/// and over it; nothing where the mark is missing.
fn closed_at(document: &[u8], at: usize, head: usize, mark: &str, size: usize) -> (found: Option<
    usize,
>)
    requires
        at + head <= document@.len(),
        size == mark@.len(),
    ensures
        found_as(found, closed(document@.skip(at as int), head as int, mark@)),
        found matches Some(length) ==> head + size <= length && at + length <= document@.len(),
{
    let length: usize = document.len();
    let end = find_mark(document, at + head, mark);
    assert(document@.skip(at as int).skip(head as int) =~= document@.skip(at + head));
    if end < length {
        Some(end - at + size)
    } else {
        None
    }
}

/// How long the tag is that starts with the `<` at `at`; nothing where it has no end.
fn tag_at(document: &[u8], at: usize) -> (found: Option<usize>)
    requires
        at < document@.len(),
    ensures
        found_as(found, tag(document@.skip(at as int))),
        found matches Some(length) ==> 1 < length && at + length <= document@.len(),
{
    let length: usize = document.len();
    let end = end_of_tag(document, at + 1);
    assert(document@.skip(at as int).skip(1) =~= document@.skip(at + 1));
    if end < length {
        Some(end - at + 1)
    } else {
        None
    }
}

/// How long the declaration is that stands at `at` in a document type, or the byte
/// between two; nothing where it has no end.
fn declaration_at(document: &[u8], at: usize) -> (found: Option<usize>)
    requires
        at < document@.len(),
    ensures
        found_as(found, declaration(document@.skip(at as int))),
        found matches Some(length) ==> 0 < length && at + length <= document@.len(),
{
    assert(document@.skip(at as int)[0] == document@[at as int]);
    proof {
        reveal_strlit("<!--");
        reveal_strlit("-->");
        reveal_strlit("<?");
        reveal_strlit("?>");
        reveal_strlit(">");
    }
    if document[at] != 0x3c {
        Some(1)
    } else if starts_at(document, at, "<!--") {
        closed_at(document, at, 4, "-->", 3)
    } else if starts_at(document, at, "<?") {
        closed_at(document, at, 2, "?>", 2)
    } else if starts_at(document, at, "<!ENTITY") || starts_at(document, at, "<!ATTLIST")
        || starts_at(document, at, "<!NOTATION") {
        tag_at(document, at)
    } else {
        closed_at(document, at, 1, ">", 1)
    }
}

/// Where the `]` stands that ends the declarations from `from` on; nothing where none
/// does.
fn end_of_subset(document: &[u8], from: usize) -> (found: Option<usize>)
    requires
        from <= document@.len(),
    ensures
        match found {
            Some(end) => from <= end < document@.len() && subset_length(
                document@.skip(from as int),
            ) == Some(end - from),
            None => subset_length(document@.skip(from as int)) is None,
        },
{
    let length: usize = document.len();
    let mut at: usize = from;
    while at < length
        invariant
            length == document@.len(),
            from <= at <= length,
            subset_length(document@.skip(from as int)) == further(
                subset_length(document@.skip(at as int)),
                at - from,
            ),
        decreases length - at,
    {
        let ghost here = document@.skip(at as int);
        assert(here[0] == document@[at as int]);
        if document[at] == 0x5d {
            return Some(at);
        }
        match declaration_at(document, at) {
            Some(size) => {
                assert(here.skip(size as int) =~= document@.skip(at + size));
                at += size;
            },
            None => {
                return None;
            },
        }
    }
    assert(document@.skip(at as int).len() == 0);
    None
}

/// How long the document type is that starts at `at`; nothing where it has no end.
fn doctype_at(document: &[u8], at: usize) -> (found: Option<usize>)
    requires
        at + 9 <= document@.len(),
    ensures
        found_as(found, doctype(document@.skip(at as int))),
        found matches Some(length) ==> 2 < length && at + length <= document@.len(),
{
    let ghost rest = document@.skip(at as int);
    let length: usize = document.len();
    let end = end_of_doctype(document, at + 2);
    assert(rest.skip(2) =~= document@.skip(at + 2));
    if end >= length {
        return None;
    }
    assert(rest[end - at] == document@[end as int]);
    if document[end] != 0x5b {
        return Some(end - at + 1);
    }
    proof {
        reveal_strlit(">");
    }
    assert(rest.skip(end - at + 1) =~= document@.skip(end + 1));
    match end_of_subset(document, end + 1) {
        Some(inner) => closed_at(document, at, inner - at + 1, ">", 1),
        None => None,
    }
}

/// Whether the document type at `at`, so many bytes long, has a name.
fn is_named(document: &[u8], at: usize, size: usize) -> (yes: bool)
    requires
        at + size <= document@.len(),
    ensures
        yes == named(document@.skip(at as int), size as int),
{
    let ghost rest = document@.skip(at as int);
    let length: usize = document.len();
    assert(at + size <= length);
    let last: usize = if size > 0 {
        size - 1
    } else {
        0
    };
    let mut i: usize = 9;
    while i < last
        invariant
            9 <= i,
            length == document@.len(),
            last <= size,
            at + size <= length,
            rest == document@.skip(at as int),
            i < last ==> last == size - 1,
            forall|k: int| 9 <= k < i ==> ends_name(#[trigger] rest[k]),
        decreases last - i,
    {
        assert(rest[i as int] == document@[at + i]);
        if !is_space(document[at + i]) {
            return true;
        }
        i += 1;
    }
    false
}

/// How long the markup is that starts with the `<` at `at`; nothing where it is
/// malformed or has no end.
fn markup_at(document: &[u8], at: usize) -> (found: Option<usize>)
    requires
        at < document@.len(),
    ensures
        found_as(found, markup(document@.skip(at as int))),
        found matches Some(length) ==> 1 < length && at + length <= document@.len(),
{
    proof {
        reveal(markup);
        reveal_strlit("<!--");
        reveal_strlit("-->");
        reveal_strlit("<![CDATA[");
        reveal_strlit("]]>");
        reveal_strlit("<?");
        reveal_strlit("?>");
    }
    if starts_at(document, at, "<!--") {
        closed_at(document, at, 4, "-->", 3)
    } else if starts_at(document, at, "<![CDATA[") {
        closed_at(document, at, 9, "]]>", 3)
    } else if starts_at(document, at, "<?") {
        if starts_at(document, at, "<?>") {
            None
        } else {
            closed_at(document, at, 2, "?>", 2)
        }
    } else if is_doctype(document, at) {
        match doctype_at(document, at) {
            Some(size) => if is_named(document, at, size) {
                Some(size)
            } else {
                None
            },
            None => None,
        }
    } else if starts_at(document, at, "<!") {
        None
    } else {
        tag_at(document, at)
    }
}

/// Whether a byte ends the name of a tag.
fn is_space(byte: u8) -> (yes: bool)
    ensures
        yes == ends_name(byte),
{
    byte == 0x20 || byte == 0x09 || byte == 0x0a || byte == 0x0d
}

/// Where the name that starts at `from` ends, at `to` at the latest.
fn end_of_name(document: &[u8], from: usize, to: usize) -> (end: usize)
    requires
        from <= to <= document@.len(),
    ensures
        from <= end <= to,
        end - from == name_length(document@.subrange(from as int, to as int)),
{
    let mut end: usize = from;
    while end < to && !is_space(document[end])
        invariant
            from <= end <= to <= document@.len(),
            name_length(document@.subrange(from as int, to as int)) == end - from + name_length(
                document@.subrange(end as int, to as int),
            ),
        decreases to - end,
    {
        assert(document@.subrange(end as int, to as int)[0] == document@[end as int]);
        assert(document@.subrange(end as int, to as int).drop_first() =~= document@.subrange(
            end + 1,
            to as int,
        ));
        end += 1;
    }
    if end < to {
        assert(document@.subrange(end as int, to as int)[0] == document@[end as int]);
    }
    end
}

/// Where the first colon between `from` and `to` is.
fn end_of_prefix(document: &[u8], from: usize, to: usize) -> (end: usize)
    requires
        from <= to <= document@.len(),
    ensures
        from <= end <= to,
        end - from == until(document@.subrange(from as int, to as int), ":"@),
{
    proof {
        reveal_strlit(":");
    }
    let mut end: usize = from;
    while end < to && document[end] != 0x3a
        invariant
            from <= end <= to <= document@.len(),
            ":"@.len() == 1,
            ":"@[0] == ':',
            until(document@.subrange(from as int, to as int), ":"@) == end - from + until(
                document@.subrange(end as int, to as int),
                ":"@,
            ),
        decreases to - end,
    {
        let ghost here = document@.subrange(end as int, to as int);
        assert(here[0] == document@[end as int]);
        assert(!bytes::start_with(here, ":"@)) by {
            if bytes::start_with(here, ":"@) {
                assert(here[0] as u32 == ":"@[0] as u32);
            }
        }
        assert(here.drop_first() =~= document@.subrange(end + 1, to as int));
        end += 1;
    }
    let ghost here = document@.subrange(end as int, to as int);
    if end < to {
        assert(here[0] == document@[end as int]);
        assert(bytes::start_with(here, ":"@));
    }
    end
}

/// Whether what stands between `from` and `to` spells `date`.
fn spells_date(document: &[u8], from: usize, to: usize) -> (yes: bool)
    requires
        from <= to <= document@.len(),
    ensures
        yes == (document@.subrange(from as int, to as int) == seq![
            0x64u8,
            0x61u8,
            0x74u8,
            0x65u8,
        ]),
{
    let ghost name = document@.subrange(from as int, to as int);
    assert(seq![0x64u8, 0x61u8, 0x74u8, 0x65u8].len() == 4);
    if to - from != 4 {
        return false;
    }
    assert(name[0] == document@[from as int] && name[1] == document@[from + 1] && name[2]
        == document@[from + 2] && name[3] == document@[from + 3]);
    if document[from] == 0x64 && document[from + 1] == 0x61 && document[from + 2] == 0x74
        && document[from + 3] == 0x65 {
        assert(name =~= seq![0x64u8, 0x61u8, 0x74u8, 0x65u8]);
        true
    } else {
        false
    }
}

/// Whether what stands between `from` and `to` opens a date that has content.
fn is_date(document: &[u8], from: usize, to: usize) -> (yes: bool)
    requires
        from <= to <= document@.len(),
    ensures
        yes == opens_date(document@.subrange(from as int, to as int)),
{
    let ghost tag = document@.subrange(from as int, to as int);
    if from == to {
        return false;
    }
    assert(tag[0] == document@[from as int]);
    assert(tag.last() == document@[to - 1]);
    if document[from] == 0x21 || document[from] == 0x2f || document[from] == 0x3f || document[to
        - 1] == 0x2f {
        return false;
    }
    let end = end_of_name(document, from, to);
    let ghost name = tag.take(end - from);
    assert(name =~= document@.subrange(from as int, end as int));
    let colon = end_of_prefix(document, from, end);
    if colon < end {
        assert(name.skip(colon - from + 1) =~= document@.subrange(colon + 1, end as int));
        spells_date(document, colon + 1, end)
    } else {
        spells_date(document, from, end)
    }
}

/// The value of a digit; 16 for what is none.
fn digit_of(byte: u8) -> (value: u32)
    ensures
        value == digit_value(byte),
        value <= 16,
{
    if 0x30 <= byte && byte <= 0x39 {
        (byte - 0x30) as u32
    } else if 0x61 <= byte && byte <= 0x66 {
        (byte - 0x61 + 10) as u32
    } else if 0x41 <= byte && byte <= 0x46 {
        (byte - 0x41 + 10) as u32
    } else {
        16
    }
}

/// What stands for a character by its number, whose digits stand between `from` and
/// `to`.
fn numbered_at(document: &[u8], from: usize, to: usize, radix: u32) -> (byte: Option<u8>)
    requires
        from <= to <= document@.len(),
        radix == 10 || radix == 16,
    ensures
        match byte {
            Some(found) => Some(seq![found]),
            None => None,
        } == numbered(document@.subrange(from as int, to as int), radix as int),
{
    let ghost digits = document@.subrange(from as int, to as int);
    let mut code: u32 = 0;
    let mut at: usize = from;
    while at < to
        invariant
            from <= at <= to <= document@.len(),
            radix == 10 || radix == 16,
            code <= 128,
            digits == document@.subrange(from as int, to as int),
            code_of(digits, radix as int, 0) == code_of(
                document@.subrange(at as int, to as int),
                radix as int,
                code as int,
            ),
        decreases to - at,
    {
        let ghost here = document@.subrange(at as int, to as int);
        assert(here[0] == document@[at as int]);
        assert(here.drop_first() =~= document@.subrange(at + 1, to as int));
        let digit = digit_of(document[at]);
        if digit >= radix {
            return None;
        }
        let next: u32 = if radix == 10 {
            code * 10 + digit
        } else {
            code * 16 + digit
        };
        assert(next == code as int * radix as int + digit_value(here[0])) by {
            assert(radix == 10 ==> code as int * radix as int == code * 10);
            assert(radix == 16 ==> code as int * radix as int == code * 16);
        }
        code = if next < 128 {
            next
        } else {
            128
        };
        at += 1;
    }
    assert(document@.subrange(at as int, to as int) =~= seq![]);
    if from < to && 0 < code && code < 128 {
        Some(code as u8)
    } else {
        None
    }
}

/// What a reference stands for, whose name stands between `from` and `to`: nothing
/// where it cannot be part of a date, and no byte where the name is unknown.
fn resolve_at(document: &[u8], from: usize, to: usize) -> (found: Option<Option<u8>>)
    requires
        from <= to <= document@.len(),
    ensures
        match found {
            Some(Some(byte)) => Some(seq![byte]),
            Some(None) => Some(seq![]),
            None => None,
        } == resolved(document@.subrange(from as int, to as int)),
{
    let ghost name = document@.subrange(from as int, to as int);
    proof {
        reveal_strlit("#x");
        reveal_strlit("#");
    }
    if is_start(document, from, to, "#x") {
        assert(name.skip(2) =~= document@.subrange(from + 2, to as int));
        match numbered_at(document, from + 2, to, 16) {
            Some(byte) => Some(Some(byte)),
            None => None,
        }
    } else if is_start(document, from, to, "#") {
        assert(name.skip(1) =~= document@.subrange(from + 1, to as int));
        match numbered_at(document, from + 1, to, 10) {
            Some(byte) => Some(Some(byte)),
            None => None,
        }
    } else if is_start(document, from, to, "lt") && to - from == 2 {
        Some(Some(0x3c))
    } else if is_start(document, from, to, "gt") && to - from == 2 {
        Some(Some(0x3e))
    } else if is_start(document, from, to, "amp") && to - from == 3 {
        Some(Some(0x26))
    } else if is_start(document, from, to, "apos") && to - from == 4 {
        Some(Some(0x27))
    } else if is_start(document, from, to, "quot") && to - from == 4 {
        Some(Some(0x22))
    } else {
        Some(None)
    }
}

/// Whether what stands between `from` and `to` starts with the bytes that `mark`
/// spells.
fn is_start(document: &[u8], from: usize, to: usize, mark: &str) -> (yes: bool)
    requires
        from <= to <= document@.len(),
    ensures
        yes == bytes::start_with(document@.subrange(from as int, to as int), mark@),
{
    let ghost part = document@.subrange(from as int, to as int);
    let ghost rest = document@.skip(from as int);
    let size: usize = chars_of(mark).len();
    let yes = size <= to - from && starts_at(document, from, mark);
    assert(yes == bytes::start_with(part, mark@)) by {
        if size <= to - from {
            assert forall|i: int| 0 <= i < mark@.len() implies part[i] == rest[i] by {}
        }
    }
    yes
}

/// Where what ends a reference stands, whose name starts at `from`.
fn end_of_reference(document: &[u8], from: usize) -> (end: usize)
    requires
        from <= document@.len(),
    ensures
        from <= end <= document@.len(),
        end - from == reference_length(document@.skip(from as int)),
{
    let mut end: usize = from;
    while end < document.len() && document[end] != 0x3b && document[end] != 0x26 && document[end]
        != 0x3c
        invariant
            from <= end <= document@.len(),
            reference_length(document@.skip(from as int)) == end - from + reference_length(
                document@.skip(end as int),
            ),
        decreases document@.len() - end,
    {
        assert(document@.skip(end as int)[0] == document@[end as int]);
        assert(document@.skip(end as int).drop_first() =~= document@.skip(end + 1));
        end += 1;
    }
    if end < document.len() {
        assert(document@.skip(end as int)[0] == document@[end as int]);
    }
    end
}

/// Whether two digits stand at `at`, and make a number up to `most`.
fn pair_at(text: &Vec<u8>, at: usize, most: u32) -> (number: Option<u32>)
    requires
        at + 2 <= text@.len(),
    ensures
        match number {
            Some(found) => has_pair(text@, at as int) && found == pair(text@, at as int) && found
                <= most && found <= 99,
            None => !has_pair(text@, at as int) || pair(text@, at as int) > most,
        },
{
    let length: usize = text.len();
    assert(at + 2 <= length);
    let first: u8 = text[at];
    let second: u8 = text[at + 1];
    if first < 0x30 || first > 0x39 || second < 0x30 || second > 0x39 {
        return None;
    }
    let number: u32 = 10 * (first as u32 - 48) + (second as u32 - 48);
    if number <= most {
        Some(number)
    } else {
        None
    }
}

/// Whether only digits stand between `from` and `to`.
fn all_digits(text: &Vec<u8>, from: usize, to: usize) -> (yes: bool)
    requires
        to <= text@.len(),
    ensures
        yes == forall|i: int| from <= i < to ==> is_digit(#[trigger] text@[i]),
{
    let mut i: usize = from;
    while i < to
        invariant
            from <= i,
            to <= text@.len(),
            forall|k: int| from <= k < i ==> is_digit(#[trigger] text@[k]),
        decreases to - i,
    {
        if text[i] < 0x30 || text[i] > 0x39 {
            assert(!is_digit(text@[i as int]));
            return false;
        }
        i += 1;
    }
    true
}

/// Whether a date leaves the year 9999 in UTC.
fn is_far(date: &Vec<u8>) -> (yes: bool)
    ensures
        yes == far(date@),
{
    let end: usize = date.len();
    if end < 25 {
        return false;
    }
    assert(date@.skip(0) =~= date@);
    if !starts_at(date.as_slice(), 0, "9999-12-31") {
        return false;
    }
    if date[13] != 0x3a || date[16] != 0x3a || date[end - 6] != 0x2d || date[end - 3] != 0x3a {
        return false;
    }
    if end != 25 && (end == 26 || date[19] != 0x2e || !all_digits(date, 20, end - 6)) {
        return false;
    }
    match (
        pair_at(date, 11, 23),
        pair_at(date, 14, 59),
        pair_at(date, 17, 59),
        pair_at(date, end - 5, 23),
        pair_at(date, end - 2, 59),
    ) {
        (Some(hour), Some(minute), Some(_), Some(hours), Some(minutes)) => 60 * (hour + hours)
            + minute + minutes >= 24 * 60,
        _ => false,
    }
}

/// Markup starts with `<`.
proof fn open_with_bracket(content: Seq<u8>)
    ensures
        content.len() > 0 && content[0] != 0x3c ==> {
            &&& !bytes::start_with(content, "</"@)
            &&& !bytes::start_with(content, "<!"@)
            &&& !bytes::start_with(content, "<?"@)
        },
{
    reveal_strlit("</");
    reveal_strlit("<!");
    reveal_strlit("<?");
    assert("</"@[0] == '<' && "<!"@[0] == '<' && "<?"@[0] == '<');
}

/// Whether what stands between `from` and `to` closes the element whose name stands
/// between `start` and `end`.
fn is_close(document: &[u8], from: usize, to: usize, start: usize, end: usize) -> (yes: bool)
    requires
        from <= to <= document@.len(),
        start <= end <= document@.len(),
    ensures
        yes == closes(
            document@.subrange(from as int, to as int),
            document@.subrange(start as int, end as int),
        ),
{
    let ghost tag = document@.subrange(from as int, to as int);
    let ghost name = document@.subrange(start as int, end as int);
    let mut last: usize = to;
    assert(tag =~= document@.subrange(from as int, last as int));
    while last > from && is_space(document[last - 1])
        invariant
            from <= last <= to <= document@.len(),
            trimmed_length(tag) == trimmed_length(document@.subrange(from as int, last as int)),
        decreases last - from,
    {
        let ghost here = document@.subrange(from as int, last as int);
        assert(here.last() == document@[last - 1]);
        assert(here.drop_last() =~= document@.subrange(from as int, last - 1));
        last -= 1;
    }
    let ghost left = document@.subrange(from as int, last as int);
    if last > from {
        assert(left.last() == document@[last - 1]);
    }
    assert(trimmed_length(tag) == last - from);
    assert(tag.take(last - from) =~= left);
    if last - from != end - start {
        assert(left.len() != name.len());
        return false;
    }
    let mut i: usize = 0;
    let size: usize = last - from;
    let ghost expected = closes(tag, name);
    assert(expected == (left == name));
    while i < size
        invariant
            expected == closes(tag, name),
            expected == (left == name),
            tag == document@.subrange(from as int, to as int),
            name == document@.subrange(start as int, end as int),
            from + size <= document@.len(),
            start + size <= document@.len(),
            i <= size,
            left == document@.subrange(from as int, from + size),
            name == document@.subrange(start as int, start + size),
            forall|k: int| 0 <= k < i ==> left[k] == name[k],
        decreases size - i,
    {
        let length: usize = document.len();
        assert(from + size <= length && start + size <= length);
        assert(left[i as int] == document@[from + i] && name[i as int] == document@[start + i]);
        if document[from + i] != document[start + i] {
            return false;
        }
        i += 1;
    }
    assert(left =~= name);
    true
}

/// Where the closing tag ends of the element whose content starts at `from` and whose
/// name stands between `start` and `end`, where the text of the element is a date that
/// leaves the year 9999.
fn end_of_far_content(document: &[u8], from: usize, start: usize, end: usize) -> (found: Option<
    usize,
>)
    requires
        from <= document@.len(),
        start <= end <= document@.len(),
    ensures
        match found {
            Some(last) => from <= last <= document@.len() && far_content(
                document@.skip(from as int),
                seq![],
                document@.subrange(start as int, end as int),
            ) == Some(last - from),
            None => far_content(
                document@.skip(from as int),
                seq![],
                document@.subrange(start as int, end as int),
            ) is None,
        },
{
    let length: usize = document.len();
    let ghost name = document@.subrange(start as int, end as int);
    let ghost whole = far_content(document@.skip(from as int), seq![], name);
    let mut date: Vec<u8> = Vec::new();
    let mut at: usize = from;
    assert(date@ =~= seq![]);
    while at < length
        invariant
            length == document@.len(),
            start <= end <= length,
            from <= at <= length,
            name == document@.subrange(start as int, end as int),
            whole == far_content(document@.skip(from as int), seq![], name),
            whole == further(far_content(document@.skip(at as int), date@, name), at - from),
        decreases length - at,
    {
        let ghost content = document@.skip(at as int);
        let ghost before = date@;
        assert(content[0] == document@[at as int]);
        proof {
            open_with_bracket(content);
        }
        if document[at] == 0x3c {
            let size = match markup_at(document, at) {
                Some(size) => size,
                None => {
                    return None;
                },
            };
            if starts_at(document, at, "</") {
                proof {
                    reveal_strlit("</");
                    tag_of_three(content);
                }
                assert(content.subrange(2, size - 1) =~= document@.subrange(
                    at + 2,
                    at + size - 1,
                ));
                if is_close(document, at + 2, at + size - 1, start, end) && is_far(&date) {
                    return Some(at + size);
                }
                return None;
            }
            if !starts_at(document, at, "<!") && !starts_at(document, at, "<?") {
                return None;
            }
            assert(content.skip(size as int) =~= document@.skip(at + size));
            at += size;
        } else if document[at] == 0x26 {
            let stop = end_of_reference(document, at + 1);
            assert(content.skip(1) =~= document@.skip(at + 1));
            if stop >= length {
                return None;
            }
            assert(content[stop - at] == document@[stop as int]);
            if document[stop] != 0x3b {
                return None;
            }
            assert(content.subrange(1, stop - at) =~= document@.subrange(at + 1, stop as int));
            assert(content.skip(stop - at + 1) =~= document@.skip(stop + 1));
            match resolve_at(document, at + 1, stop) {
                Some(Some(byte)) => {
                    date.push(byte);
                    assert(date@ =~= before + seq![byte]);
                },
                Some(None) => {
                    assert(date@ =~= before + seq![]);
                },
                None => {
                    return None;
                },
            }
            at = stop + 1;
        } else {
            assert(content.skip(1) =~= document@.skip(at + 1));
            date.push(document[at]);
            at += 1;
        }
    }
    None
}

/// A closing tag has room for `</` and `>`.
proof fn tag_of_three(content: Seq<u8>)
    requires
        bytes::start_with(content, "</"@),
    ensures
        markup(content) == tag(content),
        markup(content) matches Markup::Ends(length) ==> length >= 3,
{
    reveal(markup);
    reveal_strlit("</");
    reveal_strlit("<!--");
    reveal_strlit("<![CDATA[");
    reveal_strlit("<?");
    reveal_strlit("<!");
    assert("</"@[1] == '/');
    assert(content[1] == 0x2f);
    assert("<!--"@[1] == '!' && "<![CDATA["@[1] == '!' && "<!"@[1] == '!' && "<?"@[1] == '?');
    assert(content.skip(1)[0] == content[1]);
    tag_bounds(content.skip(1).drop_first(), 0);
}

/// A tag ends within what is searched.
proof fn tag_bounds(rest: Seq<u8>, quote: u8)
    ensures
        0 <= tag_length(rest, quote) <= rest.len(),
    decreases rest.len(),
{
    if rest.len() > 0 && !(quote == 0 && rest[0] == 0x3e) {
        tag_bounds(rest.drop_first(), quote_after(quote, rest[0]));
    }
}

/// Whether the `<` at `at` opens a date that leaves the year 9999, given how long its
/// markup is.
fn is_far_date(document: &[u8], at: usize, size: usize) -> (yes: bool)
    requires
        1 < size,
        at + size <= document@.len(),
        markup(document@.skip(at as int)) == Markup::Ends(size as int),
    ensures
        yes == far_date(document@.skip(at as int)),
{
    let ghost rest = document@.skip(at as int);
    let length: usize = document.len();
    assert(at + size <= length);
    let ghost tag = rest.subrange(1, size - 1);
    assert(tag =~= document@.subrange(at + 1, at + size - 1));
    assert(rest.skip(size as int) =~= document@.skip(at + size));
    if !is_date(document, at + 1, at + size - 1) {
        return false;
    }
    let end = end_of_name(document, at + 1, at + size - 1);
    assert(name_of(tag) =~= document@.subrange(at + 1, end as int));
    match end_of_far_content(document, at + size, at + 1, end) {
        Some(last) => {
            assert(rest.take(last - at) =~= document@.subrange(at as int, last as int));
            utf8_text(vstd::slice::slice_subrange(document, at, last)).is_some()
        },
        None => false,
    }
}

/// Where the first date of a document stands that leaves the year 9999.
pub fn find_far_date(document: &[u8]) -> (found: Option<usize>)
    ensures
        match found {
            Some(at) => at < document@.len() && first_far(document@, 0) == Some(at as int),
            None => first_far(document@, 0) is None,
        },
{
    let mut at: usize = 0;
    while at < document.len()
        invariant
            at <= document@.len(),
            first_far(document@, 0) == first_far(document@, at as int),
        decreases document@.len() - at,
    {
        if document[at] != 0x3c {
            at += 1;
        } else {
            match markup_at(document, at) {
                None => {
                    return None;
                },
                Some(size) => {
                    if is_far_date(document, at, size) {
                        return Some(at);
                    }
                    at += size;
                },
            }
        }
    }
    None
}

// ---------------------------------------------------------------------------
// Documents that are cut off
// ---------------------------------------------------------------------------

/// Whether a document starts with the mark that says it is UTF-8.
pub open spec fn has_mark(document: Seq<u8>) -> bool {
    document.len() >= 3 && document[0] == 0xef && document[1] == 0xbb && document[2] == 0xbf
}

/// A document without the mark that says it is UTF-8.
pub open spec fn body_of(document: Seq<u8>) -> Seq<u8> {
    document.skip(
        if has_mark(document) {
            3
        } else {
            0
        },
    )
}

/// Where a document starts, behind the mark that says it is UTF-8.
pub fn start_of_body(document: &[u8]) -> (from: usize)
    ensures
        from <= document@.len(),
        document@.skip(from as int) == body_of(document@),
{
    if document.len() >= 3 && document[0] == 0xef && document[1] == 0xbb && document[2] == 0xbf {
        3
    } else {
        0
    }
}

/// The bytes of `<?xml?>`.
pub open spec fn opening() -> Seq<u8> {
    seq![0x3cu8, 0x3fu8, 0x78u8, 0x6du8, 0x6cu8, 0x3fu8, 0x3eu8]
}

/// The bytes of `<true/>`, which property lists know, or of `<none/>`, which they do
/// not.
pub open spec fn ending(known: bool) -> Seq<u8> {
    if known {
        seq![0x3cu8, 0x74u8, 0x72u8, 0x75u8, 0x65u8, 0x2fu8, 0x3eu8]
    } else {
        seq![0x3cu8, 0x6eu8, 0x6fu8, 0x6eu8, 0x65u8, 0x2fu8, 0x3eu8]
    }
}

/// A document up to `at`, as XML and with one tag more.
pub open spec fn cut_off(document: Seq<u8>, at: int, known: bool) -> Seq<u8> {
    opening() + document.take(at) + ending(known)
}

/// A document up to `at`, as XML and with one tag more.
pub fn cut_short(document: &[u8], at: usize, known: bool) -> (made: Vec<u8>)
    requires
        at <= document@.len(),
    ensures
        made@ == cut_off(document@, at as int, known),
{
    let mut made: Vec<u8> = vec![0x3c, 0x3f, 0x78, 0x6d, 0x6c, 0x3f, 0x3e];
    assert(made@ =~= opening() + document@.take(0));
    let mut i: usize = 0;
    while i < at
        invariant
            i <= at <= document@.len(),
            made@ == opening() + document@.take(i as int),
        decreases at - i,
    {
        made.push(document[i]);
        assert(made@ =~= opening() + document@.take(i + 1));
        i += 1;
    }
    let tag: Vec<u8> = if known {
        vec![0x3c, 0x74, 0x72, 0x75, 0x65, 0x2f, 0x3e]
    } else {
        vec![0x3c, 0x6e, 0x6f, 0x6e, 0x65, 0x2f, 0x3e]
    };
    assert(tag@ =~= ending(known));
    let mut k: usize = 0;
    assert(made@ =~= opening() + document@.take(at as int) + ending(known).take(0));
    while k < 7
        invariant
            k <= 7,
            tag@ == ending(known),
            ending(known).len() == 7,
            at <= document@.len(),
            made@ == opening() + document@.take(at as int) + ending(known).take(k as int),
        decreases 7 - k,
    {
        made.push(tag[k]);
        assert(made@ =~= opening() + document@.take(at as int) + ending(known).take(k + 1));
        k += 1;
    }
    assert(ending(known).take(7) =~= ending(known));
    made
}

/// Whether two texts start with the same `count` bytes.
spec fn agree(a: Seq<u8>, b: Seq<u8>, count: int) -> bool {
    &&& 0 <= count <= a.len()
    &&& count <= b.len()
    &&& forall|i: int| 0 <= i < count ==> #[trigger] a[i] == b[i]
}

/// What agrees keeps agreeing further on.
proof fn agree_behind(a: Seq<u8>, b: Seq<u8>, count: int, from: int)
    requires
        agree(a, b, count),
        0 <= from <= count,
    ensures
        agree(a.skip(from), b.skip(from), count - from),
{
    assert forall|i: int| 0 <= i < count - from implies #[trigger] a.skip(from)[i] == b.skip(
        from,
    )[i] by {
        assert(a[from + i] == b[from + i]);
    }
}

/// A start lies in what agrees.
proof fn start_agrees(a: Seq<u8>, b: Seq<u8>, count: int, mark: Seq<char>)
    requires
        agree(a, b, count),
        mark.len() <= count,
    ensures
        bytes::start_with(a, mark) == bytes::start_with(b, mark),
{
    if bytes::start_with(a, mark) {
        assert forall|i: int| 0 <= i < mark.len() implies b[i] as u32 == (
        #[trigger] mark[i]) as u32 by {
            assert(a[i] == b[i]);
        }
    }
    if bytes::start_with(b, mark) {
        assert forall|i: int| 0 <= i < mark.len() implies a[i] as u32 == (
        #[trigger] mark[i]) as u32 by {
            assert(a[i] == b[i]);
        }
    }
}

/// A byte that is not that of a mark rules the mark out.
proof fn start_differs(a: Seq<u8>, mark: Seq<char>, at: int)
    requires
        0 <= at < mark.len(),
        at < a.len(),
        a[at] as u32 != mark[at] as u32,
    ensures
        !bytes::start_with(a, mark),
{
}

/// A mark is found in the same place where everything up to its end agrees.
proof fn until_agrees(a: Seq<u8>, b: Seq<u8>, count: int, mark: Seq<char>)
    requires
        agree(a, b, count),
        mark.len() > 0,
        until(a, mark) < a.len(),
        until(a, mark) + mark.len() <= count,
    ensures
        until(b, mark) == until(a, mark),
    decreases a.len(),
{
    until_bounds(a, mark);
    start_agrees(a, b, count, mark);
    if !bytes::start_with(a, mark) {
        agree_behind(a, b, count, 1);
        assert(a.drop_first() =~= a.skip(1));
        assert(b.drop_first() =~= b.skip(1));
        until_agrees(a.drop_first(), b.drop_first(), count - 1, mark);
    }
}

/// Markup that runs up to a mark is the same where all of it agrees.
proof fn closed_agrees(a: Seq<u8>, b: Seq<u8>, count: int, head: int, mark: Seq<char>)
    requires
        agree(a, b, count),
        mark.len() > 0,
        0 <= head <= a.len(),
        closed(a, head, mark) matches Markup::Ends(length) && length <= count,
    ensures
        closed(b, head, mark) == closed(a, head, mark),
        closed(a, head, mark)->Ends_0 >= head + mark.len(),
{
    until_bounds(a.skip(head), mark);
    agree_behind(a, b, count, head);
    until_agrees(a.skip(head), b.skip(head), count - head, mark);
}

/// A tag ends in the same place where everything up to its end agrees.
proof fn tag_length_agrees(a: Seq<u8>, b: Seq<u8>, count: int, quote: u8)
    requires
        agree(a, b, count),
        tag_length(a, quote) < count,
    ensures
        tag_length(b, quote) == tag_length(a, quote),
    decreases a.len(),
{
    tag_bounds(a, quote);
    assert(a[0] == b[0]);
    if !(quote == 0 && a[0] == 0x3e) {
        agree_behind(a, b, count, 1);
        assert(a.drop_first() =~= a.skip(1));
        assert(b.drop_first() =~= b.skip(1));
        tag_length_agrees(a.drop_first(), b.drop_first(), count - 1, quote_after(quote, a[0]));
    }
}

/// A tag is the same where all of it agrees.
proof fn tag_agrees(a: Seq<u8>, b: Seq<u8>, count: int)
    requires
        agree(a, b, count),
        a.len() > 0,
        tag(a) matches Markup::Ends(length) && length <= count,
    ensures
        tag(b) == tag(a),
        tag(a)->Ends_0 >= 2,
{
    tag_bounds(a.skip(1), 0);
    agree_behind(a, b, count, 1);
    tag_length_agrees(a.skip(1), b.skip(1), count - 1, 0);
}

/// A document type ends within what is searched.
proof fn doctype_bounds(rest: Seq<u8>, quote: u8)
    ensures
        0 <= doctype_length(rest, quote) <= rest.len(),
    decreases rest.len(),
{
    if rest.len() > 0 && !(quote == 0 && (rest[0] == 0x3e || rest[0] == 0x5b)) {
        doctype_bounds(rest.drop_first(), quote_after(quote, rest[0]));
    }
}

/// A document type ends in the same place where everything up to its end agrees.
proof fn doctype_length_agrees(a: Seq<u8>, b: Seq<u8>, count: int, quote: u8)
    requires
        agree(a, b, count),
        doctype_length(a, quote) < count,
    ensures
        doctype_length(b, quote) == doctype_length(a, quote),
    decreases a.len(),
{
    doctype_bounds(a, quote);
    assert(a[0] == b[0]);
    if !(quote == 0 && (a[0] == 0x3e || a[0] == 0x5b)) {
        agree_behind(a, b, count, 1);
        assert(a.drop_first() =~= a.skip(1));
        assert(b.drop_first() =~= b.skip(1));
        doctype_length_agrees(a.drop_first(), b.drop_first(), count - 1, quote_after(quote, a[0]));
    }
}

/// A declaration that starts with a word is either no longer than the word, or the
/// word is in what agrees.
proof fn word_agrees(a: Seq<u8>, b: Seq<u8>, count: int, word: Seq<char>)
    requires
        agree(a, b, count),
        count > 0,
        a[count - 1] == 0x3e,
        forall|i: int| 0 <= i < word.len() ==> (#[trigger] word[i]) as u32 != 0x3e,
    ensures
        bytes::start_with(a, word) == bytes::start_with(b, word),
{
    if word.len() <= count {
        start_agrees(a, b, count, word);
    } else {
        assert(word[count - 1] as u32 != 0x3e);
        assert(b[count - 1] == a[count - 1]);
        start_differs(a, word, count - 1);
        start_differs(b, word, count - 1);
    }
}

/// What ends with the mark `>` has it for its last byte.
proof fn closed_by_bracket(rest: Seq<u8>, head: int)
    requires
        0 <= head <= rest.len(),
    ensures
        closed(rest, head, ">"@) matches Markup::Ends(length) ==> head < length <= rest.len()
            && rest[length - 1] == 0x3e,
{
    reveal_strlit(">");
    assert(">"@[0] == '>');
    until_bounds(rest.skip(head), ">"@);
    found_by_until(rest.skip(head), ">"@);
    let length = until(rest.skip(head), ">"@);
    if length < rest.len() - head {
        assert(rest.skip(head).skip(length)[0] == rest[head + length]);
    }
}

/// Where a mark is found, it stands.
proof fn found_by_until(content: Seq<u8>, mark: Seq<char>)
    ensures
        until(content, mark) < content.len() ==> bytes::start_with(
            content.skip(until(content, mark)),
            mark,
        ),
    decreases content.len(),
{
    until_bounds(content, mark);
    if content.len() > 0 && !bytes::start_with(content, mark) {
        let behind = content.drop_first();
        found_by_until(behind, mark);
        until_bounds(behind, mark);
        assert(behind.skip(until(behind, mark)) =~= content.skip(until(content, mark)));
    } else {
        assert(content.skip(0) =~= content);
    }
}

/// A tag ends with `>`.
proof fn tag_by_bracket(rest: Seq<u8>, quote: u8)
    ensures
        tag_length(rest, quote) < rest.len() ==> rest[tag_length(rest, quote)] == 0x3e,
    decreases rest.len(),
{
    tag_bounds(rest, quote);
    if rest.len() > 0 && !(quote == 0 && rest[0] == 0x3e) {
        let behind = rest.drop_first();
        let next = quote_after(quote, rest[0]);
        tag_bounds(behind, next);
        tag_by_bracket(behind, next);
    }
}

/// A declaration is the same where all of it agrees.
proof fn declaration_agrees(a: Seq<u8>, b: Seq<u8>, count: int)
    requires
        a.len() > 0,
        agree(a, b, count),
        declaration(a) matches Markup::Ends(length) && length <= count,
    ensures
        declaration(b) == declaration(a),
        declaration(a)->Ends_0 > 0,
{
    let length = declaration(a)->Ends_0;
    reveal_strlit("<!--");
    reveal_strlit("-->");
    reveal_strlit("<?");
    reveal_strlit("?>");
    reveal_strlit(">");
    reveal_strlit("<!ENTITY");
    reveal_strlit("<!ATTLIST");
    reveal_strlit("<!NOTATION");
    if a[0] != 0x3c {
        assert(a[0] == b[0]);
    } else if bytes::start_with(a, "<!--"@) {
        closed_agrees(a, b, count, 4, "-->"@);
        start_agrees(a, b, count, "<!--"@);
        assert(a[0] == b[0]);
    } else if bytes::start_with(a, "<?"@) {
        closed_agrees(a, b, count, 2, "?>"@);
        start_agrees(a, b, count, "<?"@);
        start_agrees(a, b, count, "<!--"@);
        assert(a[0] == b[0]);
    } else {
        if opens_quoted(a) {
            tag_agrees(a, b, count);
            tag_by_bracket(a.skip(1), 0);
            tag_bounds(a.skip(1), 0);
            assert(a[length - 1] == a.skip(1)[length - 2]);
        } else {
            closed_by_bracket(a, 1);
            closed_agrees(a, b, count, 1, ">"@);
        }
        assert(a[length - 1] == 0x3e);
        assert(a[0] == b[0]);
        word_agrees(a, b, length, "<!--"@);
        word_agrees(a, b, length, "<?"@);
        word_agrees(a, b, length, "<!ENTITY"@);
        word_agrees(a, b, length, "<!ATTLIST"@);
        word_agrees(a, b, length, "<!NOTATION"@);
    }
}

/// Declarations end in the same place where everything up to their end agrees.
proof fn subset_agrees(a: Seq<u8>, b: Seq<u8>, count: int)
    requires
        agree(a, b, count),
        subset_length(a) matches Some(length) && length < count,
    ensures
        subset_length(b) == subset_length(a),
        subset_length(a)->Some_0 >= 0,
    decreases a.len(),
{
    subset_bounds(a);
    assert(a[0] == b[0]);
    if a[0] != 0x5d {
        let length = declaration(a)->Ends_0;
        subset_bounds(a.skip(length));
        declaration_agrees(a, b, count);
        agree_behind(a, b, count, length);
        subset_agrees(a.skip(length), b.skip(length), count - length);
    }
}

/// Declarations end within what is searched.
proof fn subset_bounds(inner: Seq<u8>)
    ensures
        subset_length(inner) matches Some(length) ==> 0 <= length < inner.len(),
    decreases inner.len(),
{
    if inner.len() > 0 && inner[0] != 0x5d {
        if let Markup::Ends(length) = declaration(inner) {
            if 0 < length <= inner.len() {
                subset_bounds(inner.skip(length));
            }
        }
    }
}

/// A document type is the same where all of it agrees.
proof fn doctype_agrees(a: Seq<u8>, b: Seq<u8>, count: int)
    requires
        agree(a, b, count),
        a.len() >= 9,
        doctype(a) matches Markup::Ends(length) && length <= count,
    ensures
        doctype(b) == doctype(a),
        2 < doctype(a)->Ends_0 <= a.len(),
{
    let length = doctype_length(a.skip(2), 0);
    doctype_bounds(a.skip(2), 0);
    if a[2 + length] == 0x5b {
        reveal_strlit(">");
        let inner = subset_length(a.skip(3 + length))->Some_0;
        subset_bounds(a.skip(3 + length));
        closed_by_bracket(a, 4 + length + inner);
        closed_agrees(a, b, count, 4 + length + inner, ">"@);
        agree_behind(a, b, count, 2);
        doctype_length_agrees(a.skip(2), b.skip(2), count - 2, 0);
        assert(a[2 + length] == b[2 + length]);
        agree_behind(a, b, count, 3 + length);
        subset_agrees(a.skip(3 + length), b.skip(3 + length), count - 3 - length);
    } else {
        agree_behind(a, b, count, 2);
        doctype_length_agrees(a.skip(2), b.skip(2), count - 2, 0);
        assert(a[2 + length] == b[2 + length]);
    }
}

/// Markup is the same where all of it agrees.
proof fn markup_agrees(a: Seq<u8>, b: Seq<u8>, count: int)
    requires
        agree(a, b, count),
        a.len() > 0,
        a[0] == 0x3c,
        markup(a) matches Markup::Ends(length) && length <= count,
    ensures
        markup(b) == markup(a),
        2 <= markup(a)->Ends_0 <= a.len(),
{
    reveal(markup);
    let length = markup(a)->Ends_0;
    reveal_strlit("<!--");
    reveal_strlit("-->");
    reveal_strlit("<![CDATA[");
    reveal_strlit("]]>");
    reveal_strlit("<?");
    reveal_strlit("?>");
    reveal_strlit("<?>");
    reveal_strlit("<!");
    if bytes::start_with(a, "<!--"@) {
        closed_agrees(a, b, count, 4, "-->"@);
        start_agrees(a, b, count, "<!--"@);
    } else if bytes::start_with(a, "<![CDATA["@) {
        closed_agrees(a, b, count, 9, "]]>"@);
        start_agrees(a, b, count, "<!--"@);
        start_agrees(a, b, count, "<![CDATA["@);
    } else if bytes::start_with(a, "<?"@) {
        closed_agrees(a, b, count, 2, "?>"@);
        start_agrees(a, b, count, "<!--"@);
        start_agrees(a, b, count, "<?"@);
        start_agrees(a, b, count, "<?>"@);
        assert("<?"@[1] == '?' && "<![CDATA["@[1] == '!');
        assert(a[1] == b[1]);
        start_differs(b, "<![CDATA["@, 1);
    } else if opens_doctype(a) {
        doctype_agrees(a, b, count);
        named_agrees(a, b, count, length);
        start_agrees(a, b, count, "<!--"@);
        start_agrees(a, b, count, "<![CDATA["@);
        start_agrees(a, b, count, "<?"@);
        start_agrees(a, b, count, "<!"@);
        reveal_strlit("DOCTYPE");
        reveal_strlit("doctype");
        assert forall|i: int| 0 <= i < 7 implies {
            ||| b[2 + i] as u32 == (#[trigger] "DOCTYPE"@[i]) as u32
            ||| b[2 + i] as u32 == "doctype"@[i] as u32
        } by {
            assert(a[2 + i] == b[2 + i]);
        }
    } else {
        tag_agrees(a, b, count);
        assert(a[0] == b[0] && a[1] == b[1]);
        assert("<!"@[0] == '<' && "<!"@[1] == '!' && "<?"@[0] == '<' && "<?"@[1] == '?');
        assert(a[1] != 0x21);
        assert(a[1] != 0x3f);
        assert("<!--"@[1] == '!' && "<![CDATA["@[1] == '!');
        start_differs(b, "<!--"@, 1);
        start_differs(b, "<![CDATA["@, 1);
        start_differs(b, "<?"@, 1);
        start_differs(b, "<!"@, 1);
    }
}

/// A document type has its name in what agrees.
proof fn named_agrees(a: Seq<u8>, b: Seq<u8>, count: int, length: int)
    requires
        agree(a, b, count),
        length <= count,
    ensures
        named(a, length) == named(b, length),
{
    if named(a, length) {
        let i = choose|i: int| 9 <= i < length - 1 && !ends_name(#[trigger] a[i]);
        assert(!ends_name(b[i]));
    }
    if named(b, length) {
        let i = choose|i: int| 9 <= i < length - 1 && !ends_name(#[trigger] b[i]);
        assert(a[i] == b[i]);
        assert(!ends_name(a[i]));
    }
}

/// A far date is found where it is looked for or behind.
proof fn first_far_is_ahead(document: Seq<u8>, at: int)
    ensures
        first_far(document, at) matches Some(found) ==> {
            &&& at <= found < document.len()
            &&& document[found] == 0x3c
            &&& far_date(document.skip(found))
        },
    decreases document.len() - at,
{
    if 0 <= at < document.len() {
        if document[at] != 0x3c {
            first_far_is_ahead(document, at + 1);
        } else if let Markup::Ends(length) = markup(document.skip(at)) {
            if !far_date(document.skip(at)) && 0 < length <= document.len() - at {
                first_far_is_ahead(document, at + length);
            }
        }
    }
}

/// What is no markup is passed over.
proof fn first_far_skips(document: Seq<u8>, at: int, to: int)
    requires
        0 <= at <= to <= document.len(),
        forall|i: int| at <= i < to ==> #[trigger] document[i] != 0x3c,
    ensures
        first_far(document, at) == first_far(document, to),
    decreases to - at,
{
    if at < to {
        first_far_skips(document, at + 1, to);
    }
}

/// The name of a reference ends within what is searched, and holds no markup.
proof fn reference_bounds(content: Seq<u8>)
    ensures
        0 <= reference_length(content) <= content.len(),
        forall|i: int| 0 <= i < reference_length(content) ==> #[trigger] content[i] != 0x3c,
    decreases content.len(),
{
    if content.len() > 0 && !(content[0] == 0x3b || content[0] == 0x26 || content[0] == 0x3c) {
        let behind = content.drop_first();
        reference_bounds(behind);
        assert forall|i: int| 0 <= i < reference_length(content) implies #[trigger] content[i]
            != 0x3c by {
            if i > 0 {
                assert(content[i] == behind[i - 1]);
            }
        }
    }
}

/// The name of a reference ends in the same place where everything up to its end
/// agrees.
proof fn reference_agrees(a: Seq<u8>, b: Seq<u8>, count: int)
    requires
        agree(a, b, count),
        reference_length(a) < count,
    ensures
        reference_length(b) == reference_length(a),
    decreases a.len(),
{
    reference_bounds(a);
    assert(a[0] == b[0]);
    if !(a[0] == 0x3b || a[0] == 0x26 || a[0] == 0x3c) {
        agree_behind(a, b, count, 1);
        assert(a.drop_first() =~= a.skip(1));
        assert(b.drop_first() =~= b.skip(1));
        reference_agrees(a.drop_first(), b.drop_first(), count - 1);
    }
}

/// The name of a reference ends before the next markup.
proof fn reference_stops(content: Seq<u8>, at: int)
    requires
        0 <= at < content.len(),
        content[at] == 0x3c,
    ensures
        reference_length(content) <= at,
    decreases at,
{
    reference_bounds(content);
    if reference_length(content) > at {
        assert(content[at] != 0x3c);
    }
}

/// Whether `other` holds, from `shift` on, what a document holds up to a tag at `to`,
/// and there a tag too.
spec fn follows(document: Seq<u8>, other: Seq<u8>, shift: int, to: int) -> bool {
    &&& 0 <= to < document.len() - 1
    &&& 0 <= shift
    &&& shift + to + 1 < other.len()
    &&& forall|i: int| 0 <= i <= to ==> #[trigger] document[i] == other[shift + i]
    &&& document[to] == 0x3c
    &&& document[to + 1] != 0x21 && document[to + 1] != 0x2f && document[to + 1] != 0x3f
    &&& other[shift + to + 1] != 0x21 && other[shift + to + 1] != 0x2f && other[shift + to + 1]
        != 0x3f
}

/// What follows a document agrees with it from any place on.
proof fn follows_agrees(document: Seq<u8>, other: Seq<u8>, shift: int, to: int, at: int)
    requires
        follows(document, other, shift, to),
        0 <= at <= to,
    ensures
        agree(document.skip(at), other.skip(shift + at), to + 1 - at),
{
    assert forall|i: int| 0 <= i < to + 1 - at implies #[trigger] document.skip(at)[i]
        == other.skip(shift + at)[i] by {
        assert(document[at + i] == other[shift + (at + i)]);
    }
}

/// A tag that is none of the three starts with none of them.
proof fn plain_tag(content: Seq<u8>)
    requires
        content.len() >= 2,
        content[1] != 0x21,
        content[1] != 0x2f,
        content[1] != 0x3f,
    ensures
        !bytes::start_with(content, "</"@),
        !bytes::start_with(content, "<!"@),
        !bytes::start_with(content, "<?"@),
{
    reveal_strlit("</");
    reveal_strlit("<!");
    reveal_strlit("<?");
    assert("</"@[1] == '/' && "<!"@[1] == '!' && "<?"@[1] == '?');
    start_differs(content, "</"@, 1);
    start_differs(content, "<!"@, 1);
    start_differs(content, "<?"@, 1);
}

/// Markup before the first far date is the same in what follows the document, and
/// ends before that date.
proof fn markup_follows(document: Seq<u8>, other: Seq<u8>, shift: int, to: int, at: int)
    requires
        follows(document, other, shift, to),
        0 <= at < to,
        document[at] == 0x3c,
        first_far(document, at) == Some(to),
    ensures
        !far_date(document.skip(at)),
        markup(document.skip(at)) is Ends,
        markup(other.skip(shift + at)) == markup(document.skip(at)),
        2 <= markup(document.skip(at))->Ends_0,
        at + markup(document.skip(at))->Ends_0 <= to,
        first_far(document, at + markup(document.skip(at))->Ends_0) == Some(to),
        bytes::start_with(document.skip(at), "</"@) == bytes::start_with(
            other.skip(shift + at),
            "</"@,
        ),
        bytes::start_with(document.skip(at), "<!"@) == bytes::start_with(
            other.skip(shift + at),
            "<!"@,
        ),
        bytes::start_with(document.skip(at), "<?"@) == bytes::start_with(
            other.skip(shift + at),
            "<?"@,
        ),
        bytes::start_with(document.skip(at), "</"@) ==> markup(document.skip(at))->Ends_0 >= 3,
{
    let rest = document.skip(at);
    let copy = other.skip(shift + at);
    follows_agrees(document, other, shift, to, at);
    assert(rest[0] == document[at]);
    let length = markup(rest)->Ends_0;
    first_far_is_ahead(document, at + length);
    markup_agrees(rest, copy, to + 1 - at);
    reveal_strlit("</");
    reveal_strlit("<!");
    reveal_strlit("<?");
    start_agrees(rest, copy, to + 1 - at, "</"@);
    start_agrees(rest, copy, to + 1 - at, "<!"@);
    start_agrees(rest, copy, to + 1 - at, "<?"@);
    if bytes::start_with(rest, "</"@) {
        tag_of_three(rest);
    }
}

/// A reference before the first far date is the same in what follows the document,
/// and ends before that date.
proof fn reference_follows(document: Seq<u8>, other: Seq<u8>, shift: int, to: int, at: int)
    requires
        follows(document, other, shift, to),
        0 <= at < to,
        document[at] == 0x26,
        first_far(document, at) == Some(to),
    ensures
        reference_length(other.skip(shift + at).skip(1)) == reference_length(
            document.skip(at).skip(1),
        ),
        0 <= reference_length(document.skip(at).skip(1)) < to - at,
        ({
            let length = reference_length(document.skip(at).skip(1));
            document[at + 1 + length] == 0x3b ==> at + length + 2 <= to && first_far(
                document,
                at + length + 2,
            ) == Some(to)
        }),
{
    let content = document.skip(at);
    let copy = other.skip(shift + at);
    follows_agrees(document, other, shift, to, at);
    let length = reference_length(content.skip(1));
    reference_bounds(content.skip(1));
    assert(content.skip(1)[to - at - 1] == document[to]);
    reference_stops(content.skip(1), to - at - 1);
    agree_behind(content, copy, to + 1 - at, 1);
    reference_agrees(content.skip(1), copy.skip(1), to - at);
    if document[at + 1 + length] == 0x3b {
        assert forall|i: int| at <= i < at + length + 2 implies #[trigger] document[i] != 0x3c by {
            if at < i < at + 1 + length {
                assert(content.skip(1)[i - at - 1] == document[i]);
            }
        }
        first_far_skips(document, at, at + length + 2);
        first_far_is_ahead(document, at + length + 2);
    }
}

/// Content that starts with the same markup and goes on alike is alike.
proof fn same_markup_step(a: Seq<u8>, b: Seq<u8>, length: int, date: Seq<u8>, name: Seq<u8>)
    requires
        agree(a, b, length),
        length >= 2,
        a[0] == 0x3c,
        markup(a) == Markup::Ends(length),
        markup(b) == Markup::Ends(length),
        bytes::start_with(a, "</"@) == bytes::start_with(b, "</"@),
        bytes::start_with(a, "<!"@) == bytes::start_with(b, "<!"@),
        bytes::start_with(a, "<?"@) == bytes::start_with(b, "<?"@),
        bytes::start_with(a, "</"@) ==> length >= 3,
        far_content(a.skip(length), date, name) == far_content(b.skip(length), date, name),
    ensures
        far_content(a, date, name) == far_content(b, date, name),
        far_content(a, date, name) matches Some(found) ==> found == length || (far_content(
            a.skip(length),
            date,
            name,
        ) matches Some(more) && found == length + more),
{
    if length >= 3 {
        assert(a.subrange(2, length - 1) =~= b.subrange(2, length - 1));
    }
    assert(a[0] == b[0]);
}

/// Content that starts with the same reference and goes on alike is alike.
proof fn same_reference_step(a: Seq<u8>, b: Seq<u8>, length: int, date: Seq<u8>, name: Seq<u8>)
    requires
        a.len() > 0,
        a[0] == 0x26,
        length >= 0,
        agree(a, b, length + 2),
        reference_length(a.skip(1)) == length,
        reference_length(b.skip(1)) == length,
        a[1 + length] == 0x3b ==> forall|found: Seq<u8>|
            far_content(a.skip(length + 2), date + found, name) == #[trigger] far_content(
                b.skip(length + 2),
                date + found,
                name,
            ),
    ensures
        far_content(a, date, name) == far_content(b, date, name),
        far_content(a, date, name) matches Some(found) ==> a[1 + length] == 0x3b && exists|
            part: Seq<u8>,
        |
            (#[trigger] far_content(a.skip(length + 2), date + part, name)) matches Some(more)
                && found == length + 2 + more,
{
    open_with_bracket(a);
    open_with_bracket(b);
    assert(a[0] == b[0]);
    assert(a[1 + length] == b[1 + length]);
    assert(a.subrange(1, 1 + length) =~= b.subrange(1, 1 + length));
    if a[1 + length] == 0x3b {
        if let Some(part) = resolved(a.subrange(1, 1 + length)) {
            assert(far_content(a.skip(length + 2), date + part, name) == far_content(
                b.skip(length + 2),
                date + part,
                name,
            ));
        }
    }
}

/// The content of an element before the first far date is the same in what follows
/// the document, and ends before that date.
proof fn content_follows(
    document: Seq<u8>,
    other: Seq<u8>,
    shift: int,
    to: int,
    at: int,
    date: Seq<u8>,
    name: Seq<u8>,
)
    requires
        follows(document, other, shift, to),
        0 <= at <= to,
        first_far(document, at) == Some(to),
    ensures
        far_content(other.skip(shift + at), date, name) == far_content(
            document.skip(at),
            date,
            name,
        ),
        far_content(document.skip(at), date, name) matches Some(length) ==> 0 <= length && at
            + length <= to,
    decreases to - at,
{
    let content = document.skip(at);
    let copy = other.skip(shift + at);
    assert(document[at] == other[shift + at]);
    assert(content[0] == document[at] && copy[0] == other[shift + at]);
    follows_agrees(document, other, shift, to, at);
    if at == to {
        assert(content[1] == document[to + 1]);
        assert(copy[1] == other[shift + to + 1]);
        plain_tag(content);
        plain_tag(copy);
    } else if content[0] == 0x3c {
        let length = markup(content)->Ends_0;
        markup_follows(document, other, shift, to, at);
        content_follows(document, other, shift, to, at + length, date, name);
        assert(content.skip(length) =~= document.skip(at + length));
        assert(copy.skip(length) =~= other.skip(shift + (at + length)));
        same_markup_step(content, copy, length, date, name);
    } else if content[0] == 0x26 {
        let length = reference_length(content.skip(1));
        reference_follows(document, other, shift, to, at);
        assert(content[1 + length] == document[at + 1 + length]);
        assert(content.skip(length + 2) =~= document.skip(at + length + 2));
        assert(copy.skip(length + 2) =~= other.skip(shift + (at + length + 2)));
        if content[1 + length] == 0x3b {
            assert forall|found: Seq<u8>|
                far_content(content.skip(length + 2), date + found, name)
                    == #[trigger] far_content(copy.skip(length + 2), date + found, name) && (
                far_content(content.skip(length + 2), date + found, name) matches Some(more) ==> 0
                    <= more && at + length + 2 + more <= to) by {
                content_follows(document, other, shift, to, at + length + 2, date + found, name);
            }
        }
        same_reference_step(content, copy, length, date, name);
        if let Some(found) = far_content(content, date, name) {
            let part = choose|part: Seq<u8>|
                (#[trigger] far_content(content.skip(length + 2), date + part, name)) matches Some(
                    more,
                ) && found == length + 2 + more;
            assert(far_content(content.skip(length + 2), date + part, name) == far_content(
                copy.skip(length + 2),
                date + part,
                name,
            ));
        }
    } else {
        open_with_bracket(content);
        open_with_bracket(copy);
        content_follows(document, other, shift, to, at + 1, date.push(content[0]), name);
        assert(content.skip(1) =~= document.skip(at + 1));
        assert(copy.skip(1) =~= other.skip(shift + (at + 1)));
    }
}

/// No tag before the first far date opens a far date in what follows the document.
proof fn tags_follow(document: Seq<u8>, other: Seq<u8>, shift: int, to: int, at: int)
    requires
        follows(document, other, shift, to),
        0 <= at <= to,
        first_far(document, at) == Some(to),
    ensures
        first_far(other, shift + at) == first_far(other, shift + to),
    decreases to - at,
{
    if at < to {
        let rest = document.skip(at);
        let copy = other.skip(shift + at);
        assert(document[at] == other[shift + at]);
        if document[at] != 0x3c {
            tags_follow(document, other, shift, to, at + 1);
        } else {
            let length = markup(rest)->Ends_0;
            markup_follows(document, other, shift, to, at);
            follows_agrees(document, other, shift, to, at);
            tags_follow(document, other, shift, to, at + length);
            let tag = rest.subrange(1, length - 1);
            assert(tag =~= copy.subrange(1, length - 1));
            content_follows(document, other, shift, to, at + length, seq![], name_of(tag));
            assert(rest.skip(length) =~= document.skip(at + length));
            assert(copy.skip(length) =~= other.skip(shift + (at + length)));
            if let Some(more) = far_content(rest.skip(length), seq![], name_of(tag)) {
                assert(rest.take(length + more) =~= copy.take(length + more));
            }
            assert(!far_date(copy));
        }
    }
}

/// A document that is cut off before its first far date holds none.
pub proof fn cut_off_holds_none(document: Seq<u8>, at: int, known: bool)
    requires
        first_far(document, 0) == Some(at),
    ensures
        first_far(cut_off(document, at, known), 0) is None,
        body_of(cut_off(document, at, known)) == cut_off(document, at, known),
{
    let made = cut_off(document, at, known);
    first_far_is_ahead(document, 0);
    assert(made.skip(0) =~= made);
    let rest = document.skip(at);
    first_tag(rest);
    assert(rest[0] == document[at] && rest[1] == document[at + 1]);
    assert(made[7 + at] == ending(known)[0] && made[7 + at + 1] == ending(known)[1]);
    assert forall|i: int| 0 <= i <= at implies #[trigger] document[i] == made[7 + i] by {}
    assert(follows(document, made, 7, at));
    tags_follow(document, made, 7, at, 0);
    assert(made.skip(7 + at) =~= ending(known));
    last_tag(made, 7 + at, known);
    assert(made.take(7) =~= opening());
    opening_is_passed(made);
}

/// A tag that opens a far date is none of the others.
proof fn first_tag(rest: Seq<u8>)
    requires
        rest.len() > 0,
        rest[0] == 0x3c,
        far_date(rest),
    ensures
        rest.len() >= 2,
        rest[1] != 0x21,
        rest[1] != 0x2f,
        rest[1] != 0x3f,
{
    let length = markup(rest)->Ends_0;
    markup_bounds(rest);
    let tag = rest.subrange(1, length - 1);
    assert(tag[0] == rest[1]);
}

/// Markup lies within what is searched.
proof fn markup_bounds(rest: Seq<u8>)
    requires
        rest.len() > 0,
    ensures
        markup(rest) matches Markup::Ends(length) ==> 2 <= length <= rest.len(),
{
    reveal(markup);
    reveal_strlit("<!--");
    reveal_strlit("<![CDATA[");
    reveal_strlit("<?");
    until_bounds(rest.skip(4), "-->"@);
    until_bounds(rest.skip(9), "]]>"@);
    until_bounds(rest.skip(2), "?>"@);
    tag_bounds(rest.skip(1), 0);
    let length = doctype_length(rest.skip(2), 0);
    if rest.len() >= 9 {
        doctype_bounds(rest.skip(2), 0);
        if length < rest.len() - 2 {
            subset_bounds(rest.skip(3 + length));
            if let Some(inner) = subset_length(rest.skip(3 + length)) {
                closed_by_bracket(rest, 4 + length + inner);
            }
        }
    }
}

/// The tag that a document was cut off with opens no date, and nothing is behind it.
proof fn last_tag(made: Seq<u8>, at: int, known: bool)
    requires
        0 <= at,
        made.len() == at + 7,
        made.skip(at) == ending(known),
    ensures
        first_far(made, at) is None,
{
    let rest = made.skip(at);
    assert(rest[0] == made[at]);
    assert(rest[1] == ending(known)[1] && rest[5] == 0x2f);
    not_special(rest);
    assert forall|i: int| 0 <= i < 5 implies {
        let byte = #[trigger] rest.skip(1)[i];
        byte != 0x3e && byte != 0x22 && byte != 0x27
    } by {
        assert(rest.skip(1)[i] == ending(known)[i + 1]);
    }
    assert(rest.skip(1)[5] == ending(known)[6]);
    plain_tag_length(rest.skip(1), 5);
    assert(markup(rest) == Markup::Ends(7));
    assert(rest.subrange(1, 6).last() == rest[5]);
    assert(!far_date(rest));
    assert(first_far(made, at + 7) is None);
}

/// A `<` with a letter behind it starts an ordinary tag.
proof fn not_special(rest: Seq<u8>)
    requires
        rest.len() >= 2,
        rest[1] != 0x21,
        rest[1] != 0x3f,
    ensures
        markup(rest) == tag(rest),
{
    reveal(markup);
    reveal_strlit("<!--");
    reveal_strlit("<![CDATA[");
    reveal_strlit("<?");
    reveal_strlit("<!");
    assert("<!--"@[1] == '!' && "<![CDATA["@[1] == '!' && "<?"@[1] == '?' && "<!"@[1] == '!');
    start_differs(rest, "<!--"@, 1);
    start_differs(rest, "<![CDATA["@, 1);
    start_differs(rest, "<?"@, 1);
    start_differs(rest, "<!"@, 1);
}

/// A tag without quotes ends at its first `>`.
proof fn plain_tag_length(rest: Seq<u8>, length: int)
    requires
        0 <= length < rest.len(),
        rest[length] == 0x3e,
        forall|i: int|
            0 <= i < length ==> {
                let byte = #[trigger] rest[i];
                byte != 0x3e && byte != 0x22 && byte != 0x27
            },
    ensures
        tag_length(rest, 0) == length,
    decreases length,
{
    if length > 0 {
        let behind = rest.drop_first();
        assert(rest[0] != 0x3e);
        assert forall|i: int| 0 <= i < length - 1 implies {
            let byte = #[trigger] behind[i];
            byte != 0x3e && byte != 0x22 && byte != 0x27
        } by {
            assert(behind[i] == rest[i + 1]);
        }
        assert(behind[length - 1] == rest[length]);
        plain_tag_length(behind, length - 1);
    }
}

/// What a document was opened with opens no date.
proof fn opening_is_passed(made: Seq<u8>)
    requires
        made.len() >= 7,
        made.take(7) == opening(),
    ensures
        first_far(made, 0) == first_far(made, 7),
{
    reveal(markup);
    assert(made.skip(0) =~= made);
    assert forall|i: int| 0 <= i < 7 implies #[trigger] made[i] == opening()[i] by {
        assert(made.take(7)[i] == made[i]);
    }
    reveal_strlit("<!--");
    reveal_strlit("<![CDATA[");
    reveal_strlit("<?");
    reveal_strlit("<?>");
    reveal_strlit("?>");
    assert("<!--"@[1] == '!' && "<![CDATA["@[1] == '!' && "<?>"@[2] == '>' && "?>"@[0] == '?');
    start_differs(made, "<!--"@, 1);
    start_differs(made, "<![CDATA["@, 1);
    start_differs(made, "<?>"@, 2);
    assert("<?"@[0] == '<' && "<?"@[1] == '?');
    assert(bytes::start_with(made, "<?"@));
    let inner = made.skip(2);
    assert(inner[0] == made[2]);
    start_differs(inner, "?>"@, 0);
    let second = inner.drop_first();
    assert(second[0] == made[3]);
    start_differs(second, "?>"@, 0);
    let third = second.drop_first();
    assert(third[0] == made[4]);
    start_differs(third, "?>"@, 0);
    let last = third.drop_first();
    assert(last[0] == made[5] && last[1] == made[6]);
    assert("?>"@[1] == '>');
    assert(bytes::start_with(last, "?>"@));
    assert(until(last, "?>"@) == 0);
    assert(until(third, "?>"@) == 1);
    assert(until(second, "?>"@) == 2);
    assert(until(inner, "?>"@) == 3);
    assert(markup(made) == Markup::Ends(7));
    assert(made.subrange(1, 6)[0] == made[1]);
    assert(!far_date(made));
}

// ---------------------------------------------------------------------------
// Laws
// ---------------------------------------------------------------------------

/// The bytes of `9999-12-31`.
pub open spec fn last_day() -> Seq<u8> {
    seq![0x39u8, 0x39, 0x39, 0x39, 0x2d, 0x31, 0x32, 0x2d, 0x33, 0x31]
}

/// Whether two digits at `at` are those of a number.
pub open spec fn spells(date: Seq<u8>, at: int, n: nat) -> bool {
    date[at] == 0x30 + n / 10 && date[at + 1] == 0x30 + n % 10
}

/// A time of the last day of 9999 that is so many hours and minutes behind UTC leaves the
/// year exactly where the two come to a day or more.
pub proof fn far_means_past_the_last_midnight(
    date: Seq<u8>,
    hour: nat,
    minute: nat,
    second: nat,
    hours_behind: nat,
    minutes_behind: nat,
)
    requires
        date.len() == 25,
        date.take(10) == last_day(),
        hour < 24,
        minute < 60,
        second < 60,
        hours_behind < 24,
        minutes_behind < 60,
        spells(date, 11, hour),
        date[13] == 0x3a,
        spells(date, 14, minute),
        date[16] == 0x3a,
        spells(date, 17, second),
        date[19] == 0x2d,
        spells(date, 20, hours_behind),
        date[22] == 0x3a,
        spells(date, 23, minutes_behind),
    ensures
        far(date) <==> 60 * hour + minute + 60 * hours_behind + minutes_behind >= 24 * 60,
{
    reveal_strlit("9999-12-31");
    assert forall|i: int| 0 <= i < 10 implies date[i] as u32 == (
    #[trigger] "9999-12-31"@[i]) as u32 by {
        assert(date[i] == date.take(10)[i]);
    }
    assert(bytes::start_with(date, "9999-12-31"@));
}

/// No date leaves the year but one of its last day that lies behind UTC.
pub proof fn only_the_last_day_behind_utc_is_far(date: Seq<u8>)
    requires
        far(date),
    ensures
        date.len() >= 25,
        date.take(10) == last_day(),
        date[date.len() - 6] == 0x2d,
{
    reveal_strlit("9999-12-31");
    let first = date.take(10);
    assert forall|i: int| 0 <= i < 10 implies first[i] == last_day()[i] by {
        assert(date[i] as u32 == "9999-12-31"@[i] as u32);
    }
    assert(first =~= last_day());
}

/// The bytes of `<date>`.
pub open spec fn date_opened() -> Seq<u8> {
    seq![0x3cu8, 0x64, 0x61, 0x74, 0x65, 0x3e]
}

/// The bytes of `</date>`.
pub open spec fn date_closed() -> Seq<u8> {
    seq![0x3cu8, 0x2f, 0x64, 0x61, 0x74, 0x65, 0x3e]
}

/// What holds no `<` is passed over.
proof fn text_is_passed(document: Seq<u8>, at: int, to: int)
    requires
        0 <= at <= to <= document.len(),
        forall|i: int| at <= i < to ==> #[trigger] document[i] != 0x3c,
    ensures
        first_far(document, at) == first_far(document, to),
    decreases to - at,
{
    if at < to {
        assert(document[at] != 0x3c);
        text_is_passed(document, at + 1, to);
    }
}

/// The tag that closes a date is seven bytes long and opens none.
proof fn date_closes(rest: Seq<u8>)
    requires
        rest.len() >= 7,
        rest.take(7) == date_closed(),
    ensures
        markup(rest) == Markup::Ends(7),
        closes(rest.subrange(2, 6), seq![0x64u8, 0x61u8, 0x74u8, 0x65u8]),
        !far_date(rest),
{
    assert forall|i: int| 0 <= i < 7 implies #[trigger] rest[i] == date_closed()[i] by {
        assert(rest.take(7)[i] == rest[i]);
    }
    not_special(rest);
    assert forall|i: int| 0 <= i < 5 implies {
        let byte = #[trigger] rest.skip(1)[i];
        byte != 0x3e && byte != 0x22 && byte != 0x27
    } by {
        assert(rest.skip(1)[i] == date_closed()[i + 1]);
    }
    assert(rest.skip(1)[5] == date_closed()[6]);
    plain_tag_length(rest.skip(1), 5);
    let name = rest.subrange(2, 6);
    assert(name =~= seq![0x64u8, 0x61u8, 0x74u8, 0x65u8]);
    assert(name.last() == 0x65);
    assert(trimmed_length(name) == 4);
    assert(name.take(4) =~= name);
    assert(rest.subrange(1, 6)[0] == rest[1]);
}

/// The tag that opens a date is six bytes long and opens one.
proof fn date_opens(rest: Seq<u8>)
    requires
        rest.len() >= 6,
        rest.take(6) == date_opened(),
    ensures
        markup(rest) == Markup::Ends(6),
        opens_date(rest.subrange(1, 5)),
        name_of(rest.subrange(1, 5)) == seq![0x64u8, 0x61u8, 0x74u8, 0x65u8],
{
    assert forall|i: int| 0 <= i < 6 implies #[trigger] rest[i] == date_opened()[i] by {
        assert(rest.take(6)[i] == rest[i]);
    }
    not_special(rest);
    assert forall|i: int| 0 <= i < 4 implies {
        let byte = #[trigger] rest.skip(1)[i];
        byte != 0x3e && byte != 0x22 && byte != 0x27
    } by {
        assert(rest.skip(1)[i] == date_opened()[i + 1]);
    }
    assert(rest.skip(1)[4] == date_opened()[5]);
    plain_tag_length(rest.skip(1), 4);
    let name = rest.subrange(1, 5);
    let spelled = seq![0x64u8, 0x61u8, 0x74u8, 0x65u8];
    assert(name =~= spelled);
    reveal_with_fuel(name_length, 5);
    assert(spelled.drop_first() =~= seq![0x61u8, 0x74u8, 0x65u8]);
    assert(seq![0x61u8, 0x74u8, 0x65u8].drop_first() =~= seq![0x74u8, 0x65u8]);
    assert(seq![0x74u8, 0x65u8].drop_first() =~= seq![0x65u8]);
    assert(name_length(seq![0x65u8].drop_first()) == 0);
    assert(name_length(name) == 4);
    assert(name.take(4) =~= name);
    reveal_strlit(":");
    reveal_with_fuel(until, 5);
    start_differs(spelled, ":"@, 0);
    start_differs(seq![0x61u8, 0x74u8, 0x65u8], ":"@, 0);
    start_differs(seq![0x74u8, 0x65u8], ":"@, 0);
    start_differs(seq![0x65u8], ":"@, 0);
    assert(until(name, ":"@) == 4);
}

/// The text of a date is read up to the tag that closes it.
proof fn date_is_read(date: Seq<u8>, read: Seq<u8>, after: Seq<u8>)
    requires
        forall|i: int| 0 <= i < date.len() ==> #[trigger] date[i] != 0x3c && date[i] != 0x26,
    ensures
        far_content(
            date + date_closed() + after,
            read,
            seq![0x64u8, 0x61u8, 0x74u8, 0x65u8],
        ) == if far(read + date) {
            Some(date.len() as int + 7)
        } else {
            None
        },
    decreases date.len(),
{
    let content = date + date_closed() + after;
    reveal_strlit("</");
    reveal_strlit("<!");
    reveal_strlit("<?");
    if date.len() == 0 {
        assert(content =~= date_closed() + after);
        assert(content.take(7) =~= date_closed());
        assert(content[0] == 0x3c && content[1] == 0x2f);
        date_closes(content);
        assert(bytes::start_with(content, "</"@));
        assert(read + date =~= read);
    } else {
        let rest = date.drop_first();
        assert(content[0] == date[0]);
        start_differs(content, "</"@, 0);
        start_differs(content, "<!"@, 0);
        start_differs(content, "<?"@, 0);
        assert forall|i: int| 0 <= i < rest.len() implies #[trigger] rest[i] != 0x3c && rest[i]
            != 0x26 by {
            assert(rest[i] == date[i + 1]);
        }
        date_is_read(rest, read.push(date[0]), after);
        assert(content.skip(1) =~= rest + date_closed() + after);
        assert(read.push(date[0]) + rest =~= read + date);
    }
}

/// A date is found exactly where it leaves the year: of a document with a date element in
/// UTF-8, behind text that holds no tag, the first far date is that one, where it is far,
/// and otherwise the first behind it.
pub proof fn a_far_date_is_found(before: Seq<u8>, date: Seq<u8>, after: Seq<u8>)
    requires
        forall|i: int| 0 <= i < before.len() ==> #[trigger] before[i] != 0x3c,
        forall|i: int| 0 <= i < date.len() ==> #[trigger] date[i] != 0x3c && date[i] != 0x26,
        vstd::utf8::valid_utf8(date_opened() + date + date_closed()),
    ensures
        ({
            let document = before + (date_opened() + date + date_closed()) + after;
            &&& far(date) ==> first_far(document, 0) == Some(before.len() as int)
            &&& !far(date) ==> first_far(document, 0) == first_far(
                document,
                before.len() as int + 13 + date.len(),
            )
        }),
{
    let element = date_opened() + date + date_closed();
    let document = before + element + after;
    let at = before.len() as int;
    let rest = document.skip(at);
    assert forall|i: int| 0 <= i < at implies #[trigger] document[i] != 0x3c by {
        assert(document[i] == before[i]);
    }
    text_is_passed(document, 0, at);
    assert(rest =~= element + after);
    assert(document[at] == rest[0]);
    assert(rest.take(6) =~= date_opened());
    assert(rest[0] == 0x3c);
    date_opens(rest);
    let none = Seq::<u8>::empty();
    date_is_read(date, none, after);
    assert(rest.skip(6) =~= date + date_closed() + after);
    assert(none + date =~= date);
    assert(none =~= seq![]);
    assert(rest.take((6 + (date.len() + 7)) as int) =~= element);
    if !far(date) {
        assert(!far_date(rest));
        assert(first_far(document, at) == first_far(document, at + 6));
        let end = at + 6 + date.len();
        assert forall|i: int| at + 6 <= i < end implies #[trigger] document[i] != 0x3c by {
            assert(document[i] == date[i - at - 6]);
        }
        text_is_passed(document, at + 6, end);
        let last = document.skip(end);
        assert(last.take(7) =~= date_closed());
        assert(document[end] == last[0]);
        assert(last[0] == last.take(7)[0]);
        date_closes(last);
        assert(first_far(document, end) == first_far(document, end + 7));
    }
}

/// A document without its mark is what stands behind it.
pub proof fn the_mark_is_left_out(rest: Seq<u8>)
    ensures
        body_of(seq![0xefu8, 0xbb, 0xbf] + rest) == rest,
        rest.len() > 0 && rest[0] != 0xef ==> body_of(rest) == rest,
{
    assert((seq![0xefu8, 0xbb, 0xbf] + rest).skip(3) =~= rest);
    assert(rest.skip(0) =~= rest);
}

/// A mark is found where it first stands.
proof fn until_is_first(content: Seq<u8>, mark: Seq<char>, at: int)
    requires
        0 <= at < content.len(),
        bytes::start_with(content.skip(at), mark),
        forall|i: int| 0 <= i < at ==> !bytes::start_with(#[trigger] content.skip(i), mark),
    ensures
        until(content, mark) == at,
    decreases at,
{
    assert(content.skip(0) =~= content);
    if at > 0 {
        let rest = content.drop_first();
        assert(!bytes::start_with(content.skip(0), mark));
        assert(rest.skip(at - 1) =~= content.skip(at));
        assert forall|i: int| 0 <= i < at - 1 implies !bytes::start_with(
            #[trigger] rest.skip(i),
            mark,
        ) by {
            assert(rest.skip(i) =~= content.skip(i + 1));
        }
        until_is_first(rest, mark, at - 1);
    }
}

/// The bytes of `-->`.
pub open spec fn comment_closed() -> Seq<u8> {
    seq![0x2du8, 0x2d, 0x3e]
}

/// A comment is passed over up to the first `-->`, whatever it holds, so that no date is
/// found in it.
pub proof fn comments_are_passed_over(inner: Seq<u8>, after: Seq<u8>)
    requires
        forall|i: int|
            0 <= i < inner.len() ==> !bytes::start_with(
                #[trigger] (inner + comment_closed() + after).skip(i),
                "-->"@,
            ),
    ensures
        ({
            let document = seq![0x3cu8, 0x21, 0x2d, 0x2d] + inner + comment_closed() + after;
            first_far(document, 0) == first_far(document, inner.len() as int + 7)
        }),
{
    let opened = seq![0x3cu8, 0x21, 0x2d, 0x2d];
    let ended = comment_closed();
    let document = opened + inner + ended + after;
    let content = inner + ended + after;
    let at = inner.len() as int;
    reveal_strlit("<!--");
    reveal_strlit("-->");
    reveal(markup);
    assert(document.skip(0) =~= document);
    assert(document[0] == 0x3c && document[1] == 0x21 && document[2] == 0x2d && document[3]
        == 0x2d);
    assert(bytes::start_with(document, "<!--"@));
    assert(document.skip(4) =~= content);
    let tail = content.skip(at);
    assert(tail =~= ended + after);
    assert(tail[0] == 0x2d && tail[1] == 0x2d && tail[2] == 0x3e);
    assert(bytes::start_with(tail, "-->"@));
    until_is_first(content, "-->"@, at);
    assert(markup(document) == Markup::Ends(at + 7));
    assert(document.subrange(1, at + 6)[0] == document[1]);
    assert(!far_date(document));
}

} // verus!
