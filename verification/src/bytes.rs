//! Bytes compared with text.
//!
//! A text whose characters all lie below U+0100 also spells out bytes: one for each
//! character, with its code. That is how magic numbers are written here.

use vstd::prelude::*;
use crate::text::chars_of;

verus! {

/// Whether the bytes start with the ones that `text` spells.
pub open spec fn start_with(bytes: Seq<u8>, text: Seq<char>) -> bool {
    &&& text.len() <= bytes.len()
    &&& forall|i: int| 0 <= i < text.len() ==> bytes[i] as u32 == (#[trigger] text[i]) as u32
}

/// Whether the bytes from `from` on start with the ones that `text` spells.
pub fn starts_at(bytes: &[u8], from: usize, text: &str) -> (starts: bool)
    requires
        from <= bytes@.len(),
    ensures
        starts == start_with(bytes@.skip(from as int), text@),
{
    let chars = chars_of(text);
    let length: usize = bytes.len();
    if length - from < chars.len() {
        return false;
    }
    let ghost rest = bytes@.skip(from as int);
    let mut i: usize = 0;
    while i < chars.len()
        invariant
            length == bytes@.len(),
            from + chars@.len() <= length,
            i <= chars@.len(),
            chars@ == text@,
            rest == bytes@.skip(from as int),
            forall|k: int| 0 <= k < i ==> rest[k] as u32 == (#[trigger] text@[k]) as u32,
        decreases chars@.len() - i,
    {
        assert(rest[i as int] == bytes@[from + i]);
        if bytes[from + i] as u32 != chars[i] as u32 {
            assert(rest[i as int] as u32 != text@[i as int] as u32);
            return false;
        }
        i += 1;
    }
    true
}

/// Whether a byte is a space, a tab, a line feed, a form feed or a carriage return.
pub open spec fn is_space(byte: u8) -> bool {
    byte == 0x20 || byte == 0x09 || byte == 0x0a || byte == 0x0c || byte == 0x0d
}

/// The bytes without the white space they start with.
pub open spec fn without_leading_space(bytes: Seq<u8>) -> Seq<u8>
    decreases bytes.len(),
{
    if bytes.len() > 0 && is_space(bytes[0]) {
        without_leading_space(bytes.drop_first())
    } else {
        bytes
    }
}

/// Where the white space that starts at `from` ends.
pub fn end_of_space(bytes: &[u8], from: usize) -> (end: usize)
    requires
        from <= bytes@.len(),
    ensures
        from <= end <= bytes@.len(),
        bytes@.skip(end as int) == without_leading_space(bytes@.skip(from as int)),
{
    let mut end: usize = from;
    while end < bytes.len() && (bytes[end] == 0x20 || bytes[end] == 0x09 || bytes[end] == 0x0a
        || bytes[end] == 0x0c || bytes[end] == 0x0d)
        invariant
            from <= end <= bytes@.len(),
            without_leading_space(bytes@.skip(from as int)) == without_leading_space(
                bytes@.skip(end as int),
            ),
        decreases bytes@.len() - end,
    {
        assert(bytes@.skip(end as int).drop_first() =~= bytes@.skip(end + 1));
        assert(bytes@.skip(end as int)[0] == bytes@[end as int]);
        end += 1;
    }
    if end < bytes.len() {
        assert(bytes@.skip(end as int)[0] == bytes@[end as int]);
    }
    end
}

/// The number that four bytes make, the most significant first.
pub open spec fn big_endian(bytes: Seq<u8>, at: int) -> nat {
    (((bytes[at] as int * 256 + bytes[at + 1] as int) * 256 + bytes[at + 2] as int) * 256
        + bytes[at + 3] as int) as nat
}

/// The number that four bytes make, the most significant first.
pub fn number_at(bytes: &[u8], at: usize) -> (number: u32)
    requires
        at + 4 <= bytes@.len(),
    ensures
        number == big_endian(bytes@, at as int),
{
    ((bytes[at] as u32 * 256 + bytes[at + 1] as u32) * 256 + bytes[at + 2] as u32) * 256 + bytes[at
        + 3] as u32
}

/// `std::str::from_utf8` accepts exactly the bytes that are UTF-8, and yields the
/// characters they encode.
#[verifier::external_body]
pub(crate) fn utf8_text(bytes: &[u8]) -> (text: Option<String>)
    ensures
        text is Some <==> vstd::utf8::valid_utf8(bytes@),
        text matches Some(found) ==> found@ == vstd::utf8::decode_utf8(bytes@),
{
    std::str::from_utf8(bytes).ok().map(|text| text.to_string())
}

// ---------------------------------------------------------------------------
// Laws
// ---------------------------------------------------------------------------

/// Bytes start with one text after another exactly where they start with the first,
/// and what is behind it with the second.
pub proof fn start_with_in_parts(bytes: Seq<u8>, first: Seq<char>, second: Seq<char>)
    ensures
        start_with(bytes, first + second) <==> start_with(bytes, first) && start_with(
            bytes.skip(first.len() as int),
            second,
        ),
{
    let both = first + second;
    let rest = bytes.skip(first.len() as int);
    if start_with(bytes, both) {
        assert forall|i: int| 0 <= i < first.len() implies bytes[i] as u32 == (
        #[trigger] first[i]) as u32 by {
            assert(both[i] == first[i]);
        }
        assert forall|i: int| 0 <= i < second.len() implies rest[i] as u32 == (
        #[trigger] second[i]) as u32 by {
            assert(both[first.len() + i] == second[i]);
        }
    }
    if start_with(bytes, first) && start_with(rest, second) {
        assert forall|i: int| 0 <= i < both.len() implies bytes[i] as u32 == (
        #[trigger] both[i]) as u32 by {
            if i < first.len() {
                assert(both[i] == first[i]);
            } else {
                assert(both[i] == second[i - first.len()]);
                assert(rest[i - first.len()] == bytes[i]);
            }
        }
    }
}

/// Leading white space is left out and nothing else: what was there is a space, a
/// tab, a line feed, a form feed or a carriage return, and what is left starts with
/// none of them.
pub proof fn leading_space_is_left_out(bytes: Seq<u8>) -> (count: int)
    ensures
        0 <= count <= bytes.len(),
        without_leading_space(bytes) == bytes.skip(count),
        forall|i: int|
            0 <= i < count ==> {
                ||| #[trigger] bytes[i] == 0x20
                ||| bytes[i] == 0x09
                ||| bytes[i] == 0x0a
                ||| bytes[i] == 0x0c
                ||| bytes[i] == 0x0d
            },
        count < bytes.len() ==> bytes[count] != 0x20 && bytes[count] != 0x09 && bytes[count]
            != 0x0a && bytes[count] != 0x0c && bytes[count] != 0x0d,
    decreases bytes.len(),
{
    if bytes.len() > 0 && is_space(bytes[0]) {
        let rest = bytes.drop_first();
        let count = leading_space_is_left_out(rest);
        assert(rest.skip(count) =~= bytes.skip(count + 1));
        assert forall|i: int| 0 <= i < count + 1 implies {
            ||| #[trigger] bytes[i] == 0x20
            ||| bytes[i] == 0x09
            ||| bytes[i] == 0x0a
            ||| bytes[i] == 0x0c
            ||| bytes[i] == 0x0d
        } by {
            if i > 0 {
                assert(rest[i - 1] == bytes[i]);
            }
        }
        if count < rest.len() {
            assert(rest[count] == bytes[count + 1]);
        }
        count + 1
    } else {
        assert(bytes.skip(0) =~= bytes);
        0
    }
}

/// Four bytes make the number in which each counts for 256 of the one behind it.
pub proof fn big_endian_counts(bytes: Seq<u8>, at: int)
    ensures
        big_endian(bytes, at) == 16_777_216 * bytes[at] + 65_536 * bytes[at + 1] + 256 * bytes[at
            + 2] + bytes[at + 3],
{
}

} // verus!
