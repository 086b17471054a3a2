//! Text as a sequence of characters.
//!
//! Everything the rest of the crate does with strings is stated over `Seq<char>`,
//! the view of `str` and `String`.

use vstd::prelude::*;

verus! {

/// `String::push` appends one character.
pub assume_specification[ std::string::String::push ](s: &mut std::string::String, c: char)
    ensures
        final(s)@ == old(s)@.push(c),
;

/// `String::push_str` appends a string slice.
pub assume_specification[ std::string::String::push_str ](s: &mut std::string::String, tail: &str)
    ensures
        final(s)@ == old(s)@ + tail@,
;

/// A text in quotes, with escapes for what would not show.
pub uninterp spec fn quoted(s: Seq<char>) -> Seq<char>;

/// The `Debug` form of a string: in double quotes, with escapes.
#[verifier::external_body]
pub(crate) fn quote(s: &str) -> (quoted_text: String)
    ensures
        quoted_text@ == quoted(s@),
        quoted_text@.len() >= 2,
        quoted_text@[0] == '"',
        quoted_text@.last() == '"',
{
    format!("{s:?}")
}

// ---------------------------------------------------------------------------
// Moving between strings and characters
// ---------------------------------------------------------------------------

/// The characters of a string, in order.
pub fn chars_of(text: &str) -> (chars: Vec<char>)
    ensures
        chars@ == text@,
{
    let mut chars: Vec<char> = Vec::new();
    for c in it: text.chars()
        invariant
            it.seq() == text@,
            chars@ == it.seq().take(it.index()),
    {
        chars.push(c);
    }
    chars
}

/// The string made of `chars[from..to]`.
pub fn string_of(chars: &Vec<char>, from: usize, to: usize) -> (text: String)
    requires
        from <= to <= chars@.len(),
    ensures
        text@ == chars@.subrange(from as int, to as int),
{
    let mut text = String::new();
    let mut i: usize = from;
    while i < to
        invariant
            from <= i <= to <= chars@.len(),
            text@ == chars@.subrange(from as int, i as int),
        decreases to - i,
    {
        text.push(chars[i]);
        i += 1;
    }
    text
}

/// The views of a list of strings.
pub open spec fn texts(strings: Seq<String>) -> Seq<Seq<char>> {
    strings.map_values(|s: String| s@)
}

/// Whether two strings hold the same characters.
pub fn same(a: &str, b: &str) -> (equal: bool)
    ensures
        equal == (a@ == b@),
{
    let left = chars_of(a);
    let right = chars_of(b);
    if left.len() != right.len() {
        return false;
    }
    let mut i: usize = 0;
    while i < left.len()
        invariant
            i <= left@.len(),
            left@ == a@,
            right@ == b@,
            left@.len() == right@.len(),
            forall|k: int| 0 <= k < i ==> left@[k] == right@[k],
        decreases left@.len() - i,
    {
        if left[i] != right[i] {
            return false;
        }
        i += 1;
    }
    assert(a@ =~= b@);
    true
}

// ---------------------------------------------------------------------------
// Lexicographic order
// ---------------------------------------------------------------------------

/// Whether `a` comes strictly before `b` in dictionary order of characters.
///
/// UTF-8 preserves the order of code points, so this is also the byte order.
pub open spec fn precedes(a: Seq<char>, b: Seq<char>) -> bool
    decreases a.len(),
{
    if b.len() == 0 {
        false
    } else if a.len() == 0 {
        true
    } else if a[0] != b[0] {
        a[0] < b[0]
    } else {
        precedes(a.drop_first(), b.drop_first())
    }
}

/// No text precedes itself.
pub proof fn precedes_irreflexive(a: Seq<char>)
    ensures
        !precedes(a, a),
    decreases a.len(),
{
    if a.len() > 0 {
        precedes_irreflexive(a.drop_first());
    }
}

/// Of two texts that precede each other in a chain, the first precedes the last.
pub proof fn precedes_transitive(a: Seq<char>, b: Seq<char>, c: Seq<char>)
    requires
        precedes(a, b),
        precedes(b, c),
    ensures
        precedes(a, c),
    decreases a.len(),
{
    if a.len() > 0 && b.len() > 0 && c.len() > 0 && a[0] == b[0] && b[0] == c[0] {
        precedes_transitive(a.drop_first(), b.drop_first(), c.drop_first());
    }
}

/// Two texts neither of which precedes the other are equal.
pub proof fn precedes_total(a: Seq<char>, b: Seq<char>)
    ensures
        precedes(a, b) || a == b || precedes(b, a),
    decreases a.len(),
{
    if a.len() == 0 || b.len() == 0 {
        if a.len() == b.len() {
            assert(a =~= b);
        }
    } else if a[0] == b[0] {
        precedes_total(a.drop_first(), b.drop_first());
        if a.drop_first() == b.drop_first() {
            assert(a =~= seq![a[0]] + a.drop_first());
            assert(b =~= seq![b[0]] + b.drop_first());
        }
    }
}

/// At most one of two texts precedes the other.
pub proof fn precedes_asymmetric(a: Seq<char>, b: Seq<char>)
    requires
        precedes(a, b),
    ensures
        !precedes(b, a),
        a != b,
{
    if precedes(b, a) {
        precedes_transitive(a, b, a);
    }
    precedes_irreflexive(a);
}

/// A text that precedes another precedes any third, or that one precedes the other.
pub proof fn precedes_comparable(a: Seq<char>, b: Seq<char>, c: Seq<char>)
    requires
        precedes(a, b),
    ensures
        precedes(a, c) || precedes(c, b),
{
    precedes_total(a, c);
    if precedes(c, a) {
        precedes_transitive(c, a, b);
    }
}

/// Whether `a` comes strictly before `b` in dictionary order.
pub fn comes_before(a: &str, b: &str) -> (before: bool)
    ensures
        before == precedes(a@, b@),
{
    let left = chars_of(a);
    let right = chars_of(b);
    let mut i: usize = 0;
    assert(a@.skip(0) =~= a@);
    assert(b@.skip(0) =~= b@);
    while i < left.len() && i < right.len()
        invariant
            i <= left@.len(),
            i <= right@.len(),
            left@ == a@,
            right@ == b@,
            precedes(a@, b@) == precedes(a@.skip(i as int), b@.skip(i as int)),
        decreases left@.len() - i,
    {
        if left[i] != right[i] {
            return left[i] < right[i];
        }
        assert(a@.skip(i as int).drop_first() =~= a@.skip(i + 1));
        assert(b@.skip(i as int).drop_first() =~= b@.skip(i + 1));
        i += 1;
    }
    i < right.len()
}

// ---------------------------------------------------------------------------
// Case
// ---------------------------------------------------------------------------

/// A character with ASCII capitals folded to small letters.
pub open spec fn ascii_lower(c: char) -> char {
    if 'A' <= c <= 'Z' {
        ((c as u32) + 32) as char
    } else {
        c
    }
}

/// Whether two texts are equal but for the case of ASCII letters.
pub open spec fn alike(a: Seq<char>, b: Seq<char>) -> bool {
    &&& a.len() == b.len()
    &&& forall|i: int| 0 <= i < a.len() ==> ascii_lower(#[trigger] a[i]) == ascii_lower(b[i])
}

/// A character with ASCII capitals folded to small letters.
fn lowered(c: char) -> (low: char)
    ensures
        low == ascii_lower(c),
{
    if 'A' <= c && c <= 'Z' {
        ((c as u8) + 32) as char
    } else {
        c
    }
}

/// Whether two strings are equal but for the case of ASCII letters.
pub fn same_ignoring_case(a: &str, b: &str) -> (equal: bool)
    ensures
        equal == alike(a@, b@),
{
    let left = chars_of(a);
    let right = chars_of(b);
    if left.len() != right.len() {
        return false;
    }
    let mut i: usize = 0;
    while i < left.len()
        invariant
            i <= left@.len(),
            left@ == a@,
            right@ == b@,
            left@.len() == right@.len(),
            forall|k: int| 0 <= k < i ==> ascii_lower(#[trigger] a@[k]) == ascii_lower(b@[k]),
        decreases left@.len() - i,
    {
        if lowered(left[i]) != lowered(right[i]) {
            assert(ascii_lower(a@[i as int]) != ascii_lower(b@[i as int]));
            return false;
        }
        i += 1;
    }
    true
}

// ---------------------------------------------------------------------------
// White space
// ---------------------------------------------------------------------------

/// Whether a character has the Unicode `White_Space` property.
pub open spec fn is_white(c: char) -> bool {
    let n = c as u32;
    ||| 0x09 <= n <= 0x0d
    ||| n == 0x20
    ||| n == 0x85
    ||| n == 0xa0
    ||| n == 0x1680
    ||| 0x2000 <= n <= 0x200a
    ||| n == 0x2028
    ||| n == 0x2029
    ||| n == 0x202f
    ||| n == 0x205f
    ||| n == 0x3000
}

/// Whether a character has the Unicode `White_Space` property.
pub fn is_white_space(c: char) -> (white: bool)
    ensures
        white == is_white(c),
{
    let n: u32 = c as u32;
    (0x09 <= n && n <= 0x0d) || n == 0x20 || n == 0x85 || n == 0xa0 || n == 0x1680 || (0x2000 <= n
        && n <= 0x200a) || n == 0x2028 || n == 0x2029 || n == 0x202f || n == 0x205f || n == 0x3000
}

/// The text without its leading white space.
pub open spec fn trim_start(s: Seq<char>) -> Seq<char>
    decreases s.len(),
{
    if s.len() > 0 && is_white(s[0]) {
        trim_start(s.drop_first())
    } else {
        s
    }
}

/// The text without its trailing white space.
pub open spec fn trim_end(s: Seq<char>) -> Seq<char>
    decreases s.len(),
{
    if s.len() > 0 && is_white(s.last()) {
        trim_end(s.drop_last())
    } else {
        s
    }
}

/// The text without white space at either end.
pub open spec fn trim(s: Seq<char>) -> Seq<char> {
    trim_end(trim_start(s))
}

/// Where `chars[from..to]` starts once leading white space is dropped.
pub fn start_of(chars: &Vec<char>, from: usize, to: usize) -> (start: usize)
    requires
        from <= to <= chars@.len(),
    ensures
        from <= start <= to,
        chars@.subrange(start as int, to as int) == trim_start(
            chars@.subrange(from as int, to as int),
        ),
        start < to ==> !is_white(chars@[start as int]),
{
    let mut start: usize = from;
    while start < to && is_white_space(chars[start])
        invariant
            from <= start <= to <= chars@.len(),
            trim_start(chars@.subrange(from as int, to as int)) == trim_start(
                chars@.subrange(start as int, to as int),
            ),
        decreases to - start,
    {
        assert(chars@.subrange(start as int, to as int).drop_first() =~= chars@.subrange(
            start + 1,
            to as int,
        ));
        start += 1;
    }
    start
}

/// Where `chars[from..to]` ends once trailing white space is dropped.
pub fn end_of(chars: &Vec<char>, from: usize, to: usize) -> (end: usize)
    requires
        from <= to <= chars@.len(),
    ensures
        from <= end <= to,
        chars@.subrange(from as int, end as int) == trim_end(
            chars@.subrange(from as int, to as int),
        ),
{
    let mut end: usize = to;
    while from < end && is_white_space(chars[end - 1])
        invariant
            from <= end <= to <= chars@.len(),
            trim_end(chars@.subrange(from as int, to as int)) == trim_end(
                chars@.subrange(from as int, end as int),
            ),
        decreases end - from,
    {
        assert(chars@.subrange(from as int, end as int).drop_last() =~= chars@.subrange(
            from as int,
            end - 1,
        ));
        end -= 1;
    }
    end
}

/// `chars[from..to]` without white space at either end, as a string.
pub fn trimmed(chars: &Vec<char>, from: usize, to: usize) -> (text: String)
    requires
        from <= to <= chars@.len(),
    ensures
        text@ == trim(chars@.subrange(from as int, to as int)),
{
    let start = start_of(chars, from, to);
    let end = end_of(chars, start, to);
    string_of(chars, start, end)
}

// ---------------------------------------------------------------------------
// Splitting and joining
// ---------------------------------------------------------------------------

/// Index of the first `c` in the text, or its length when there is none.
pub open spec fn position(s: Seq<char>, c: char) -> int
    decreases s.len(),
{
    if s.len() == 0 || s[0] == c {
        0
    } else {
        1 + position(s.drop_first(), c)
    }
}

/// What stands before and after the first `c`.
pub open spec fn split_once(s: Seq<char>, c: char) -> Option<(Seq<char>, Seq<char>)> {
    let at = position(s, c);
    if at < s.len() {
        Some((s.take(at), s.skip(at + 1)))
    } else {
        None
    }
}

/// The first `c` is where the text first holds `c`.
pub proof fn position_is_first(s: Seq<char>, c: char)
    ensures
        0 <= position(s, c) <= s.len(),
        position(s, c) < s.len() ==> s[position(s, c)] == c,
        forall|i: int| 0 <= i < position(s, c) ==> s[i] != c,
        position(s, c) < s.len() <==> s.contains(c),
    decreases s.len(),
{
    if s.len() > 0 && s[0] != c {
        position_is_first(s.drop_first(), c);
        let at = position(s.drop_first(), c);
        assert forall|i: int| 0 <= i < position(s, c) implies s[i] != c by {
            if i > 0 {
                assert(s.drop_first()[i - 1] == s[i]);
            }
        }
        if at < s.drop_first().len() {
            assert(s[at + 1] == c);
        }
        if s.contains(c) {
            let i = choose|i: int| 0 <= i < s.len() && s[i] == c;
            assert(s.drop_first()[i - 1] == c);
        }
    } else if s.len() > 0 {
        assert(s[0] == c);
    }
}

/// Index of the first `c` in `chars[from..to]`, counted from the start of
/// `chars`; `to` when there is none.
pub fn find(chars: &Vec<char>, from: usize, to: usize, c: char) -> (at: usize)
    requires
        from <= to <= chars@.len(),
    ensures
        from <= at <= to,
        at - from == position(chars@.subrange(from as int, to as int), c),
{
    let mut at: usize = from;
    while at < to && chars[at] != c
        invariant
            from <= at <= to <= chars@.len(),
            position(chars@.subrange(from as int, to as int), c) == at - from + position(
                chars@.subrange(at as int, to as int),
                c,
            ),
        decreases to - at,
    {
        assert(chars@.subrange(at as int, to as int).drop_first() =~= chars@.subrange(
            at + 1,
            to as int,
        ));
        at += 1;
    }
    at
}

/// The lines of a text: what stands between line feeds, without a carriage
/// return before the line feed, and without an empty line after the last one.
pub open spec fn lines(s: Seq<char>) -> Seq<Seq<char>>
    decreases s.len(),
{
    if s.len() == 0 {
        seq![]
    } else {
        let at = position(s, '\n');
        if 0 <= at < s.len() {
            seq![without_return(s.take(at))] + lines(s.skip(at + 1))
        } else {
            seq![s]
        }
    }
}

/// The text without a final carriage return.
pub open spec fn without_return(s: Seq<char>) -> Seq<char> {
    if s.len() > 0 && s.last() == '\r' {
        s.drop_last()
    } else {
        s
    }
}

/// The maximal runs of characters that are not white space.
pub open spec fn words(s: Seq<char>) -> Seq<Seq<char>>
    decreases s.len(),
{
    if s.len() == 0 {
        seq![]
    } else if is_white(s[0]) {
        words(s.drop_first())
    } else {
        let n = word_length(s);
        if 0 < n <= s.len() {
            seq![s.take(n)] + words(s.skip(n))
        } else {
            seq![]
        }
    }
}

/// How many characters stand before the first white space.
pub open spec fn word_length(s: Seq<char>) -> int
    decreases s.len(),
{
    if s.len() == 0 || is_white(s[0]) {
        0
    } else {
        1 + word_length(s.drop_first())
    }
}

/// A word has at most the length of the text it starts.
pub proof fn word_length_bounds(s: Seq<char>)
    ensures
        0 <= word_length(s) <= s.len(),
        s.len() > 0 && !is_white(s[0]) ==> word_length(s) > 0,
    decreases s.len(),
{
    if s.len() > 0 && !is_white(s[0]) {
        word_length_bounds(s.drop_first());
    }
}

/// The parts one after another with `separator` between neighbours.
pub open spec fn joined(parts: Seq<Seq<char>>, separator: Seq<char>) -> Seq<char>
    decreases parts.len(),
{
    if parts.len() == 0 {
        seq![]
    } else if parts.len() == 1 {
        parts[0]
    } else {
        joined(parts.drop_last(), separator) + separator + parts.last()
    }
}

/// The strings one after another with `separator` between neighbours.
pub fn join(parts: &Vec<String>, separator: &str) -> (text: String)
    ensures
        text@ == joined(texts(parts@), separator@),
{
    let mut text = String::new();
    let mut i: usize = 0;
    while i < parts.len()
        invariant
            i <= parts@.len(),
            text@ == joined(texts(parts@.take(i as int)), separator@),
        decreases parts@.len() - i,
    {
        let ghost done = texts(parts@.take(i as int));
        let ghost next = texts(parts@.take(i + 1));
        assert(next.drop_last() =~= done);
        if i > 0 {
            text.push_str(separator);
        }
        text.push_str(parts[i].as_str());
        assert(text@ =~= joined(next, separator@)) by {
            if i == 0 {
                assert(done =~= seq![]);
                assert(next[0] == parts@[0]@);
            }
        }
        i += 1;
    }
    assert(parts@.take(i as int) =~= parts@);
    text
}

/// The words of a string, split at white space.
pub fn words_of(text: &str) -> (found: Vec<String>)
    ensures
        texts(found@) == words(text@),
{
    let chars = chars_of(text);
    let mut found: Vec<String> = Vec::new();
    let mut i: usize = 0;
    assert(chars@.skip(0) =~= chars@);
    assert(texts(found@) + words(chars@) =~= words(chars@));
    while i < chars.len()
        invariant
            i <= chars@.len(),
            texts(found@) + words(chars@.skip(i as int)) == words(chars@),
        decreases chars@.len() - i,
    {
        let ghost rest = chars@.skip(i as int);
        if is_white_space(chars[i]) {
            assert(rest.drop_first() =~= chars@.skip(i + 1));
            i += 1;
        } else {
            let mut end: usize = i;
            while end < chars.len() && !is_white_space(chars[end])
                invariant
                    i <= end <= chars@.len(),
                    rest == chars@.skip(i as int),
                    word_length(rest) == end - i + word_length(chars@.skip(end as int)),
                decreases chars@.len() - end,
            {
                assert(chars@.skip(end as int).drop_first() =~= chars@.skip(end + 1));
                end += 1;
            }
            proof {
                word_length_bounds(rest);
                assert(rest.take(end - i) =~= chars@.subrange(i as int, end as int));
                assert(rest.skip(end - i) =~= chars@.skip(end as int));
            }
            let ghost before = texts(found@);
            found.push(string_of(&chars, i, end));
            assert(texts(found@) =~= before.push(rest.take(end - i)));
            assert(before + (seq![rest.take(end - i)] + words(chars@.skip(end as int)))
                =~= before.push(rest.take(end - i)) + words(chars@.skip(end as int)));
            i = end;
        }
    }
    assert(chars@.skip(i as int) =~= seq![]);
    assert(texts(found@) + seq![] =~= texts(found@));
    found
}

/// Whether the text starts with `prefix`.
pub open spec fn starts_with(s: Seq<char>, prefix: Seq<char>) -> bool {
    prefix.len() <= s.len() && s.take(prefix.len() as int) == prefix
}

/// Whether `chars` start with the characters of `prefix`.
pub fn begins_with(chars: &Vec<char>, prefix: &Vec<char>) -> (begins: bool)
    ensures
        begins == starts_with(chars@, prefix@),
{
    if chars.len() < prefix.len() {
        return false;
    }
    let mut i: usize = 0;
    while i < prefix.len()
        invariant
            i <= prefix@.len() <= chars@.len(),
            forall|k: int| 0 <= k < i ==> chars@[k] == prefix@[k],
        decreases prefix@.len() - i,
    {
        if chars[i] != prefix[i] {
            assert(chars@.take(prefix@.len() as int)[i as int] != prefix@[i as int]);
            return false;
        }
        i += 1;
    }
    assert(chars@.take(prefix@.len() as int) =~= prefix@);
    true
}

/// The text with every `from` turned into `to`.
pub open spec fn replaced(s: Seq<char>, from: char, to: char) -> Seq<char> {
    s.map_values(
        |c: char|
            if c == from {
                to
            } else {
                c
            },
    )
}

// ---------------------------------------------------------------------------
// Laws
// ---------------------------------------------------------------------------

/// Whether two texts agree up to `at`, and there the first ends before the second, or
/// has the character of the lower code.
pub open spec fn lower_from(a: Seq<char>, b: Seq<char>, at: int) -> bool {
    &&& 0 <= at <= a.len()
    &&& at < b.len()
    &&& forall|i: int| 0 <= i < at ==> a[i] == b[i]
    &&& at == a.len() || (a[at] as int) < (b[at] as int)
}

/// A text precedes another exactly where, at the first place where they differ, it
/// has the character of the lower code or has ended.
pub proof fn precedes_by_first_difference(a: Seq<char>, b: Seq<char>)
    ensures
        precedes(a, b) <==> exists|at: int| lower_from(a, b, at),
    decreases a.len(),
{
    if a.len() > 0 && b.len() > 0 && a[0] == b[0] {
        let x = a.drop_first();
        let y = b.drop_first();
        precedes_by_first_difference(x, y);
        if exists|at: int| lower_from(x, y, at) {
            let at = choose|at: int| lower_from(x, y, at);
            assert forall|i: int| 0 <= i < at + 1 implies a[i] == b[i] by {
                if i > 0 {
                    assert(x[i - 1] == y[i - 1]);
                }
            }
            assert(lower_from(a, b, at + 1));
        }
        if exists|at: int| lower_from(a, b, at) {
            let at = choose|at: int| lower_from(a, b, at);
            assert(at > 0);
            assert forall|i: int| 0 <= i < at - 1 implies x[i] == y[i] by {
                assert(a[i + 1] == b[i + 1]);
            }
            assert(lower_from(x, y, at - 1));
        }
    } else {
        if b.len() > 0 {
            if a.len() == 0 || (a[0] as int) < (b[0] as int) {
                assert(lower_from(a, b, 0));
            }
        }
        if exists|at: int| lower_from(a, b, at) {
            let at = choose|at: int| lower_from(a, b, at);
            if at > 0 {
                assert(a[0] == b[0]);
            }
        }
    }
}

/// Whether two characters are one and the same, or one ASCII letter, once as a
/// capital and once small.
pub open spec fn one_letter(a: char, b: char) -> bool {
    ||| a == b
    ||| 'A' <= a <= 'Z' && b as int == a as int + 32
    ||| 'A' <= b <= 'Z' && a as int == b as int + 32
}

/// Texts are alike exactly where they are equally long and have the same letters in
/// the same places, but for case.
pub proof fn alike_letter_by_letter(a: Seq<char>, b: Seq<char>)
    ensures
        alike(a, b) <==> a.len() == b.len() && forall|i: int|
            0 <= i < a.len() ==> one_letter(#[trigger] a[i], b[i]),
        alike(a, a),
        alike(a, b) == alike(b, a),
{
    if alike(a, b) {
        assert forall|i: int| 0 <= i < a.len() implies one_letter(#[trigger] a[i], b[i]) by {
            assert(ascii_lower(a[i]) == ascii_lower(b[i]));
        }
        assert forall|i: int| 0 <= i < b.len() implies ascii_lower(#[trigger] b[i]) == ascii_lower(
            a[i],
        ) by {
            assert(ascii_lower(a[i]) == ascii_lower(b[i]));
        }
    }
    if alike(b, a) {
        assert forall|i: int| 0 <= i < a.len() implies ascii_lower(#[trigger] a[i]) == ascii_lower(
            b[i],
        ) by {
            assert(ascii_lower(b[i]) == ascii_lower(a[i]));
        }
    }
    if a.len() == b.len() && forall|i: int| 0 <= i < a.len() ==> one_letter(#[trigger] a[i], b[i]) {
        assert forall|i: int| 0 <= i < a.len() implies ascii_lower(#[trigger] a[i]) == ascii_lower(
            b[i],
        ) by {
            assert(one_letter(a[i], b[i]));
        }
    }
}

/// Of the characters of ASCII, the space and those from the tab to the carriage
/// return are white space, and no others.
pub proof fn white_space_of_ascii(c: char)
    requires
        c as u32 <= 0x7f,
    ensures
        is_white(c) <==> c == ' ' || c == '\t' || c == '\n' || c == '\r' || c as u32 == 0x0b
            || c as u32 == 0x0c,
{
}

/// What is trimmed off at the start is white space, and no more of it is left there.
proof fn trim_start_cuts(s: Seq<char>) -> (start: int)
    ensures
        0 <= start <= s.len(),
        trim_start(s) == s.skip(start),
        forall|i: int| 0 <= i < start ==> is_white(#[trigger] s[i]),
        start < s.len() ==> !is_white(s[start]),
    decreases s.len(),
{
    if s.len() > 0 && is_white(s[0]) {
        let rest = s.drop_first();
        let start = trim_start_cuts(rest);
        assert forall|i: int| 0 <= i < start + 1 implies is_white(#[trigger] s[i]) by {
            if i > 0 {
                assert(rest[i - 1] == s[i]);
            }
        }
        assert(rest.skip(start) =~= s.skip(start + 1));
        if start < rest.len() {
            assert(rest[start] == s[start + 1]);
        }
        start + 1
    } else {
        assert(s.skip(0) =~= s);
        0
    }
}

/// What is trimmed off at the end is white space, and no more of it is left there.
pub proof fn trim_end_cuts(s: Seq<char>) -> (end: int)
    ensures
        0 <= end <= s.len(),
        trim_end(s) == s.take(end),
        forall|i: int| end <= i < s.len() ==> is_white(#[trigger] s[i]),
        end > 0 ==> !is_white(s[end - 1]),
    decreases s.len(),
{
    if s.len() > 0 && is_white(s.last()) {
        let rest = s.drop_last();
        let end = trim_end_cuts(rest);
        assert forall|i: int| end <= i < s.len() implies is_white(#[trigger] s[i]) by {
            if i < rest.len() {
                assert(rest[i] == s[i]);
            }
        }
        assert(rest.take(end) =~= s.take(end));
        if end > 0 {
            assert(rest[end - 1] == s[end - 1]);
        }
        end
    } else {
        assert(s.take(s.len() as int) =~= s);
        s.len() as int
    }
}

/// Trimming takes white space off both ends and nothing else: what is left is a part
/// of the text, with nothing but white space around it, and has none at its ends.
pub proof fn trim_cuts(s: Seq<char>) -> (bounds: (int, int))
    ensures
        0 <= bounds.0 <= bounds.1 <= s.len(),
        trim(s) == s.subrange(bounds.0, bounds.1),
        forall|i: int| 0 <= i < bounds.0 ==> is_white(#[trigger] s[i]),
        forall|i: int| bounds.1 <= i < s.len() ==> is_white(#[trigger] s[i]),
        bounds.0 < bounds.1 ==> !is_white(s[bounds.0]) && !is_white(s[bounds.1 - 1]),
{
    let start = trim_start_cuts(s);
    let rest = s.skip(start);
    let end = trim_end_cuts(rest);
    assert(rest.take(end) =~= s.subrange(start, start + end));
    assert forall|i: int| start + end <= i < s.len() implies is_white(#[trigger] s[i]) by {
        assert(rest[i - start] == s[i]);
    }
    if end > 0 {
        assert(rest[end - 1] == s[start + end - 1]);
        assert(start < s.len());
    }
    (start, start + end)
}

/// A text without white space at its ends is left alone.
pub proof fn trim_keeps(s: Seq<char>)
    requires
        s.len() > 0 ==> !is_white(s[0]) && !is_white(s.last()),
    ensures
        trim(s) == s,
        trim_end(s) == s,
{
}

/// A text comes apart at the first of a character exactly where it holds one: what
/// stands before and behind makes up the text again, and before there is none.
pub proof fn split_once_comes_apart(s: Seq<char>, c: char)
    ensures
        split_once(s, c) is Some <==> s.contains(c),
        split_once(s, c) matches Some((before, behind)) ==> {
            &&& before.push(c) + behind == s
            &&& !before.contains(c)
        },
{
    position_is_first(s, c);
    if let Some((before, behind)) = split_once(s, c) {
        assert(before.push(c) + behind =~= s);
    }
}

/// Two texts with a character between them come apart again, if the first does not
/// hold it.
pub proof fn split_once_undoes(before: Seq<char>, c: char, behind: Seq<char>)
    requires
        !before.contains(c),
    ensures
        split_once(before.push(c) + behind, c) == Some((before, behind)),
{
    let s = before.push(c) + behind;
    position_is_first(s, c);
    let at = position(s, c);
    assert(s[before.len() as int] == c);
    assert(s.contains(c));
    if at < before.len() {
        assert(before[at] == c);
    }
    assert(at == before.len());
    assert(s.take(at) =~= before);
    assert(s.skip(at + 1) =~= behind);
}

/// A text without a line feed is one line, and no text is no line.
pub proof fn one_line(s: Seq<char>)
    requires
        !s.contains('\n'),
    ensures
        s.len() == 0 ==> lines(s) == Seq::<Seq<char>>::empty(),
        s.len() > 0 ==> lines(s) == seq![s],
{
    position_is_first(s, '\n');
}

/// A line feed ends a line, as does a carriage return with a line feed behind it, and
/// what follows has its own lines.
pub proof fn lines_end_with_line_feeds(line: Seq<char>, rest: Seq<char>)
    requires
        !line.contains('\n'),
        line.len() > 0 ==> line.last() != '\r',
    ensures
        lines(line.push('\n') + rest) == seq![line] + lines(rest),
        lines(line.push('\r').push('\n') + rest) == seq![line] + lines(rest),
{
    let plain = line.push('\n') + rest;
    split_once_undoes(line, '\n', rest);
    position_is_first(plain, '\n');
    let full = line.push('\r');
    let both = full.push('\n') + rest;
    assert(!full.contains('\n')) by {
        if full.contains('\n') {
            let i = choose|i: int| 0 <= i < full.len() && full[i] == '\n';
            assert(line[i] == '\n');
        }
    }
    split_once_undoes(full, '\n', rest);
    position_is_first(both, '\n');
    assert(full.drop_last() =~= line);
}

/// Whether a text holds no white space.
pub open spec fn solid(s: Seq<char>) -> bool {
    forall|i: int| 0 <= i < s.len() ==> !is_white(#[trigger] s[i])
}

/// A text without white space is one word, and no text is no word.
pub proof fn one_word(s: Seq<char>)
    requires
        solid(s),
    ensures
        s.len() == 0 ==> words(s) == Seq::<Seq<char>>::empty(),
        s.len() > 0 ==> words(s) == seq![s],
    decreases s.len(),
{
    if s.len() > 0 {
        solid_word_length(s);
        assert(!is_white(s[0]));
        assert(s.take(s.len() as int) =~= s);
        assert(s.skip(s.len() as int) =~= seq![]);
        assert(words(s.skip(s.len() as int)) =~= seq![]);
        assert(words(s) =~= seq![s]);
    }
}

/// The word that a text without white space starts with is all of it.
proof fn solid_word_length(s: Seq<char>)
    requires
        solid(s),
    ensures
        word_length(s) == s.len(),
    decreases s.len(),
{
    if s.len() > 0 {
        assert(!is_white(s[0]));
        let rest = s.drop_first();
        assert forall|i: int| 0 <= i < rest.len() implies !is_white(#[trigger] rest[i]) by {
            assert(rest[i] == s[i + 1]);
        }
        solid_word_length(rest);
    }
}

/// White space parts words: a text has the words before some white space, and then
/// those behind it.
pub proof fn words_part_at_white_space(a: Seq<char>, white: char, b: Seq<char>)
    requires
        is_white(white),
    ensures
        words(a.push(white) + b) == words(a) + words(b),
    decreases a.len(),
{
    let s = a.push(white) + b;
    if a.len() == 0 {
        assert(s[0] == white);
        assert(s.drop_first() =~= b);
        assert(words(a) + words(b) =~= words(b));
    } else if is_white(a[0]) {
        assert(s[0] == a[0]);
        assert(s.drop_first() =~= a.drop_first().push(white) + b);
        words_part_at_white_space(a.drop_first(), white, b);
    } else {
        let n = word_length(a);
        word_length_bounds(a);
        word_length_across(a, white, b);
        assert(s[0] == a[0]);
        assert(s.take(n) =~= a.take(n));
        assert(s.skip(n) =~= a.skip(n).push(white) + b);
        words_part_at_white_space(a.skip(n), white, b);
        assert(words(s) =~= words(a) + words(b));
    }
}

/// White space ends the word before it.
proof fn word_length_across(a: Seq<char>, white: char, b: Seq<char>)
    requires
        is_white(white),
    ensures
        word_length(a.push(white) + b) == word_length(a),
    decreases a.len(),
{
    let s = a.push(white) + b;
    if a.len() == 0 {
        assert(s[0] == white);
    } else {
        assert(s[0] == a[0]);
        if !is_white(a[0]) {
            assert(s.drop_first() =~= a.drop_first().push(white) + b);
            word_length_across(a.drop_first(), white, b);
        }
    }
}

/// Joining one text gives that text, and joining two lists gives what either gives,
/// with the separator between.
pub proof fn joined_in_parts(a: Seq<Seq<char>>, b: Seq<Seq<char>>, separator: Seq<char>)
    requires
        a.len() > 0,
        b.len() > 0,
    ensures
        joined(a + b, separator) == joined(a, separator) + separator + joined(b, separator),
        a.len() == 1 ==> joined(a, separator) == a[0],
    decreases b.len(),
{
    let all = a + b;
    assert(all.last() == b.last());
    assert(all.drop_last() =~= a + b.drop_last());
    if b.len() == 1 {
        assert(a + b.drop_last() =~= a);
    } else {
        joined_in_parts(a, b.drop_last(), separator);
    }
    assert(joined(all, separator) =~= joined(a, separator) + separator + joined(b, separator));
}

/// Nothing joined is nothing.
pub proof fn joined_of_nothing(separator: Seq<char>)
    ensures
        joined(Seq::<Seq<char>>::empty(), separator) == Seq::<char>::empty(),
{
}

/// A text starts with another exactly where something makes up the text behind it.
pub proof fn starts_with_means(s: Seq<char>, prefix: Seq<char>)
    ensures
        starts_with(s, prefix) <==> exists|rest: Seq<char>| s == #[trigger] (prefix + rest),
{
    if starts_with(s, prefix) {
        assert(s =~= prefix + s.skip(prefix.len() as int));
    }
    if exists|rest: Seq<char>| s == #[trigger] (prefix + rest) {
        let rest = choose|rest: Seq<char>| s == #[trigger] (prefix + rest);
        assert(s.take(prefix.len() as int) =~= prefix);
    }
}

/// Replacing changes the one character, wherever it stands, and nothing else.
pub proof fn replaced_place_by_place(s: Seq<char>, from: char, to: char)
    ensures
        replaced(s, from, to).len() == s.len(),
        forall|i: int|
            0 <= i < s.len() ==> {
                &&& s[i] == from ==> #[trigger] replaced(s, from, to)[i] == to
                &&& s[i] != from ==> replaced(s, from, to)[i] == s[i]
            },
{
}

/// Whether a part stands somewhere in a text.
pub open spec fn mentions(s: Seq<char>, part: Seq<char>) -> bool {
    exists|before: Seq<char>, behind: Seq<char>| s == #[trigger] (before + part + behind)
}

/// What stands in a text stands in any text that holds it.
pub proof fn mentions_within(before: Seq<char>, s: Seq<char>, behind: Seq<char>, part: Seq<char>)
    requires
        mentions(s, part),
    ensures
        mentions(before + s + behind, part),
{
    let (x, y) = choose|x: Seq<char>, y: Seq<char>| s == #[trigger] (x + part + y);
    assert(before + s + behind =~= (before + x) + part + (y + behind));
}

/// Each of several texts stands in what they are joined to.
pub proof fn joined_mentions(parts: Seq<Seq<char>>, separator: Seq<char>, index: int)
    requires
        0 <= index < parts.len(),
    ensures
        mentions(joined(parts, separator), parts[index]),
    decreases parts.len(),
{
    let none = Seq::<char>::empty();
    if parts.len() == 1 {
        assert(parts[0] =~= none + parts[0] + none);
    } else if index == parts.len() - 1 {
        let front = joined(parts.drop_last(), separator) + separator;
        assert(joined(parts, separator) =~= front + parts[index] + none);
    } else {
        let front = parts.drop_last();
        joined_mentions(front, separator, index);
        assert(front[index] == parts[index]);
        mentions_within(none, joined(front, separator), separator + parts.last(), parts[index]);
        assert(joined(parts, separator) =~= none + joined(front, separator) + (separator
            + parts.last()));
    }
}

/// Beyond ASCII, white space is what Unicode has as such: the next line, the spaces that
/// do not break, the space of Ogham, those of typography, the separators of lines and of
/// paragraphs, the space of mathematics and the ideographic space.
pub proof fn white_space_beyond_ascii(c: char)
    requires
        c as u32 > 0x7f,
    ensures
        is_white(c) <==> c == '\u{85}' || c == '\u{a0}' || c == '\u{1680}' || '\u{2000}' <= c
            <= '\u{200a}' || c == '\u{2028}' || c == '\u{2029}' || c == '\u{202f}' || c
            == '\u{205f}' || c == '\u{3000}',
{
}

/// Whether a text is nothing but white space.
pub open spec fn blank(s: Seq<char>) -> bool {
    forall|i: int| 0 <= i < s.len() ==> is_white(#[trigger] s[i])
}

/// White space around a text is trimmed off, all of it and nothing of the text.
pub proof fn trim_undoes_padding(before: Seq<char>, s: Seq<char>, behind: Seq<char>)
    requires
        blank(before),
        blank(behind),
        s.len() > 0,
        !is_white(s[0]),
        !is_white(s.last()),
    ensures
        trim(before + s + behind) == s,
        trim_end(before + s + behind) == before + s,
{
    let whole = before + s + behind;
    let start = before.len() as int;
    let end = (before.len() + s.len()) as int;
    let (from, to) = trim_cuts(whole);
    assert(whole[start] == s[0]);
    assert(whole[end - 1] == s.last());
    assert forall|i: int| end <= i < whole.len() implies is_white(#[trigger] whole[i]) by {
        assert(whole[i] == behind[i - end]);
    }
    assert forall|i: int| 0 <= i < start implies is_white(#[trigger] whole[i]) by {
        assert(whole[i] == before[i]);
    }
    if from > start {
        assert(is_white(whole[start]));
    }
    if to < end {
        assert(is_white(whole[end - 1]));
    }
    assert(from < to);
    if from < start {
        assert(is_white(whole[from]));
    }
    if to > end {
        assert(is_white(whole[to - 1]));
    }
    assert(whole.subrange(start, end) =~= s);
    let cut = trim_end_cuts(whole);
    if cut < end {
        assert(is_white(whole[end - 1]));
    }
    if cut > end {
        assert(is_white(whole[cut - 1]));
    }
    assert(whole.take(end) =~= before + s);
}

} // verus!
