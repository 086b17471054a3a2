//! Rendering decoded values and raw bytes for a terminal.
//!
//! Values render in an indented, YAML-shaped form rather than a flat table: the
//! contents of a shared `UserDefaults` suite nest, and a table would either hide
//! the nesting or need a column per level.

use vstd::prelude::*;
use crate::decode;
use crate::decode::{RealModel, Value, ValueModel};
use crate::double;
use crate::double::{is_finite, is_integral};
use crate::number;
use crate::number::{
    integer_of, push_byte, push_bytes, push_decimal, push_padded_hexadecimal,
};
use crate::text;
use crate::text::quote;

verus! {

/// How many bytes of a `Data` value to preview inline.
pub const DATA_PREVIEW: usize = 16;

// ---------------------------------------------------------------------------
// Values
// ---------------------------------------------------------------------------

/// A `Data` value as a byte count plus a short hex preview.
pub open spec fn preview(data: Seq<u8>) -> Seq<char> {
    let shown = if data.len() > DATA_PREVIEW {
        data.take(DATA_PREVIEW as int)
    } else {
        data
    };
    "<"@ + number::decimal(data.len()) + " bytes> "@ + number::bytes_digits(shown) + if data.len()
        > DATA_PREVIEW {
        "…"@
    } else {
        seq![]
    }
}

/// A number as text: with one digit after the point where it has no fractional part.
///
/// An integral real would otherwise print as `2`, indistinguishable from the
/// integer 2 — and which one an app wrote is exactly the kind of detail this tool
/// exists to show.
pub open spec fn real_text(r: RealModel) -> Seq<char> {
    if double::finite(r.bits) && double::integral(r.bits) {
        r.fixed
    } else {
        r.display
    }
}

/// A value that fits on one line.
///
/// Strings are quoted and escaped, making control characters and trailing spaces
/// visible instead of silently changing how a value looks.
pub open spec fn scalar_text(value: ValueModel) -> Seq<char> {
    match value {
        ValueModel::Bool(b) => if b { "true"@ } else { "false"@ },
        ValueModel::Integer(n) => number::integer(n as int),
        ValueModel::Real(r) => real_text(r),
        ValueModel::String(s) => text::quoted(s),
        ValueModel::Date(s) => s,
        ValueModel::Uid(n) => "<uid "@ + number::decimal(n as nat) + ">"@,
        ValueModel::Data(data) => preview(data),
        ValueModel::Dict(_) => "{}"@,
        ValueModel::Array(_) => "[]"@,
    }
}

/// Whether a value is a container that holds something.
pub open spec fn nests(value: ValueModel) -> bool {
    match value {
        ValueModel::Array(items) => items.len() > 0,
        ValueModel::Dict(entries) => entries.len() > 0,
        _ => false,
    }
}

/// A value on lines of its own, each of which starts with `indent`.
pub open spec fn rendered(value: ValueModel, indent: Seq<char>) -> Seq<char>
    decreases value, 1nat,
{
    match value {
        ValueModel::Array(items) if items.len() > 0 => rendered_items(items, indent),
        ValueModel::Dict(entries) if entries.len() > 0 => rendered_entries(entries, indent),
        _ => indent + scalar_text(value) + "\n"@,
    }
}

/// A value behind a `key:` or `-` marker: inline when it is a scalar, and on
/// following lines, two spaces further in, when it nests.
pub open spec fn rendered_child(value: ValueModel, indent: Seq<char>) -> Seq<char>
    decreases value, 2nat,
{
    if nests(value) {
        "\n"@ + rendered(value, indent + "  "@)
    } else {
        " "@ + scalar_text(value) + "\n"@
    }
}

/// The entries of a dictionary, each behind its key.
pub open spec fn rendered_entries(
    entries: Seq<(Seq<char>, ValueModel)>,
    indent: Seq<char>,
) -> Seq<char>
    decreases entries, 0nat,
{
    if entries.len() == 0 {
        seq![]
    } else {
        indent + entries[0].0 + ":"@ + rendered_child(entries[0].1, indent) + rendered_entries(
            entries.drop_first(),
            indent,
        )
    }
}

/// The items of an array, each behind a dash.
pub open spec fn rendered_items(items: Seq<ValueModel>, indent: Seq<char>) -> Seq<char>
    decreases items, 0nat,
{
    if items.len() == 0 {
        seq![]
    } else {
        indent + "-"@ + rendered_child(items[0], indent) + rendered_items(
            items.drop_first(),
            indent,
        )
    }
}

/// Renders a decoded value.
///
/// Strings are quoted so an empty string, a numeric-looking string, and trailing
/// whitespace are all visible — the distinctions that matter when you are
/// checking what an app actually wrote.
pub fn render(value: &Value) -> (lines: String)
    ensures
        lines@ == rendered(value@, seq![]),
{
    let mut out = String::new();
    assert("".view() =~= seq![]) by {
        reveal_strlit("");
    }
    render_into(&mut out, value, "");
    assert(out@ =~= rendered(value@, seq![]));
    out
}

/// Appends a value on lines of its own, each of which starts with `indent`.
fn render_into(out: &mut String, value: &Value, indent: &str)
    ensures
        final(out)@ == old(out)@ + rendered(value@, indent@),
    decreases value, 1nat,
{
    let ghost start = out@;
    match value {
        Value::Dict(map) if map.entries.len() > 0 => {
            let ghost all = map.pairs();
            let mut i: usize = 0;
            proof {
                decode::dict_view(*map);
                assert(all.skip(0) =~= all);
            }
            while i < map.entries.len()
                invariant
                    i <= map.entries@.len(),
                    *value == Value::Dict(*map),
                    all == map.pairs(),
                    out@ + rendered_entries(all.skip(i as int), indent@) == start
                        + rendered_entries(all, indent@),
                decreases map.entries@.len() - i,
            {
                let ghost before = out@;
                let ghost rest = all.skip(i as int);
                assert(rest[0] == all[i as int]);
                assert(rest.drop_first() =~= all.skip(i + 1));
                assert(decreases_to!(*value => value->Dict_0.entries@[i as int].1));
                out.push_str(indent);
                out.push_str(map.entries[i].0.as_str());
                out.push_str(":");
                render_child(out, &map.entries[i].1, indent);
                assert(before + rendered_entries(rest, indent@) =~= out@ + rendered_entries(
                    all.skip(i + 1),
                    indent@,
                ));
                i += 1;
            }
            assert(all.skip(i as int) =~= seq![]);
            assert(out@ =~= start + rendered(value@, indent@));
        },
        Value::Array(items) if items.len() > 0 => {
            let ghost all = decode::models(items@);
            let mut i: usize = 0;
            proof {
                decode::array_view(*items);
                assert(all.skip(0) =~= all);
            }
            while i < items.len()
                invariant
                    i <= items@.len(),
                    *value == Value::Array(*items),
                    all == decode::models(items@),
                    out@ + rendered_items(all.skip(i as int), indent@) == start + rendered_items(
                        all,
                        indent@,
                    ),
                decreases items@.len() - i,
            {
                let ghost before = out@;
                let ghost rest = all.skip(i as int);
                assert(rest[0] == all[i as int]);
                assert(rest.drop_first() =~= all.skip(i + 1));
                assert(decreases_to!(*value => value->Array_0@[i as int]));
                out.push_str(indent);
                out.push_str("-");
                render_child(out, &items[i], indent);
                assert(before + rendered_items(rest, indent@) =~= out@ + rendered_items(
                    all.skip(i + 1),
                    indent@,
                ));
                i += 1;
            }
            assert(all.skip(i as int) =~= seq![]);
            assert(out@ =~= start + rendered(value@, indent@));
        },
        other => {
            out.push_str(indent);
            out.push_str(scalar(other).as_str());
            out.push_str("\n");
            assert(out@ =~= start + rendered(value@, indent@));
        },
    }
}

/// Whether a value is a container that holds something.
fn is_nested(value: &Value) -> (yes: bool)
    ensures
        yes == nests(value@),
{
    match value {
        Value::Dict(map) => map.entries.len() > 0,
        Value::Array(items) => items.len() > 0,
        _ => false,
    }
}

/// Writes a value that follows a `key:` or `-` marker, inline when it is a scalar
/// and on following lines when it nests.
fn render_child(out: &mut String, value: &Value, indent: &str)
    ensures
        final(out)@ == old(out)@ + rendered_child(value@, indent@),
    decreases value, 2nat,
{
    let ghost start = out@;
    if is_nested(value) {
        out.push_str("\n");
        let mut deeper = indent.to_string();
        deeper.push_str("  ");
        render_into(out, value, deeper.as_str());
    } else {
        out.push_str(" ");
        out.push_str(scalar(value).as_str());
        out.push_str("\n");
    }
    assert(out@ =~= start + rendered_child(value@, indent@));
}

/// Formats a value that fits on one line.
///
/// A string stands in double quotes, so it cannot pass for anything else.
pub fn scalar(value: &Value) -> (shown: String)
    ensures
        shown@ == scalar_text(value@),
        value is String ==> shown@.len() >= 2 && shown@[0] == '"' && shown@.last() == '"',
{
    match value {
        Value::Bool(value) => if *value {
            "true".to_string()
        } else {
            "false".to_string()
        },
        Value::Integer(value) => integer_of(*value),
        Value::Real(value) => if is_finite(value.bits) && is_integral(value.bits) {
            value.fixed.clone()
        } else {
            value.display.clone()
        },
        Value::String(value) => quote(value.as_str()),
        Value::Date(value) => value.clone(),
        Value::Uid(value) => {
            let mut shown = "<uid ".to_string();
            push_decimal(&mut shown, *value as u128);
            shown.push_str(">");
            shown
        },
        Value::Data(data) => data_preview(data.as_slice()),
        Value::Dict(_) => "{}".to_string(),
        Value::Array(_) => "[]".to_string(),
    }
}

/// Summarises a `Data` value as a byte count plus a short hex preview.
pub fn data_preview(data: &[u8]) -> (shown: String)
    ensures
        shown@ == preview(data@),
{
    let length: usize = data.len();
    let count: usize = if length > DATA_PREVIEW {
        DATA_PREVIEW
    } else {
        length
    };
    let mut shown = "<".to_string();
    push_decimal(&mut shown, length as u128);
    shown.push_str(" bytes> ");
    push_bytes(&mut shown, data, count);
    if length <= DATA_PREVIEW {
        assert(data@.take(count as int) =~= data@);
    } else {
        shown.push_str("…");
    }
    assert(shown@ =~= preview(data@));
    shown
}

/// An integral real never reads like an integer: it has a point, and no integer has
/// one.
pub proof fn integral_real_is_no_integer(r: RealModel, n: i128)
    requires
        double::finite(r.bits),
        double::integral(r.bits),
        r.fixed.contains('.'),
    ensures
        scalar_text(ValueModel::Real(r)) != scalar_text(ValueModel::Integer(n)),
{
    let digits = number::integer(n as int);
    if n < 0 {
        number::decimal_is_digits((-n) as nat);
    } else {
        number::decimal_is_digits(n as nat);
    }
    assert(!digits.contains('.')) by {
        if digits.contains('.') {
            let i = choose|i: int| 0 <= i < digits.len() && digits[i] == '.';
            if n < 0 && i > 0 {
                assert(digits[i] == number::decimal((-n) as nat)[i - 1]);
            }
        }
    }
}

// ---------------------------------------------------------------------------
// Raw bytes
// ---------------------------------------------------------------------------

/// The bytes that a dump shows; a limit of nothing means all of them.
pub open spec fn shown_bytes(bytes: Seq<u8>, limit: nat) -> Seq<u8> {
    if limit == 0 || limit >= bytes.len() {
        bytes
    } else {
        bytes.take(limit as int)
    }
}

/// The first `count` of the sixteen places of a line: two digits for each byte, and
/// room for those that are missing, with a wider gap in the middle.
pub open spec fn places(chunk: Seq<u8>, count: nat) -> Seq<char>
    decreases count,
{
    if count == 0 {
        seq![]
    } else {
        let position = count - 1;
        places(chunk, position as nat) + (if position < chunk.len() {
            number::byte_digits(chunk[position]) + " "@
        } else {
            "   "@
        }) + (if position == 7 { " "@ } else { seq![] })
    }
}

/// A byte as a character, or a dot where it has none that shows.
pub open spec fn visible(byte: u8) -> char {
    if 0x20 <= byte <= 0x7e {
        byte as char
    } else {
        '.'
    }
}

/// One line of a dump.
pub open spec fn dump_line(chunk: Seq<u8>, offset: nat) -> Seq<char> {
    number::padded_hexadecimal(offset, 8) + "  "@ + places(chunk, 16) + " |"@ + chunk.map_values(
        |byte: u8| visible(byte),
    ) + "|\n"@
}

/// Where the line that starts at `start` ends.
pub open spec fn line_end(bytes: Seq<u8>, start: int) -> int {
    if bytes.len() - start > 16 {
        start + 16
    } else {
        bytes.len() as int
    }
}

/// The lines of a dump from `start` on.
pub open spec fn dump_from(bytes: Seq<u8>, start: int) -> Seq<char>
    decreases bytes.len() - start,
{
    if 0 <= start < bytes.len() {
        let end = line_end(bytes, start);
        dump_line(bytes.subrange(start, end), start as nat) + dump_from(bytes, end)
    } else {
        seq![]
    }
}

/// A dump of some bytes: lines of sixteen, and a line that says how many are left
/// out, where any are.
pub open spec fn dump(bytes: Seq<u8>, limit: nat) -> Seq<char> {
    let shown = shown_bytes(bytes, limit);
    dump_from(shown, 0) + if shown.len() < bytes.len() {
        "… "@ + number::decimal((bytes.len() - shown.len()) as nat)
            + " more bytes (use --limit 0 for all)\n"@
    } else {
        seq![]
    }
}

/// Appends the line for `bytes[start..end]`.
fn push_line(out: &mut String, bytes: &[u8], start: usize, end: usize)
    requires
        start <= end <= bytes@.len(),
        end - start <= 16,
    ensures
        final(out)@ == old(out)@ + dump_line(
            bytes@.subrange(start as int, end as int),
            start as nat,
        ),
{
    let ghost before = out@;
    let ghost chunk = bytes@.subrange(start as int, end as int);
    push_padded_hexadecimal(out, start as u64, 8);
    out.push_str("  ");
    let ghost head = out@;
    let mut position: usize = 0;
    assert(out@ =~= head + places(chunk, 0));
    while position < 16
        invariant
            position <= 16,
            start <= end <= bytes@.len(),
            end - start <= 16,
            chunk == bytes@.subrange(start as int, end as int),
            out@ == head + places(chunk, position as nat),
        decreases 16 - position,
    {
        if position < end - start {
            push_byte(out, bytes[start + position]);
            out.push_str(" ");
        } else {
            out.push_str("   ");
        }
        if position == 7 {
            out.push_str(" ");
        }
        assert(out@ =~= head + places(chunk, (position + 1) as nat));
        position += 1;
    }
    out.push_str(" |");
    let ghost middle = out@;
    let ghost marks = chunk.map_values(|byte: u8| visible(byte));
    let mut i: usize = start;
    assert(out@ =~= middle + marks.take(0));
    while i < end
        invariant
            start <= i <= end <= bytes@.len(),
            chunk == bytes@.subrange(start as int, end as int),
            marks == chunk.map_values(|byte: u8| visible(byte)),
            out@ == middle + marks.take(i - start),
        decreases end - i,
    {
        let byte: u8 = bytes[i];
        out.push(
            if 0x20 <= byte && byte <= 0x7e {
                byte as char
            } else {
                '.'
            },
        );
        assert(marks[i - start] == visible(byte));
        assert(out@ =~= middle + marks.take(i - start + 1));
        i += 1;
    }
    assert(marks.take(end - start) =~= marks);
    out.push_str("|\n");
    assert(out@ =~= before + dump_line(chunk, start as nat));
}

/// Renders bytes as a classic hexdump.
///
/// `limit` caps the output; `0` means no cap. When bytes are omitted a trailing
/// line says how many, so a truncated dump never looks like the whole file.
pub fn hexdump(bytes: &[u8], limit: usize) -> (dumped: String)
    ensures
        dumped@ == dump(bytes@, limit as nat),
{
    let length: usize = bytes.len();
    let count: usize = if limit == 0 || limit >= length {
        length
    } else {
        limit
    };
    let ghost shown = shown_bytes(bytes@, limit as nat);
    assert(shown =~= bytes@.take(count as int));
    let mut out = String::new();
    let mut start: usize = 0;
    assert(out@ + dump_from(shown, 0) =~= dump_from(shown, 0));
    while start < count
        invariant
            start <= count <= bytes@.len(),
            shown == bytes@.take(count as int),
            out@ + dump_from(shown, start as int) == dump_from(shown, 0),
        decreases count - start,
    {
        let end: usize = if count - start > 16 {
            start + 16
        } else {
            count
        };
        let ghost before = out@;
        push_line(&mut out, bytes, start, end);
        assert(shown.subrange(start as int, end as int) =~= bytes@.subrange(
            start as int,
            end as int,
        ));
        assert(end == line_end(shown, start as int));
        assert(out@ + dump_from(shown, end as int) =~= before + dump_from(shown, start as int));
        start = end;
    }
    assert(out@ + dump_from(shown, start as int) =~= out@);
    if count < length {
        out.push_str("… ");
        push_decimal(&mut out, (length - count) as u128);
        out.push_str(" more bytes (use --limit 0 for all)\n");
    }
    assert(out@ =~= dump(bytes@, limit as nat));
    out
}

// ---------------------------------------------------------------------------
// Laws
// ---------------------------------------------------------------------------

/// Every line of a dump ends with a bar.
proof fn dump_ends_with_bar(bytes: Seq<u8>, start: int)
    requires
        0 <= start < bytes.len(),
    ensures
        dump_from(bytes, start).len() >= 2,
        dump_from(bytes, start)[dump_from(bytes, start).len() - 2] == '|',
    decreases bytes.len() - start,
{
    let end = line_end(bytes, start);
    reveal_strlit("|\n");
    if end < bytes.len() {
        dump_ends_with_bar(bytes, end);
    } else {
        let line = dump_line(bytes.subrange(start, end), start as nat);
        assert(dump_from(bytes, end) =~= seq![]);
        assert(dump_from(bytes, start) =~= line);
        assert(line[line.len() - 2] == '|');
    }
}

/// A truncated dump never looks like that of a whole file, whatever the file.
pub proof fn truncated_dump_is_no_whole_dump(bytes: Seq<u8>, limit: nat, whole: Seq<u8>)
    requires
        0 < limit < bytes.len(),
    ensures
        dump(bytes, limit) != dump(whole, 0),
{
    let cut = dump(bytes, limit);
    let full = dump(whole, 0);
    reveal_strlit("… ");
    reveal_strlit(" more bytes (use --limit 0 for all)\n");
    let tail = " more bytes (use --limit 0 for all)\n"@;
    assert(tail[tail.len() - 2] == ')');
    assert(cut[cut.len() - 2] == ')');
    assert(full =~= dump_from(whole, 0));
    if whole.len() > 0 {
        dump_ends_with_bar(whole, 0);
    }
}

/// What is written before the bytes that are previewed: how many there are in all.
pub open spec fn preview_head(length: nat) -> Seq<char> {
    "<"@ + number::decimal(length) + " bytes> "@
}

/// How many of so many bytes are previewed: all of them, up to sixteen.
pub open spec fn previewed(length: nat) -> nat {
    if length < 16 {
        length
    } else {
        16
    }
}

/// A preview shows the beginning of the data: behind the count stand the hexadecimal
/// digits of the first bytes, in order, as many as there are up to sixteen, and then an
/// ellipsis where there are more.
pub proof fn preview_shows_the_beginning(data: Seq<u8>)
    ensures
        preview(data).len() == preview_head(data.len()).len() + 2 * previewed(data.len()) + if data.len()
            > 16 {
            1int
        } else {
            0
        },
        preview(data).take(preview_head(data.len()).len() as int) == preview_head(data.len()),
        forall|i: int|
            0 <= i < previewed(data.len()) ==> {
                let at = preview_head(data.len()).len() + 2 * i;
                16 * number::digit_meant(preview(data)[at]) + number::digit_meant(
                    preview(data)[at + 1],
                ) == #[trigger] data[i]
            },
        data.len() > 16 ==> preview(data).last() == '…',
{
    let shown = data.take(previewed(data.len()) as int);
    let head = preview_head(data.len());
    let digits = number::bytes_digits(shown);
    reveal_strlit("…");
    if data.len() <= 16 {
        assert(shown =~= data);
    }
    number::bytes_digits_length(shown);
    assert(preview(data) =~= head + digits + if data.len() > 16 { "…"@ } else { seq![] });
    assert(preview(data).take(head.len() as int) =~= head);
    assert forall|i: int| 0 <= i < previewed(data.len()) implies {
        let at = head.len() + 2 * i;
        16 * number::digit_meant(preview(data)[at]) + number::digit_meant(preview(data)[at + 1])
            == #[trigger] data[i]
    } by {
        number::bytes_digits_read_back(shown, i);
        assert(preview(data)[head.len() + 2 * i] == digits[2 * i]);
        assert(preview(data)[head.len() + 2 * i + 1] == digits[2 * i + 1]);
        assert(shown[i] == data[i]);
    }
}

/// Data reads the same exactly where it is equally long and has the same first sixteen
/// bytes: a difference among them always shows, and none behind them does.
pub proof fn previews_tell_beginnings_apart(a: Seq<u8>, b: Seq<u8>)
    ensures
        preview(a) == preview(b) <==> a.len() == b.len() && forall|i: int|
            0 <= i < a.len() && i < 16 ==> a[i] == b[i],
{
    preview_shows_the_beginning(a);
    preview_shows_the_beginning(b);
    if preview(a) == preview(b) {
        preview_starts_with_length(a);
        preview_starts_with_length(b);
        assert(a.len() == b.len());
        assert forall|i: int| 0 <= i < a.len() && i < 16 implies a[i] == b[i] by {
            let at = preview_head(a.len()).len() + 2 * i;
            assert(16 * number::digit_meant(preview(a)[at]) + number::digit_meant(
                preview(a)[at + 1],
            ) == a[i]);
            assert(16 * number::digit_meant(preview(b)[at]) + number::digit_meant(
                preview(b)[at + 1],
            ) == b[i]);
        }
    }
    if a.len() == b.len() && forall|i: int| 0 <= i < a.len() && i < 16 ==> a[i] == b[i] {
        if a.len() > 16 {
            assert(a.take(16) =~= b.take(16));
        } else {
            assert(a =~= b);
        }
    }
}

/// What stands before the first space of a preview tells how long the data is.
proof fn preview_starts_with_length(data: Seq<u8>)
    ensures
        text::split_once(preview(data), ' ') matches Some((before, _)) && before.len() > 0
            && number::number_meant(before.skip(1), 10) == data.len(),
{
    let digits = number::decimal(data.len());
    let before = seq!['<'] + digits;
    number::decimal_reads_back(data.len());
    reveal_strlit("<");
    reveal_strlit(" bytes> ");
    assert(!before.contains(' ')) by {
        if before.contains(' ') {
            let i = choose|i: int| 0 <= i < before.len() && before[i] == ' ';
            assert(i > 0);
            assert(before[i] == digits[i - 1]);
        }
    }
    let behind = preview(data).skip(before.len() as int + 1);
    assert(" bytes> "@[0] == ' ');
    assert(preview(data) =~= before.push(' ') + behind);
    text::split_once_undoes(before, ' ', behind);
    assert(before.skip(1) =~= digits);
}

/// Scalars of one kind that read the same are the same: a boolean, an integer, a date or
/// a reference never reads like another.
pub proof fn scalars_read_differently(a: ValueModel, b: ValueModel)
    requires
        scalar_text(a) == scalar_text(b),
    ensures
        a is Bool && b is Bool ==> a == b,
        a is Integer && b is Integer ==> a == b,
        a is Date && b is Date ==> a == b,
        a is Uid && b is Uid ==> a == b,
{
    reveal_strlit("true");
    reveal_strlit("false");
    match (a, b) {
        (ValueModel::Bool(x), ValueModel::Bool(y)) => {
            assert("true"@.len() == 4 && "false"@.len() == 5);
        },
        (ValueModel::Integer(x), ValueModel::Integer(y)) => {
            number::integer_injective(x as int, y as int);
        },
        (ValueModel::Uid(x), ValueModel::Uid(y)) => {
            reveal_strlit("<uid ");
            reveal_strlit(">");
            let p = scalar_text(a);
            assert(number::decimal(x as nat) =~= p.subrange(5, p.len() - 1));
            assert(number::decimal(y as nat) =~= p.subrange(5, p.len() - 1));
            number::decimal_injective(x as nat, y as nat);
        },
        _ => {},
    }
}

/// How each scalar reads: a boolean as its word, an integer in decimal, a string in
/// quotes, a date as it is, and a reference by its number.
pub proof fn scalars_read_as_what_they_are(b: bool, n: i128, s: Seq<char>, uid: u64)
    ensures
        b ==> scalar_text(ValueModel::Bool(b)) == "true"@,
        !b ==> scalar_text(ValueModel::Bool(b)) == "false"@,
        n < 0 ==> scalar_text(ValueModel::Integer(n))[0] == '-' && number::number_meant(
            scalar_text(ValueModel::Integer(n)).skip(1),
            10,
        ) == -n,
        n >= 0 ==> number::number_meant(scalar_text(ValueModel::Integer(n)), 10) == n,
        scalar_text(ValueModel::String(s)) == text::quoted(s),
        scalar_text(ValueModel::Date(s)) == s,
        number::number_meant(
            scalar_text(ValueModel::Uid(uid)).subrange(
                5,
                scalar_text(ValueModel::Uid(uid)).len() - 1,
            ),
            10,
        ) == uid,
{
    number::integer_reads_back(n as int);
    number::decimal_reads_back(uid as nat);
    reveal_strlit("<uid ");
    reveal_strlit(">");
    let shown = scalar_text(ValueModel::Uid(uid));
    assert(shown.subrange(5, shown.len() - 1) =~= number::decimal(uid as nat));
}

/// A double reads with its one digit behind the point exactly where it is a whole
/// number, and in its shortest form otherwise.
pub proof fn doubles_read_by_their_fraction(r: RealModel)
    ensures
        double::finite(r.bits) && double::integral(r.bits) ==> scalar_text(ValueModel::Real(r))
            == r.fixed,
        !(double::finite(r.bits) && double::integral(r.bits)) ==> scalar_text(ValueModel::Real(r))
            == r.display,
{
}

/// Whether a value is a container with something in it.
pub open spec fn holds_something(value: ValueModel) -> bool {
    ||| value is Array && value->Array_0.len() > 0
    ||| value is Dict && value->Dict_0.len() > 0
}

/// Entries render one after another, in order: those of a dictionary in two goes as those
/// of two dictionaries.
pub proof fn entries_render_in_order(
    a: Seq<(Seq<char>, ValueModel)>,
    b: Seq<(Seq<char>, ValueModel)>,
    indent: Seq<char>,
)
    requires
        a.len() > 0,
        b.len() > 0,
    ensures
        rendered(ValueModel::Dict(a + b), indent) == rendered(ValueModel::Dict(a), indent)
            + rendered(ValueModel::Dict(b), indent),
{
    entries_in_parts(a, b, indent);
}

/// The lines of entries in two goes.
proof fn entries_in_parts(
    a: Seq<(Seq<char>, ValueModel)>,
    b: Seq<(Seq<char>, ValueModel)>,
    indent: Seq<char>,
)
    ensures
        rendered_entries(a + b, indent) == rendered_entries(a, indent) + rendered_entries(
            b,
            indent,
        ),
    decreases a.len(),
{
    if a.len() == 0 {
        assert(a + b =~= b);
        assert(rendered_entries(a, indent) + rendered_entries(b, indent) =~= rendered_entries(
            b,
            indent,
        ));
    } else {
        assert((a + b)[0] == a[0]);
        assert((a + b).drop_first() =~= a.drop_first() + b);
        entries_in_parts(a.drop_first(), b, indent);
        assert(rendered_entries(a + b, indent) =~= rendered_entries(a, indent) + rendered_entries(
            b,
            indent,
        ));
    }
}

/// An entry is its key and a colon, with a scalar behind it on the same line, and with
/// anything that nests on the lines below, two spaces further in.
pub proof fn an_entry_renders_behind_its_key(key: Seq<char>, value: ValueModel, indent: Seq<char>)
    ensures
        !holds_something(value) ==> rendered(ValueModel::Dict(seq![(key, value)]), indent) == indent
            + key + ": "@ + scalar_text(value) + "\n"@,
        holds_something(value) ==> rendered(ValueModel::Dict(seq![(key, value)]), indent) == indent
            + key + ":\n"@ + rendered(value, indent + "  "@),
{
    let entries = seq![(key, value)];
    reveal_strlit(": ");
    reveal_strlit(":\n");
    reveal_strlit(":");
    reveal_strlit(" ");
    reveal_strlit("\n");
    assert(entries[0] == (key, value));
    assert(entries.drop_first() =~= seq![]);
    assert(rendered_entries(entries.drop_first(), indent) =~= seq![]);
    assert(nests(value) == holds_something(value));
    let made = rendered(ValueModel::Dict(entries), indent);
    if nests(value) {
        assert(made =~= indent + key + ":\n"@ + rendered(value, indent + "  "@));
    } else {
        assert(made =~= indent + key + ": "@ + scalar_text(value) + "\n"@);
    }
}

/// Items render one after another, in order: those of an array in two goes as those of
/// two arrays.
pub proof fn items_render_in_order(a: Seq<ValueModel>, b: Seq<ValueModel>, indent: Seq<char>)
    requires
        a.len() > 0,
        b.len() > 0,
    ensures
        rendered(ValueModel::Array(a + b), indent) == rendered(ValueModel::Array(a), indent)
            + rendered(ValueModel::Array(b), indent),
{
    items_in_parts(a, b, indent);
}

/// The lines of items in two goes.
proof fn items_in_parts(a: Seq<ValueModel>, b: Seq<ValueModel>, indent: Seq<char>)
    ensures
        rendered_items(a + b, indent) == rendered_items(a, indent) + rendered_items(b, indent),
    decreases a.len(),
{
    if a.len() == 0 {
        assert(a + b =~= b);
        assert(rendered_items(a, indent) + rendered_items(b, indent) =~= rendered_items(
            b,
            indent,
        ));
    } else {
        assert((a + b)[0] == a[0]);
        assert((a + b).drop_first() =~= a.drop_first() + b);
        items_in_parts(a.drop_first(), b, indent);
        assert(rendered_items(a + b, indent) =~= rendered_items(a, indent) + rendered_items(
            b,
            indent,
        ));
    }
}

/// An item is a dash, with a scalar behind it on the same line, and with anything that
/// nests on the lines below, two spaces further in.
pub proof fn an_item_renders_behind_a_dash(value: ValueModel, indent: Seq<char>)
    ensures
        !holds_something(value) ==> rendered(ValueModel::Array(seq![value]), indent) == indent
            + "- "@ + scalar_text(value) + "\n"@,
        holds_something(value) ==> rendered(ValueModel::Array(seq![value]), indent) == indent
            + "-\n"@ + rendered(value, indent + "  "@),
{
    let items = seq![value];
    reveal_strlit("- ");
    reveal_strlit("-\n");
    reveal_strlit("-");
    reveal_strlit(" ");
    reveal_strlit("\n");
    assert(items[0] == value);
    assert(items.drop_first() =~= seq![]);
    assert(rendered_items(items.drop_first(), indent) =~= seq![]);
    assert(nests(value) == holds_something(value));
    let made = rendered(ValueModel::Array(items), indent);
    if nests(value) {
        assert(made =~= indent + "-\n"@ + rendered(value, indent + "  "@));
    } else {
        assert(made =~= indent + "- "@ + scalar_text(value) + "\n"@);
    }
}

/// A value with nothing in it, and a scalar, is one line.
pub proof fn a_scalar_renders_on_one_line(value: ValueModel, indent: Seq<char>)
    requires
        !holds_something(value),
    ensures
        rendered(value, indent) == indent + scalar_text(value) + "\n"@,
        value is Dict ==> scalar_text(value) == "{}"@,
        value is Array ==> scalar_text(value) == "[]"@,
{
}

/// Where the digits of the byte at `position` start on a line of a dump.
pub open spec fn column(position: int) -> int {
    3 * position + if position >= 8 {
        1int
    } else {
        0
    }
}

/// The places of a line have the digits of each byte where its column starts.
proof fn places_show_bytes(chunk: Seq<u8>, count: nat)
    requires
        count <= 16,
    ensures
        places(chunk, count).len() == column(count as int),
        forall|i: int|
            0 <= i < count && i < chunk.len() ==> {
                &&& places(chunk, count)[column(i)] == number::byte_digits(#[trigger] chunk[i])[0]
                &&& places(chunk, count)[column(i) + 1] == number::byte_digits(chunk[i])[1]
                &&& places(chunk, count)[column(i) + 2] == ' '
            },
    decreases count,
{
    reveal_strlit(" ");
    reveal_strlit("   ");
    if count > 0 {
        let position = count - 1;
        places_show_bytes(chunk, position as nat);
        let front = places(chunk, position as nat);
        assert forall|i: int| 0 <= i < count && i < chunk.len() implies {
            &&& places(chunk, count)[column(i)] == number::byte_digits(#[trigger] chunk[i])[0]
            &&& places(chunk, count)[column(i) + 1] == number::byte_digits(chunk[i])[1]
            &&& places(chunk, count)[column(i) + 2] == ' '
        } by {
            if i < position {
                assert(front[column(i)] == number::byte_digits(chunk[i])[0]);
                assert(front[column(i) + 2] == ' ');
            }
        }
    }
}

/// A line of a dump has the offset, the bytes and their characters each at their place.
proof fn line_shows_bytes(chunk: Seq<u8>, offset: nat)
    requires
        0 < chunk.len() <= 16,
        offset < 0x1_0000_0000,
    ensures
        dump_line(chunk, offset).len() == 63 + chunk.len(),
        number::number_meant(dump_line(chunk, offset).take(8), 16) == offset,
        dump_line(chunk, offset)[8] == ' ' && dump_line(chunk, offset)[9] == ' ',
        dump_line(chunk, offset)[59] == ' ' && dump_line(chunk, offset)[60] == '|',
        dump_line(chunk, offset)[61 + chunk.len() as int] == '|',
        dump_line(chunk, offset)[62 + chunk.len() as int] == '\n',
        forall|i: int|
            0 <= i < chunk.len() ==> {
                &&& 16 * number::digit_meant(dump_line(chunk, offset)[10 + column(i)])
                    + number::digit_meant(dump_line(chunk, offset)[10 + column(i) + 1])
                    == #[trigger] chunk[i]
                &&& dump_line(chunk, offset)[10 + column(i) + 2] == ' '
                &&& dump_line(chunk, offset)[61 + i] == if 0x20 <= chunk[i] <= 0x7e {
                    chunk[i] as char
                } else {
                    '.'
                }
            },
{
    reveal_strlit("  ");
    reveal_strlit(" |");
    reveal_strlit("|\n");
    let head = number::padded_hexadecimal(offset, 8);
    assert(vstd::arithmetic::power::pow(16, 8) == 0x1_0000_0000) by {
        reveal_with_fuel(vstd::arithmetic::power::pow, 9);
    }
    number::padded_hexadecimal_reads_back(offset, 8);
    places_show_bytes(chunk, 16);
    let line = dump_line(chunk, offset);
    assert(line.take(8) =~= head);
    assert forall|i: int| 0 <= i < chunk.len() implies {
        &&& 16 * number::digit_meant(line[10 + column(i)]) + number::digit_meant(
            line[10 + column(i) + 1],
        ) == #[trigger] chunk[i]
        &&& line[10 + column(i) + 2] == ' '
        &&& line[61 + i] == if 0x20 <= chunk[i] <= 0x7e { chunk[i] as char } else { '.' }
    } by {
        number::byte_digits_read_back(chunk[i]);
        assert(line[10 + column(i) + 2] == places(chunk, 16)[column(i) + 2]);
        assert(line[10 + column(i)] == places(chunk, 16)[column(i)]);
        assert(line[10 + column(i) + 1] == places(chunk, 16)[column(i) + 1]);
        let marks = chunk.map_values(|byte: u8| visible(byte));
        assert(line[61 + i] == marks[i]);
    }
}

/// Whether a dump whose line for the byte at `index` starts at `at` shows that byte there:
/// the offset of the line, the digits of the byte and its character, with spaces between
/// them and a bar before the characters.
pub open spec fn shows_byte(dumped: Seq<char>, at: int, byte: u8, index: int) -> bool {
    let position = index % 16;
    &&& 0 <= at
    &&& at + 61 + position < dumped.len()
    &&& number::number_meant(dumped.subrange(at, at + 8), 16) == index - position
    &&& 16 * number::digit_meant(dumped[at + 10 + column(position)]) + number::digit_meant(
        dumped[at + 10 + column(position) + 1],
    ) == byte
    &&& dumped[at + 8] == ' ' && dumped[at + 9] == ' '
    &&& dumped[at + 10 + column(position) + 2] == ' '
    &&& dumped[at + 59] == ' ' && dumped[at + 60] == '|'
    &&& dumped[at + 61 + position] == if 0x20 <= byte <= 0x7e {
        byte as char
    } else {
        '.'
    }
}

/// The lines from `start` on show the bytes from there on, one line of seventy-nine
/// characters for every sixteen.
proof fn dump_from_shows_bytes(bytes: Seq<u8>, start: int, index: int)
    requires
        0 <= start <= index < bytes.len(),
        start % 16 == 0,
        bytes.len() <= 0x1_0000_0000,
    ensures
        shows_byte(
            dump_from(bytes, start),
            79 * (index / 16 - start / 16),
            bytes[index],
            index,
        ),
    decreases bytes.len() - start,
{
    let end = line_end(bytes, start);
    let chunk = bytes.subrange(start, end);
    let line = dump_line(chunk, start as nat);
    let rest = dump_from(bytes, end);
    let all = dump_from(bytes, start);
    line_shows_bytes(chunk, start as nat);
    assert(all =~= line + rest);
    if index < end {
        let position = index - start;
        assert(index / 16 == start / 16 && index % 16 == position);
        assert(chunk[position] == bytes[index]);
        assert(all.subrange(0, 8) =~= line.take(8));
        assert(all[10 + column(position)] == line[10 + column(position)]);
        assert(all[10 + column(position) + 1] == line[10 + column(position) + 1]);
        assert(all[10 + column(position) + 2] == line[10 + column(position) + 2]);
        assert(all[8] == line[8] && all[9] == line[9]);
        assert(all[59] == line[59] && all[60] == line[60]);
        assert(all[61 + position] == line[61 + position]);
    } else {
        assert(end == start + 16);
        dump_from_shows_bytes(bytes, end, index);
        let at = 79 * (index / 16 - end / 16);
        let position = index % 16;
        assert(end / 16 == start / 16 + 1);
        assert(line.len() == 79);
        assert(all.subrange(79 + at, 79 + at + 8) =~= rest.subrange(at, at + 8));
        assert(all[79 + at + 10 + column(position)] == rest[at + 10 + column(position)]);
        assert(all[79 + at + 10 + column(position) + 1] == rest[at + 10 + column(position) + 1]);
        assert(all[79 + at + 10 + column(position) + 2] == rest[at + 10 + column(position) + 2]);
        assert(all[79 + at + 8] == rest[at + 8] && all[79 + at + 9] == rest[at + 9]);
        assert(all[79 + at + 59] == rest[at + 59] && all[79 + at + 60] == rest[at + 60]);
        assert(all[79 + at + 61 + position] == rest[at + 61 + position]);
    }
}

/// How many bytes a dump shows: all of them where there is no limit, and no more than the
/// limit otherwise.
pub open spec fn dumped(length: nat, limit: nat) -> nat {
    if limit == 0 || length < limit {
        length
    } else {
        limit
    }
}

/// A dump shows every byte up to the limit at its place: the byte at `index` stands in the
/// line of its sixteen, under their offset, in its column, and its character in the
/// margin.
pub proof fn dump_shows_every_byte(bytes: Seq<u8>, limit: nat, index: int)
    requires
        0 <= index < dumped(bytes.len(), limit),
        bytes.len() <= 0x1_0000_0000,
    ensures
        shows_byte(dump(bytes, limit), 79 * (index / 16), bytes[index], index),
{
    let shown = shown_bytes(bytes, limit);
    let lines = dump_from(shown, 0);
    let all = dump(bytes, limit);
    let at = 79 * (index / 16);
    let position = index % 16;
    assert(shown =~= bytes.take(dumped(bytes.len(), limit) as int));
    dump_from_shows_bytes(shown, 0, index);
    assert(shown[index] == bytes[index]);
    assert(all.subrange(at, at + 8) =~= lines.subrange(at, at + 8));
    assert(all[at + 10 + column(position)] == lines[at + 10 + column(position)]);
    assert(all[at + 10 + column(position) + 1] == lines[at + 10 + column(position) + 1]);
    assert(all[at + 10 + column(position) + 2] == lines[at + 10 + column(position) + 2]);
    assert(all[at + 8] == lines[at + 8] && all[at + 9] == lines[at + 9]);
    assert(all[at + 59] == lines[at + 59] && all[at + 60] == lines[at + 60]);
    assert(all[at + 61 + position] == lines[at + 61 + position]);
}

/// A limited dump is that of the bytes up to the limit, and then a line that says how many
/// are left out.
pub proof fn a_limited_dump_says_what_is_left_out(bytes: Seq<u8>, limit: nat)
    ensures
        0 < limit < bytes.len() ==> dump(bytes, limit) == dump(bytes.take(limit as int), 0) + "… "@
            + number::decimal((bytes.len() - limit) as nat)
            + " more bytes (use --limit 0 for all)\n"@,
        limit >= bytes.len() ==> dump(bytes, limit) == dump(bytes, 0),
{
    if 0 < limit < bytes.len() {
        let front = bytes.take(limit as int);
        assert(dump(front, 0) =~= dump_from(front, 0));
        assert(dump(bytes, limit) =~= dump(front, 0) + "… "@ + number::decimal(
            (bytes.len() - limit) as nat,
        ) + " more bytes (use --limit 0 for all)\n"@);
    }
}

/// A preview of data gives its length and its first bytes.
pub proof fn data_is_previewed_from_its_beginning(data: &[u8], shown: String, index: int)
    requires
        call_ensures(data_preview, (data,), shown),
        0 <= index < data@.len(),
        index < 16,
    ensures
        ({
            let head = "<"@ + number::decimal(data@.len()) + " bytes> "@;
            let at = head.len() + 2 * index;
            &&& shown@.take(head.len() as int) == head
            &&& 16 * number::digit_meant(shown@[at]) + number::digit_meant(shown@[at + 1])
                == data@[index]
        }),
{
    preview_shows_the_beginning(data@);
    assert(preview_head(data@.len()) == "<"@ + number::decimal(data@.len()) + " bytes> "@);
    assert(data@[index] == data@[index]);
}

/// Data as a scalar is its preview, and a reference stands between `<uid ` and `>`.
pub proof fn data_and_references_read_as_such(data: &[u8], shown: String, uid: u64)
    requires
        call_ensures(data_preview, (data,), shown),
    ensures
        scalar_text(ValueModel::Data(data@)) == shown@,
        scalar_text(ValueModel::Uid(uid)) == "<uid "@ + number::decimal(uid as nat) + ">"@,
{
}

/// What is rendered of a value is what its scalar reads as, on a line, where it holds
/// nothing, and otherwise its entries or its items, without indentation.
pub proof fn rendering_starts_at_the_margin(value: &Value, lines: String, shown: String)
    requires
        call_ensures(render, (value,), lines),
        call_ensures(scalar, (value,), shown),
    ensures
        lines@ == rendered(value@, Seq::empty()),
        !holds_something(value@) ==> lines@ == shown@ + "\n"@,
{
    assert(Seq::<char>::empty() =~= seq![]);
    if !holds_something(value@) {
        a_scalar_renders_on_one_line(value@, Seq::empty());
        assert(lines@ =~= shown@ + "\n"@);
    }
}

/// A dump of bytes shows every one of them up to the limit at its place.
pub proof fn a_hexdump_shows_every_byte(bytes: &[u8], limit: usize, lines: String, index: int)
    requires
        call_ensures(hexdump, (bytes, limit), lines),
        0 <= index < bytes@.len(),
        limit == 0 || index < limit,
        bytes@.len() <= 0x1_0000_0000,
    ensures
        shows_byte(lines@, 79 * (index / 16), bytes@[index], index),
{
    dump_shows_every_byte(bytes@, limit as nat, index);
}

/// A dump without a limit is as long as its lines: seventy-nine characters for every
/// sixteen bytes, and sixty-three with one more for each byte where the last line is
/// shorter. Every line ends with a bar behind its characters.
pub proof fn a_dump_is_as_long_as_its_lines(bytes: Seq<u8>)
    requires
        bytes.len() <= 0x1_0000_0000,
    ensures
        dump(bytes, 0).len() == 79 * (bytes.len() / 16) + if bytes.len() % 16 > 0 {
            63 + bytes.len() % 16
        } else {
            0
        },
        bytes.len() > 0 ==> dump(bytes, 0).last() == '\n' && dump(bytes, 0)[dump(bytes, 0).len()
            - 2] == '|',
{
    dump_from_length(bytes, 0);
    assert(dump(bytes, 0) =~= dump_from(bytes, 0));
}

/// The lines from `start` on are as long as they are.
proof fn dump_from_length(bytes: Seq<u8>, start: int)
    requires
        0 <= start <= bytes.len(),
        start % 16 == 0,
        bytes.len() <= 0x1_0000_0000,
    ensures
        ({
            let count = bytes.len() - start;
            let lines = dump_from(bytes, start);
            &&& lines.len() == 79 * (count / 16) + if count % 16 > 0 {
                63 + count % 16
            } else {
                0
            }
            &&& count > 0 ==> lines.last() == '\n' && lines[lines.len() - 2] == '|'
        }),
    decreases bytes.len() - start,
{
    if start < bytes.len() {
        let end = line_end(bytes, start);
        let chunk = bytes.subrange(start, end);
        let line = dump_line(chunk, start as nat);
        let rest = dump_from(bytes, end);
        let lines = dump_from(bytes, start);
        line_is_framed(chunk, start as nat);
        assert(lines == line + rest);
        if end < bytes.len() {
            let count = bytes.len() - start;
            dump_from_length(bytes, end);
            assert(chunk.len() == 16);
            assert((count - 16) / 16 == count / 16 - 1);
            assert((count - 16) % 16 == count % 16);
            assert(lines[lines.len() - 1] == rest[rest.len() - 1]);
            assert(lines[lines.len() - 2] == rest[rest.len() - 2]);
        } else {
            assert(rest =~= seq![]);
            assert(lines =~= line);
        }
    }
}

/// A line of a dump ends behind a bar.
proof fn line_is_framed(chunk: Seq<u8>, offset: nat)
    requires
        0 < chunk.len() <= 16,
        offset < 0x1_0000_0000,
    ensures
        dump_line(chunk, offset).len() == 63 + chunk.len(),
        dump_line(chunk, offset).last() == '\n',
        dump_line(chunk, offset)[dump_line(chunk, offset).len() - 2] == '|',
{
    line_shows_bytes(chunk, offset);
}

} // verus!
