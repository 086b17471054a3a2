//! Rendering a change set.
//!
//! Uses the `+` / `-` / `~` vocabulary of a patch, with key-level changes nested
//! under the file they belong to, so the answer to "what did the app just write"
//! reads top to bottom.

use vstd::prelude::*;
use crate::diff;
use crate::diff::{Change, ChangeSet, FileChange, FileChangeModel, KeyChange, KeyChangeModel};
use crate::json;
use crate::json::{Json, JsonModel, Number, NumberModel};
use crate::number;
use crate::number::{integer_of, push_decimal};
use crate::text;
use crate::text::quote;
use crate::ui;
use crate::ui::{push_styled, Color, Style};

verus! {

impl Change {
    /// The single character marking this kind of change.
    pub open spec fn mark(self) -> char {
        match self {
            Change::Added => '+',
            Change::Removed => '-',
            Change::Modified => '~',
        }
    }

    /// The single character marking this kind of change.
    pub fn marker(self) -> (marker: char)
        ensures
            marker == self.mark(),
    {
        match self {
            Change::Added => '+',
            Change::Removed => '-',
            Change::Modified => '~',
        }
    }

    /// The style for this kind of change.
    pub open spec fn look(self) -> Style {
        Style {
            bold: true,
            dimmed: false,
            color: Some(
                match self {
                    Change::Added => Color::Green,
                    Change::Removed => Color::Red,
                    Change::Modified => Color::Yellow,
                },
            ),
        }
    }

    /// The style for this kind of change.
    pub fn style(self) -> (style: Style)
        ensures
            style == self.look(),
    {
        let color = match self {
            Change::Added => Color::Green,
            Change::Removed => Color::Red,
            Change::Modified => Color::Yellow,
        };
        Style { bold: true, dimmed: false, color: Some(color) }
    }
}

/// A number as it is shown.
pub open spec fn number_text(n: NumberModel) -> Seq<char> {
    match n {
        NumberModel::PosInt(n) => number::decimal(n as nat),
        NumberModel::NegInt(n) => number::integer(n as int),
        NumberModel::Float(_, text) => text,
    }
}

/// A value compactly enough to sit on one line.
///
/// Containers are summarised rather than expanded: a diff line reports *that* a
/// subtree changed, and the keys beneath it are reported on their own lines.
pub open spec fn scalar_text(value: JsonModel) -> Seq<char> {
    match value {
        JsonModel::Null => "null"@,
        JsonModel::Bool(b) => if b { "true"@ } else { "false"@ },
        JsonModel::Number(n) => number_text(n),
        JsonModel::String(s) => text::quoted(s),
        JsonModel::Array(items) => "["@ + number::decimal(items.len()) + " items]"@,
        JsonModel::Object(entries) => "{"@ + number::decimal(entries.len()) + " keys}"@,
    }
}

/// The values of a changed key.
pub open spec fn values_text(before: Option<JsonModel>, after: Option<JsonModel>) -> Seq<char> {
    match (before, after) {
        (Some(old), Some(new)) => ": "@ + scalar_text(old) + " → "@ + scalar_text(new),
        (None, Some(new)) => ": "@ + scalar_text(new),
        (Some(old), None) => ": "@ + scalar_text(old),
        (None, None) => ""@,
    }
}

/// One changed key.
pub open spec fn key_line(key: KeyChangeModel) -> Seq<char> {
    let label = if key.key.len() == 0 {
        "(root)"@
    } else {
        key.key
    };
    "  "@ + ui::styled(key.change.look(), seq![key.change.mark()] + " "@ + label) + values_text(
        key.before,
        key.after,
    ) + "\n"@
}

/// The changed keys of a file.
pub open spec fn key_lines(keys: Seq<KeyChangeModel>) -> Seq<char>
    decreases keys.len(),
{
    if keys.len() == 0 {
        seq![]
    } else {
        key_lines(keys.drop_last()) + key_line(keys.last())
    }
}

/// What is said of the size of a changed file.
pub open spec fn size_text(before: Option<u64>, after: Option<u64>) -> Seq<char> {
    match (before, after) {
        (Some(old), Some(new)) => if old != new {
            " "@ + ui::styled(
                ui::dim_style(),
                "("@ + number::decimal(old as nat) + " → "@ + number::decimal(new as nat)
                    + " bytes)"@,
            )
        } else {
            ""@
        },
        (None, Some(size)) => " "@ + ui::styled(
            ui::dim_style(),
            "("@ + number::decimal(size as nat) + " bytes)"@,
        ),
        (Some(size), None) => " "@ + ui::styled(
            ui::dim_style(),
            "("@ + number::decimal(size as nat) + " bytes)"@,
        ),
        (None, None) => ""@,
    }
}

/// What is said of the keys of a changed file. Where the bytes differ but the
/// decoded content does not, that is worth saying, rather than leaving a bare
/// "modified" with nothing under it.
pub open spec fn detail_text(keys: Option<Seq<KeyChangeModel>>) -> Seq<char> {
    match keys {
        Some(changes) => if changes.len() == 0 {
            "  "@ + ui::styled(ui::dim_style(), "contents differ but decode identically"@) + "\n"@
        } else {
            key_lines(changes)
        },
        None => ""@,
    }
}

/// One changed file and any key detail beneath it.
pub open spec fn file_lines(file: FileChangeModel) -> Seq<char> {
    ui::styled(file.change.look(), seq![file.change.mark()] + " "@ + file.path) + size_text(
        file.size_before,
        file.size_after,
    ) + "\n"@ + detail_text(file.keys)
}

/// The changed files.
pub open spec fn all_lines(files: Seq<FileChangeModel>) -> Seq<char>
    decreases files.len(),
{
    if files.len() == 0 {
        seq![]
    } else {
        all_lines(files.drop_last()) + file_lines(files.last())
    }
}

/// A change set as it is shown.
pub open spec fn rendered(changes: ChangeSet) -> Seq<char> {
    if changes.files@.len() == 0 {
        "no changes in "@ + changes.group_id@ + " between "@ + changes.before@ + " and "@
            + changes.after@ + "\n"@
    } else {
        all_lines(diff::file_models(changes.files@))
    }
}

/// Renders a change set.
pub fn render(changes: &ChangeSet) -> (lines: String)
    ensures
        lines@ == rendered(*changes),
{
    let mut out = String::new();
    if changes.is_empty() {
        out.push_str("no changes in ");
        out.push_str(changes.group_id.as_str());
        out.push_str(" between ");
        out.push_str(changes.before.as_str());
        out.push_str(" and ");
        out.push_str(changes.after.as_str());
        out.push_str("\n");
        assert(out@ =~= rendered(*changes));
        return out;
    }
    let ghost all = diff::file_models(changes.files@);
    let mut i: usize = 0;
    assert(out@ =~= all_lines(all.take(0)));
    while i < changes.files.len()
        invariant
            i <= changes.files@.len(),
            all == diff::file_models(changes.files@),
            out@ == all_lines(all.take(i as int)),
        decreases changes.files@.len() - i,
    {
        assert(all.take(i + 1).drop_last() =~= all.take(i as int));
        assert(all.take(i + 1).last() == changes.files@[i as int]@);
        render_file(&mut out, &changes.files[i]);
        i += 1;
    }
    assert(all.take(i as int) =~= all);
    out
}

/// Renders one changed file and any key detail beneath it.
fn render_file(out: &mut String, file: &FileChange)
    ensures
        final(out)@ == old(out)@ + file_lines(file@),
{
    let ghost start = out@;
    let mut title = String::new();
    title.push(file.change.marker());
    title.push_str(" ");
    title.push_str(file.path.as_str());
    push_styled(out, file.change.style(), title.as_str());
    let ghost titled = out@;
    assert(titled =~= start + ui::styled(
        file.change.look(),
        seq![file.change.mark()] + " "@ + file.path@,
    ));
    push_size(out, file.size_before, file.size_after);
    out.push_str("\n");
    let ghost top = out@;
    match &file.keys {
        Some(keys) => {
            let ghost all = diff::key_models(keys@);
            if keys.len() == 0 {
                // Bytes differ but the decoded content does not — worth saying so
                // rather than leaving a bare "modified" with nothing under it.
                out.push_str("  ");
                push_styled(
                    out,
                    Style { bold: false, dimmed: true, color: None },
                    "contents differ but decode identically",
                );
                out.push_str("\n");
            } else {
                let mut i: usize = 0;
                assert(out@ =~= top + key_lines(all.take(0)));
                while i < keys.len()
                    invariant
                        i <= keys@.len(),
                        all == diff::key_models(keys@),
                        out@ == top + key_lines(all.take(i as int)),
                    decreases keys@.len() - i,
                {
                    assert(all.take(i + 1).drop_last() =~= all.take(i as int));
                    assert(all.take(i + 1).last() == keys@[i as int]@);
                    render_key(out, &keys[i]);
                    assert(out@ =~= top + key_lines(all.take(i + 1)));
                    i += 1;
                }
                assert(all.take(i as int) =~= all);
            }
            assert(out@ =~= top + detail_text(Some(all)));
        },
        None => {
            out.push_str("");
            assert(out@ =~= top + detail_text(None));
        },
    }
    assert(out@ =~= start + file_lines(file@));
}

/// Appends what is said of the size of a changed file.
fn push_size(out: &mut String, before: Option<u64>, after: Option<u64>)
    ensures
        final(out)@ == old(out)@ + size_text(before, after),
{
    let ghost start = out@;
    let mut note = "(".to_string();
    match (before, after) {
        (Some(old), Some(new)) => {
            if old == new {
                out.push_str("");
                return ;
            }
            push_decimal(&mut note, old as u128);
            note.push_str(" → ");
            push_decimal(&mut note, new as u128);
        },
        (None, Some(size)) => {
            push_decimal(&mut note, size as u128);
        },
        (Some(size), None) => {
            push_decimal(&mut note, size as u128);
        },
        (None, None) => {
            out.push_str("");
            return ;
        },
    }
    note.push_str(" bytes)");
    out.push_str(" ");
    push_styled(out, Style { bold: false, dimmed: true, color: None }, note.as_str());
    assert(out@ =~= start + size_text(before, after));
}

/// Renders one changed key.
fn render_key(out: &mut String, key: &KeyChange)
    ensures
        final(out)@ == old(out)@ + key_line(key@),
{
    let ghost start = out@;
    let mut title = String::new();
    title.push(key.change.marker());
    title.push_str(" ");
    if key.key.as_str().is_empty() {
        title.push_str("(root)");
    } else {
        title.push_str(key.key.as_str());
    }
    out.push_str("  ");
    push_styled(out, key.change.style(), title.as_str());
    let ghost titled = out@;
    match (&key.before, &key.after) {
        (Some(before), Some(after)) => {
            out.push_str(": ");
            out.push_str(scalar(before).as_str());
            out.push_str(" → ");
            out.push_str(scalar(after).as_str());
        },
        (None, Some(after)) => {
            out.push_str(": ");
            out.push_str(scalar(after).as_str());
        },
        (Some(before), None) => {
            out.push_str(": ");
            out.push_str(scalar(before).as_str());
        },
        (None, None) => {
            out.push_str("");
        },
    }
    assert(out@ =~= titled + values_text(key@.before, key@.after));
    out.push_str("\n");
    assert(out@ =~= start + key_line(key@));
}

/// Formats a value compactly enough to sit on one line.
///
/// Containers are summarised rather than expanded: a diff line reports *that* a
/// subtree changed, and the keys beneath it are reported on their own lines.
pub fn scalar(value: &Json) -> (shown: String)
    ensures
        shown@ == scalar_text(value@),
{
    match value {
        Json::Null => "null".to_string(),
        Json::Bool(value) => if *value {
            "true".to_string()
        } else {
            "false".to_string()
        },
        Json::Number(Number::PosInt(n)) => {
            let mut shown = String::new();
            push_decimal(&mut shown, *n as u128);
            assert(shown@ =~= number::decimal(*n as nat));
            shown
        },
        Json::Number(Number::NegInt(n)) => integer_of(*n as i128),
        Json::Number(Number::Float { bits: _, text }) => text.clone(),
        Json::String(value) => quote(value.as_str()),
        Json::Array(items) => {
            proof {
                json::array_view(*items);
            }
            let mut shown = "[".to_string();
            push_decimal(&mut shown, items.len() as u128);
            shown.push_str(" items]");
            shown
        },
        Json::Object(map) => {
            proof {
                json::object_view(*map);
            }
            let mut shown = "{".to_string();
            push_decimal(&mut shown, map.entries.len() as u128);
            shown.push_str(" keys}");
            shown
        },
    }
}

// ---------------------------------------------------------------------------
// Laws
// ---------------------------------------------------------------------------

/// What was added is marked with a green plus sign, what was removed with a red minus
/// sign, and what was modified with a yellow tilde, all in bold.
pub proof fn changes_are_marked(change: Change, marker: char, style: Style)
    requires
        call_ensures(Change::marker, (change,), marker),
        call_ensures(Change::style, (change,), style),
    ensures
        change == Change::Added ==> marker == '+' && style.color == Some(Color::Green),
        change == Change::Removed ==> marker == '-' && style.color == Some(Color::Red),
        change == Change::Modified ==> marker == '~' && style.color == Some(Color::Yellow),
        style.bold && !style.dimmed,
{
}

/// A value is shown as what it is: a boolean in a word, an integer in digits that read
/// back as it, a double in its text, a text in quotes, and a container by how much it
/// holds.
pub proof fn values_are_shown_as_what_they_are(value: &Json, shown: String)
    requires
        call_ensures(scalar, (value,), shown),
    ensures
        value@ is Null ==> shown@ == "null"@,
        value@ matches JsonModel::Bool(b) ==> shown@ == if b {
            "true"@
        } else {
            "false"@
        },
        value@ matches JsonModel::Number(NumberModel::PosInt(n)) ==> number::number_meant(
            shown@,
            10,
        ) == n,
        value@ matches JsonModel::Number(NumberModel::NegInt(n)) ==> n < 0 ==> shown@.len() > 0
            && shown@[0] == '-' && number::number_meant(shown@.skip(1), 10) == -n,
        value@ matches JsonModel::Number(NumberModel::Float(_, text)) ==> shown@ == text,
        value@ matches JsonModel::String(s) ==> shown@ == text::quoted(s),
        value@ matches JsonModel::Array(items) ==> shown@ == "["@ + number::decimal(items.len())
            + " items]"@,
        value@ matches JsonModel::Object(entries) ==> shown@ == "{"@ + number::decimal(
            entries.len(),
        ) + " keys}"@,
{
    match value@ {
        JsonModel::Number(NumberModel::PosInt(n)) => number::decimal_reads_back(n as nat),
        JsonModel::Number(NumberModel::NegInt(n)) => number::integer_reads_back(n as int),
        _ => {},
    }
}

/// The line of a key: two spaces, its mark and its path, and then what it was, an arrow
/// and what it is now, or the one of them there is. The root has no path and is named.
pub proof fn a_key_is_shown_with_what_it_was_and_is(
    key: KeyChangeModel,
    old: JsonModel,
    new: JsonModel,
)
    ensures
        ({
            let name = if key.key.len() == 0 {
                "(root)"@
            } else {
                key.key
            };
            let title = "  "@ + ui::styled(
                key.change.look(),
                seq![key.change.mark()] + seq![' '] + name,
            );
            &&& key.before == Some(old) && key.after == Some(new) ==> key_line(key) == title + ": "@
                + scalar_text(old) + " → "@ + scalar_text(new) + "\n"@
            &&& key.before is None && key.after == Some(new) ==> key_line(key) == title + ": "@
                + scalar_text(new) + "\n"@
            &&& key.before == Some(old) && key.after is None ==> key_line(key) == title + ": "@
                + scalar_text(old) + "\n"@
        }),
{
    reveal_strlit(" ");
    let name = if key.key.len() == 0 {
        "(root)"@
    } else {
        key.key
    };
    let mark = seq![key.change.mark()];
    assert(mark + " "@ + name =~= mark + seq![' '] + name);
    let title = "  "@ + ui::styled(key.change.look(), mark + seq![' '] + name);
    if key.before == Some(old) && key.after == Some(new) {
        assert(key_line(key) =~= title + ": "@ + scalar_text(old) + " → "@ + scalar_text(new)
            + "\n"@);
    } else if key.before is None && key.after == Some(new) {
        assert(key_line(key) =~= title + ": "@ + scalar_text(new) + "\n"@);
    } else if key.before == Some(old) && key.after is None {
        assert(key_line(key) =~= title + ": "@ + scalar_text(old) + "\n"@);
    }
}

/// Keys are shown line by line, in order.
pub proof fn keys_are_shown_in_order(
    a: Seq<KeyChangeModel>,
    b: Seq<KeyChangeModel>,
    key: KeyChangeModel,
)
    ensures
        key_lines(a + b) == key_lines(a) + key_lines(b),
        key_lines(seq![key]) == key_line(key),
        key_lines(Seq::empty()) == Seq::<char>::empty(),
    decreases b.len(),
{
    reveal_with_fuel(key_lines, 2);
    assert(seq![key].drop_last() =~= Seq::<KeyChangeModel>::empty());
    assert(key_lines(seq![key]) =~= key_line(key));
    if b.len() == 0 {
        assert(a + b =~= a);
        assert(key_lines(a) + key_lines(b) =~= key_lines(a));
    } else {
        keys_are_shown_in_order(a, b.drop_last(), key);
        assert((a + b).drop_last() =~= a + b.drop_last());
        assert((a + b).last() == b.last());
        assert(key_lines(a + b) =~= key_lines(a) + key_lines(b));
    }
}

/// Files are shown one after another, in order.
pub proof fn files_are_shown_in_order(
    a: Seq<FileChangeModel>,
    b: Seq<FileChangeModel>,
    file: FileChangeModel,
)
    ensures
        all_lines(a + b) == all_lines(a) + all_lines(b),
        all_lines(seq![file]) == file_lines(file),
        all_lines(Seq::empty()) == Seq::<char>::empty(),
    decreases b.len(),
{
    reveal_with_fuel(all_lines, 2);
    assert(seq![file].drop_last() =~= Seq::<FileChangeModel>::empty());
    assert(all_lines(seq![file]) =~= file_lines(file));
    if b.len() == 0 {
        assert(a + b =~= a);
        assert(all_lines(a) + all_lines(b) =~= all_lines(a));
    } else {
        files_are_shown_in_order(a, b.drop_last(), file);
        assert((a + b).drop_last() =~= a + b.drop_last());
        assert((a + b).last() == b.last());
        assert(all_lines(a + b) =~= all_lines(a) + all_lines(b));
    }
}

/// A file is shown by its mark and its path on a line, with its size in bytes, or both
/// sizes where they differ, the one it had first, and below it the lines of its keys. A
/// file whose keys are all the same is said to decode identically.
pub proof fn a_file_is_shown_with_its_sizes(file: FileChangeModel, old: u64, new: u64)
    ensures
        ({
            let title = ui::styled(
                file.change.look(),
                seq![file.change.mark()] + seq![' '] + file.path,
            );
            let below = detail_text(file.keys);
            &&& file.size_before == Some(old) && file.size_after == Some(new) && old != new
                ==> file_lines(file) == title + " "@ + ui::styled(
                ui::dim_style(),
                "("@ + number::decimal(old as nat) + " → "@ + number::decimal(new as nat)
                    + " bytes)"@,
            ) + "\n"@ + below
            &&& file.size_before == Some(old) && file.size_after == Some(old) ==> file_lines(file)
                == title + "\n"@ + below
            &&& file.size_before is None && file.size_after == Some(new) ==> file_lines(file)
                == title + " "@ + ui::styled(
                ui::dim_style(),
                "("@ + number::decimal(new as nat) + " bytes)"@,
            ) + "\n"@ + below
            &&& file.size_before == Some(old) && file.size_after is None ==> file_lines(file)
                == title + " "@ + ui::styled(
                ui::dim_style(),
                "("@ + number::decimal(old as nat) + " bytes)"@,
            ) + "\n"@ + below
            &&& file.keys is None ==> below.len() == 0
            &&& file.keys matches Some(keys) ==> if keys.len() == 0 {
                below == "  "@ + ui::styled(
                    ui::dim_style(),
                    "contents differ but decode identically"@,
                ) + "\n"@
            } else {
                below == key_lines(keys)
            }
        }),
{
    reveal_strlit(" ");
    reveal_strlit("");
    let mark = seq![file.change.mark()];
    assert(mark + " "@ + file.path =~= mark + seq![' '] + file.path);
    let title = ui::styled(file.change.look(), mark + seq![' '] + file.path);
    let below = detail_text(file.keys);
    if file.size_before == Some(old) && file.size_after == Some(new) && old != new {
        assert(file_lines(file) =~= title + " "@ + ui::styled(
            ui::dim_style(),
            "("@ + number::decimal(old as nat) + " → "@ + number::decimal(new as nat)
                + " bytes)"@,
        ) + "\n"@ + below);
    } else if file.size_before == Some(old) && file.size_after == Some(old) {
        assert(file_lines(file) =~= title + "\n"@ + below);
    } else if file.size_before is None && file.size_after == Some(new) {
        assert(file_lines(file) =~= title + " "@ + ui::styled(
            ui::dim_style(),
            "("@ + number::decimal(new as nat) + " bytes)"@,
        ) + "\n"@ + below);
    } else if file.size_before == Some(old) && file.size_after is None {
        assert(file_lines(file) =~= title + " "@ + ui::styled(
            ui::dim_style(),
            "("@ + number::decimal(old as nat) + " bytes)"@,
        ) + "\n"@ + below);
    }
}

/// A change set shows its files, all of them in order, or says that there are no changes,
/// of which group and between which two moments.
pub proof fn a_change_set_shows_its_files(changes: &ChangeSet, lines: String)
    requires
        call_ensures(render, (changes,), lines),
    ensures
        changes.files@.len() > 0 ==> lines@ == all_lines(
            Seq::new(changes.files@.len(), |i: int| changes.files@[i]@),
        ),
        changes.files@.len() == 0 ==> lines@ == "no changes in "@ + changes.group_id@
            + " between "@ + changes.before@ + " and "@ + changes.after@ + "\n"@,
{
    assert(diff::file_models(changes.files@) =~= Seq::new(
        changes.files@.len(),
        |i: int| changes.files@[i]@,
    ));
}

} // verus!
