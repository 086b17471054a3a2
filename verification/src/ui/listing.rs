//! What each command shows: devices, groups, entries, and the contents of a file.

use vstd::prelude::*;
use crate::decode::{Body, Decoded};
use crate::discover::{AppGroup, Device, DeviceModel};
use crate::number;
use crate::number::push_decimal;
use crate::order;
use crate::path;
use crate::source::sim::{Entry, EntryKind};
use crate::text;
use crate::ui;
use crate::ui::tree;
use crate::ui::tree::{Node, NodeModel};
use crate::ui::value;
use crate::ui::value::hexdump;
use crate::ui::{table, Column, ColumnModel};

verus! {

// ---------------------------------------------------------------------------
// Devices and groups
// ---------------------------------------------------------------------------

/// The columns of a list of devices.
pub open spec fn device_columns() -> Seq<ColumnModel> {
    seq![
        ColumnModel { header: "NAME"@, dim: false },
        ColumnModel { header: "RUNTIME"@, dim: false },
        ColumnModel { header: "STATE"@, dim: false },
        ColumnModel { header: "UDID"@, dim: true },
    ]
}

/// One row for each device.
pub open spec fn device_rows(devices: Seq<DeviceModel>) -> Seq<Seq<Seq<char>>> {
    Seq::new(
        devices.len(),
        |i: int| seq![devices[i].name, devices[i].runtime, devices[i].state, devices[i].udid],
    )
}

/// A list of devices, or a line saying that there are none.
pub open spec fn devices_text(devices: Seq<DeviceModel>) -> Seq<char> {
    if devices.len() == 0 {
        "No simulators available.\n"@
    } else {
        ui::table_text(device_columns(), device_rows(devices))
    }
}

/// Lists every inspectable simulator.
pub fn devices(found: &[Device]) -> (shown: String)
    ensures
        shown@ == devices_text(order::views(found@)),
{
    if found.len() == 0 {
        return "No simulators available.\n".to_string();
    }
    let ghost all = device_rows(order::views(found@));
    let mut rows: Vec<Vec<String>> = Vec::new();
    let mut i: usize = 0;
    assert(ui::row_views(rows@) =~= all.take(0));
    while i < found.len()
        invariant
            i <= found@.len(),
            all == device_rows(order::views(found@)),
            ui::row_views(rows@) == all.take(i as int),
        decreases found@.len() - i,
    {
        let ghost before = ui::row_views(rows@);
        let mut row: Vec<String> = Vec::new();
        row.push(found[i].name.clone());
        row.push(found[i].runtime.clone());
        row.push(found[i].state.clone());
        row.push(found[i].udid.clone());
        assert(text::texts(row@) =~= all[i as int]);
        rows.push(row);
        assert(ui::row_views(rows@) =~= before.push(all[i as int]));
        assert(ui::row_views(rows@) =~= all.take(i + 1));
        i += 1;
    }
    assert(all.take(i as int) =~= all);
    let mut columns: Vec<Column> = Vec::new();
    columns.push(Column::new("NAME"));
    columns.push(Column::new("RUNTIME"));
    columns.push(Column::new("STATE"));
    columns.push(Column::dim("UDID"));
    assert(order::views(columns@) =~= device_columns());
    table(columns.as_slice(), rows.as_slice())
}

/// The columns of a list of groups.
pub open spec fn group_columns() -> Seq<ColumnModel> {
    seq![
        ColumnModel { header: "GROUP"@, dim: false },
        ColumnModel { header: "PATH"@, dim: true },
    ]
}

/// One row for each group: its identifier and its path.
pub open spec fn group_rows(groups: Seq<(Seq<char>, Seq<char>)>) -> Seq<Seq<Seq<char>>> {
    Seq::new(groups.len(), |i: int| seq![groups[i].0, groups[i].1])
}

/// Lists the App Groups declared by an installed app.
pub fn groups(found: &[AppGroup]) -> (shown: String)
    ensures
        shown@ == ui::table_text(group_columns(), group_rows(order::views(found@))),
{
    let ghost all = group_rows(order::views(found@));
    let mut rows: Vec<Vec<String>> = Vec::new();
    let mut i: usize = 0;
    assert(ui::row_views(rows@) =~= all.take(0));
    while i < found.len()
        invariant
            i <= found@.len(),
            all == group_rows(order::views(found@)),
            ui::row_views(rows@) == all.take(i as int),
        decreases found@.len() - i,
    {
        let ghost before = ui::row_views(rows@);
        let mut row: Vec<String> = Vec::new();
        row.push(found[i].id.clone());
        row.push(found[i].path.clone());
        assert(text::texts(row@) =~= all[i as int]);
        rows.push(row);
        assert(ui::row_views(rows@) =~= before.push(all[i as int]));
        assert(ui::row_views(rows@) =~= all.take(i + 1));
        i += 1;
    }
    assert(all.take(i as int) =~= all);
    let mut columns: Vec<Column> = Vec::new();
    columns.push(Column::new("GROUP"));
    columns.push(Column::dim("PATH"));
    assert(order::views(columns@) =~= group_columns());
    table(columns.as_slice(), rows.as_slice())
}

// ---------------------------------------------------------------------------
// Entries
// ---------------------------------------------------------------------------

/// What the size column says of an entry: nothing for a directory, the reason for
/// one that could not be read, and the size in bytes for the others.
pub open spec fn detail_text(entry: Entry) -> Seq<char> {
    match entry.kind {
        EntryKind::Dir => seq![],
        EntryKind::Unreadable => match entry.error {
            Some(reason) => reason@,
            None => seq![],
        },
        _ => number::decimal(entry.size as nat) + " B"@,
    }
}

/// The line of a tree that shows an entry, with its time written out.
pub open spec fn entry_node(entry: Entry, time: Seq<char>) -> NodeModel {
    NodeModel {
        depth: entry.depth as nat,
        name: match path::file_name(entry.path@) {
            Some(name) => name,
            None => entry.path@,
        },
        detail: detail_text(entry),
        modified: time,
    }
}

/// The lines of a tree that shows entries.
pub open spec fn entry_nodes(entries: Seq<Entry>, times: Seq<Seq<char>>) -> Seq<NodeModel> {
    Seq::new(entries.len(), |i: int| entry_node(entries[i], times[i]))
}

/// What the size column says of an entry.
fn detail_of(entry: &Entry) -> (detail: String)
    ensures
        detail@ == detail_text(*entry),
{
    match entry.kind {
        EntryKind::Dir => String::new(),
        EntryKind::Unreadable => match &entry.error {
            Some(reason) => reason.clone(),
            None => String::new(),
        },
        _ => {
            let mut detail = String::new();
            push_decimal(&mut detail, entry.size as u128);
            detail.push_str(" B");
            assert(detail@ =~= number::decimal(entry.size as nat) + " B"@);
            detail
        },
    }
}

/// Shows the entries of a walk as a tree, each with the time that `times` holds for
/// it.
pub fn entries(root_label: &str, found: &[Entry], times: &[String]) -> (shown: String)
    requires
        found@.len() == times@.len(),
    ensures
        shown@ == ui::table_text(
            tree::tree_columns(),
            tree::tree_rows(root_label@, entry_nodes(found@, text::texts(times@))),
        ),
{
    let ghost all = entry_nodes(found@, text::texts(times@));
    let mut names: Vec<String> = Vec::new();
    let mut i: usize = 0;
    while i < found.len()
        invariant
            i <= found@.len(),
            found@.len() == times@.len(),
            all == entry_nodes(found@, text::texts(times@)),
            names@.len() == i,
            forall|k: int| 0 <= k < i ==> (#[trigger] names@[k])@ == all[k].name,
        decreases found@.len() - i,
    {
        names.push(found[i].name());
        i += 1;
    }
    let mut nodes: Vec<Node> = Vec::new();
    let mut k: usize = 0;
    assert(order::views(nodes@) =~= all.take(0));
    while k < found.len()
        invariant
            k <= found@.len(),
            found@.len() == times@.len(),
            names@.len() == found@.len(),
            all == entry_nodes(found@, text::texts(times@)),
            forall|j: int| 0 <= j < names@.len() ==> (#[trigger] names@[j])@ == all[j].name,
            order::views(nodes@) == all.take(k as int),
        decreases found@.len() - k,
    {
        let ghost before = order::views(nodes@);
        let node = Node {
            depth: found[k].depth,
            name: names[k].as_str(),
            detail: detail_of(&found[k]),
            modified: times[k].clone(),
        };
        assert(node@ == all[k as int]);
        nodes.push(node);
        assert(order::views(nodes@) =~= before.push(all[k as int]));
        assert(order::views(nodes@) =~= all.take(k + 1));
        k += 1;
    }
    assert(all.take(k as int) =~= all);
    tree::render(root_label, nodes.as_slice())
}

// ---------------------------------------------------------------------------
// The contents of a file
// ---------------------------------------------------------------------------

/// A note on a line of its own; nothing where there is none.
pub open spec fn note_line(note: Option<String>) -> Seq<char> {
    match note {
        Some(said) => said@ + "\n"@,
        None => seq![],
    }
}

/// The contents of a file: the decoded value or text, or else a hexdump under a line
/// that says why there is no more.
pub open spec fn contents_text(decoded: Decoded, bytes: Seq<u8>, limit: nat) -> Seq<char> {
    match decoded.body {
        Body::Value(found) => value::rendered(found@, seq![]),
        Body::Text(found) => found@,
        Body::Opaque => note_line(decoded.note) + value::dump(bytes, limit),
    }
}

/// Shows what the bytes of a file were decoded to, and dumps the bytes where they
/// were not.
pub fn contents(decoded: &Decoded, bytes: &[u8], limit: usize) -> (shown: String)
    ensures
        shown@ == contents_text(*decoded, bytes@, limit as nat),
{
    match &decoded.body {
        Body::Value(found) => value::render(found),
        Body::Text(found) => found.clone(),
        Body::Opaque => {
            let mut shown = String::new();
            if let Some(note) = &decoded.note {
                shown.push_str(note.as_str());
                shown.push_str("\n");
            }
            shown.push_str(hexdump(bytes, limit).as_str());
            assert(shown@ =~= contents_text(*decoded, bytes@, limit as nat));
            shown
        },
    }
}

/// Where a group keeps its shared defaults, below the root of its container.
pub open spec fn defaults_place(group_id: Seq<char>) -> Seq<char> {
    "Library/Preferences/"@ + group_id + ".plist"@
}

/// Where a group keeps its shared defaults, below the root of its container.
pub fn defaults_path(group_id: &str) -> (path: String)
    ensures
        path@ == defaults_place(group_id@),
{
    let mut path = "Library/Preferences/".to_string();
    path.push_str(group_id);
    path.push_str(".plist");
    path
}

// ---------------------------------------------------------------------------
// Laws
// ---------------------------------------------------------------------------

/// Whether a text is a table of the columns, with the rows that `row` gives for each
/// place.
pub open spec fn tabulates(
    shown: Seq<char>,
    columns: Seq<ColumnModel>,
    count: nat,
    row: spec_fn(int) -> Seq<Seq<char>>,
) -> bool {
    shown == ui::table_text(columns, Seq::new(count, row))
}

/// Devices are listed in a table, one row each, in order: the name, the runtime, the
/// state and, dimmed, the UDID. Where there are none, that is said.
pub proof fn devices_are_tabulated(found: &[Device], shown: String)
    requires
        call_ensures(devices, (found,), shown),
    ensures
        found@.len() == 0 ==> shown@ == "No simulators available.\n"@,
        found@.len() > 0 ==> tabulates(
            shown@,
            seq![
                ColumnModel { header: "NAME"@, dim: false },
                ColumnModel { header: "RUNTIME"@, dim: false },
                ColumnModel { header: "STATE"@, dim: false },
                ColumnModel { header: "UDID"@, dim: true },
            ],
            found@.len(),
            |i: int|
                seq![found@[i].name@, found@[i].runtime@, found@[i].state@, found@[i].udid@],
        ),
{
    let models = order::views(found@);
    let row = |i: int|
        seq![found@[i].name@, found@[i].runtime@, found@[i].state@, found@[i].udid@];
    assert(device_rows(models) =~= Seq::new(found@.len(), row));
}

/// Groups are listed in a table, one row each, in order: the identifier and, dimmed, the
/// path.
pub proof fn groups_are_tabulated(found: &[AppGroup], shown: String)
    requires
        call_ensures(groups, (found,), shown),
    ensures
        tabulates(
            shown@,
            seq![
                ColumnModel { header: "GROUP"@, dim: false },
                ColumnModel { header: "PATH"@, dim: true },
            ],
            found@.len(),
            |i: int| seq![found@[i].id@, found@[i].path@],
        ),
{
    let models = order::views(found@);
    let row = |i: int| seq![found@[i].id@, found@[i].path@];
    assert(group_rows(models) =~= Seq::new(found@.len(), row));
}

/// Entries are shown as the nodes of a tree, in order, each at its depth under the last
/// name of its path, with its time, and with its size in bytes, or with the reason where
/// it could not be read; a directory has no size.
pub proof fn entries_are_nodes(entries: Seq<Entry>, times: Seq<Seq<char>>, index: int)
    requires
        entries.len() == times.len(),
        0 <= index < entries.len(),
    ensures
        entry_nodes(entries, times).len() == entries.len(),
        ({
            let node = entry_nodes(entries, times)[index];
            let entry = entries[index];
            &&& node.depth == entry.depth
            &&& node.modified == times[index]
            &&& path::file_name(entry.path@) matches Some(name) ==> node.name == name
            &&& path::file_name(entry.path@) is None ==> node.name == entry.path@
            &&& entry.kind == EntryKind::Dir ==> node.detail.len() == 0
            &&& entry.kind == EntryKind::Unreadable ==> (entry.error matches Some(reason)
                ==> node.detail == reason@)
            &&& entry.kind != EntryKind::Dir && entry.kind != EntryKind::Unreadable ==> {
                let digits = node.detail.take(node.detail.len() - 2);
                &&& node.detail.len() > 2
                &&& node.detail.skip(node.detail.len() - 2) == seq![' ', 'B']
                &&& number::number_meant(digits, 10) == entry.size
            }
        }),
{
    let node = entry_nodes(entries, times)[index];
    let entry = entries[index];
    let digits = number::decimal(entry.size as nat);
    reveal_strlit(" B");
    number::decimal_reads_back(entry.size as nat);
    number::decimal_is_digits(entry.size as nat);
    if entry.kind != EntryKind::Dir && entry.kind != EntryKind::Unreadable {
        assert(node.detail == digits + " B"@);
        assert(node.detail.take(node.detail.len() - 2) =~= digits);
        assert(node.detail.skip(node.detail.len() - 2) =~= seq![' ', 'B']);
    }
}

/// Entries are shown as a tree of their nodes under the label of the root.
pub proof fn entries_are_shown_as_a_tree(
    root_label: &str,
    found: &[Entry],
    times: &[String],
    nodes: &[Node<'_>],
    shown: String,
    tree: String,
)
    requires
        found@.len() == times@.len(),
        call_ensures(entries, (root_label, found, times), shown),
        call_ensures(tree::render, (root_label, nodes), tree),
        order::views(nodes@) == entry_nodes(found@, text::texts(times@)),
    ensures
        shown@ == tree@,
{
}

/// Text is shown as it is, a value as it is rendered, and what is neither as a dump of
/// all its bytes up to the limit, under the note on a line of its own.
pub proof fn contents_are_shown(
    decoded: &Decoded,
    bytes: &[u8],
    limit: usize,
    shown: String,
    dump: String,
)
    requires
        call_ensures(contents, (decoded, bytes, limit), shown),
        call_ensures(hexdump, (bytes, limit), dump),
    ensures
        decoded.body matches Body::Text(found) ==> shown@ == found@,
        decoded.body is Opaque && decoded.note is None ==> shown@ == dump@,
        decoded.body is Opaque && decoded.note is Some ==> shown@ == decoded.note->0@ + seq!['\n']
            + dump@,
{
    reveal_strlit("\n");
    if decoded.body is Opaque {
        if let Some(note) = decoded.note {
            assert(shown@ =~= note@ + seq!['\n'] + dump@);
        } else {
            assert(shown@ =~= dump@);
        }
    }
}

/// A value is shown as rendering it shows it.
pub proof fn values_are_shown_rendered(
    decoded: &Decoded,
    bytes: &[u8],
    limit: usize,
    shown: String,
    rendered: String,
)
    requires
        decoded.body is Value,
        call_ensures(contents, (decoded, bytes, limit), shown),
        call_ensures(value::render, (&decoded.body->Value_0,), rendered),
    ensures
        shown@ == rendered@,
{
    assert(Seq::<char>::empty() =~= seq![]);
}

/// The defaults of a group lie in `Library/Preferences`, in a property list named after
/// the group.
pub proof fn defaults_are_named_after_the_group(group_id: &str, place: String)
    requires
        call_ensures(defaults_path, (group_id,), place),
        path::is_step(group_id@),
    ensures
        place@ == "Library/Preferences/"@ + group_id@ + ".plist"@,
        path::file_name(place@) == Some(group_id@ + ".plist"@),
{
    reveal_strlit("Library/Preferences/");
    reveal_strlit("Library");
    reveal_strlit("Preferences");
    reveal_strlit(".plist");
    reveal_strlit("/");
    let name = group_id@ + ".plist"@;
    let names = seq!["Library"@, "Preferences"@, name];
    assert(path::is_step(name)) by {
        if name.contains('/') {
            let i = choose|i: int| 0 <= i < name.len() && name[i] == '/';
            if i < group_id@.len() {
                assert(group_id@[i] == '/');
            } else {
                assert(".plist"@[i - group_id@.len()] == '/');
            }
        }
        if name == seq!['.'] {
            assert(name.len() == 1);
        }
    }
    assert forall|i: int| 0 <= i < "Library"@.len() implies "Library"@[i] != '/' by {}
    assert forall|i: int| 0 <= i < "Preferences"@.len() implies "Preferences"@[i] != '/' by {}
    assert("Library"@.len() == 7 && "Preferences"@.len() == 11 && seq!['.'].len() == 1);
    assert(path::is_step("Library"@) && path::is_step("Preferences"@));
    assert(path::are_steps(names));
    path::paths_come_apart_at_slashes(names);
    reveal_with_fuel(text::joined, 4);
    assert(names.drop_last() =~= seq!["Library"@, "Preferences"@]);
    assert(names.drop_last().drop_last() =~= seq!["Library"@]);
    assert(text::joined(names, "/"@) =~= place@);
    if name == seq!['.', '.'] {
        assert(name.len() == 2);
    }
}

} // verus!
