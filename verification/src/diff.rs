//! Comparing two snapshots.
//!
//! File-level comparison is not enough: a container that holds a single
//! preferences plist would diff as "1 file modified" every time and answer nothing.
//! When both sides of a modified file were decoded as plists, the comparison
//! descends into their keys; it falls back to file-level reporting only when it
//! cannot.

use vstd::prelude::*;
use crate::discover;
use crate::json;
use crate::json::{Json, JsonModel};
use crate::number;
use crate::number::push_decimal;
use crate::order;
use crate::order::collect;
use crate::snapshot;
use crate::snapshot::{FileEntry, Reading, Snapshot};
use crate::text;
use crate::text::{comes_before, same};

verus! {

/// What happened to a file or key.
#[derive(Debug, Clone, Copy, PartialEq, Eq, Structural)]
pub enum Change {
    /// Present only in the later snapshot.
    Added,
    /// Present only in the earlier snapshot.
    Removed,
    /// Present in both, with different contents.
    Modified,
}

/// A key whose value differs between two snapshots.
#[derive(Debug, PartialEq)]
pub struct KeyChange {
    /// Dotted path to the key, e.g. `keyboard_diagnostics.net_apple`.
    pub key: String,
    /// What happened to it.
    pub change: Change,
    /// Value in the earlier snapshot.
    pub before: Option<Json>,
    /// Value in the later snapshot.
    pub after: Option<Json>,
}

/// A file that differs between two snapshots.
#[derive(Debug)]
pub struct FileChange {
    /// Path relative to the container root.
    pub path: String,
    /// What happened to it.
    pub change: Change,
    /// Size in the earlier snapshot.
    pub size_before: Option<u64>,
    /// Size in the later snapshot.
    pub size_after: Option<u64>,
    /// Key-level changes, when both sides decoded as plists.
    ///
    /// `None` means the comparison could not descend — the file is not a plist,
    /// or was too large to inline — and only the file-level fact is known.
    pub keys: Option<Vec<KeyChange>>,
}

/// Everything that changed between two snapshots.
#[derive(Debug)]
pub struct ChangeSet {
    /// Group the snapshots describe.
    pub group_id: String,
    /// When the earlier snapshot was taken.
    pub before: String,
    /// When the later snapshot was taken.
    pub after: String,
    /// Files that changed, sorted by path.
    pub files: Vec<FileChange>,
}

/// Why two snapshots cannot be compared.
#[derive(Debug)]
pub enum CompareError {
    /// The snapshots describe different groups.
    DifferentGroups {
        /// Group of the earlier snapshot.
        before: String,
        /// Group of the later snapshot.
        after: String,
    },
}

// ---------------------------------------------------------------------------
// What a comparison says
// ---------------------------------------------------------------------------

/// What a key change says.
pub struct KeyChangeModel {
    /// Dotted path to the key.
    pub key: Seq<char>,
    /// What happened to it.
    pub change: Change,
    /// Value in the earlier snapshot.
    pub before: Option<JsonModel>,
    /// Value in the later snapshot.
    pub after: Option<JsonModel>,
}

/// What a file change says.
pub struct FileChangeModel {
    /// Path relative to the container root.
    pub path: Seq<char>,
    /// What happened to it.
    pub change: Change,
    /// Size in the earlier snapshot.
    pub size_before: Option<u64>,
    /// Size in the later snapshot.
    pub size_after: Option<u64>,
    /// Key-level changes, when both sides decoded as plists.
    pub keys: Option<Seq<KeyChangeModel>>,
}

/// The view of an optional JSON value.
pub open spec fn optional(value: Option<Json>) -> Option<JsonModel> {
    match value {
        Some(json) => Some(json@),
        None => None,
    }
}

impl View for KeyChange {
    type V = KeyChangeModel;

    open spec fn view(&self) -> KeyChangeModel {
        KeyChangeModel {
            key: self.key@,
            change: self.change,
            before: optional(self.before),
            after: optional(self.after),
        }
    }
}

/// The views of a list of key changes.
pub open spec fn key_models(changes: Seq<KeyChange>) -> Seq<KeyChangeModel> {
    changes.map_values(|change: KeyChange| change@)
}

impl View for FileChange {
    type V = FileChangeModel;

    open spec fn view(&self) -> FileChangeModel {
        FileChangeModel {
            path: self.path@,
            change: self.change,
            size_before: self.size_before,
            size_after: self.size_after,
            keys: match self.keys {
                Some(keys) => Some(key_models(keys@)),
                None => None,
            },
        }
    }
}

/// The views of a list of file changes.
pub open spec fn file_models(changes: Seq<FileChange>) -> Seq<FileChangeModel> {
    changes.map_values(|change: FileChange| change@)
}

/// A key joined onto a dotted path.
pub open spec fn joined_key(prefix: Seq<char>, key: Seq<char>) -> Seq<char> {
    if prefix.len() == 0 {
        key
    } else {
        prefix + "."@ + key
    }
}

/// An index joined onto a dotted path.
pub open spec fn joined_index(prefix: Seq<char>, index: nat) -> Seq<char> {
    prefix + "["@ + number::decimal(index) + "]"@
}

/// The change that says `key` now has a value.
pub open spec fn addition(key: Seq<char>, value: JsonModel) -> KeyChangeModel {
    KeyChangeModel { key, change: Change::Added, before: None, after: Some(value) }
}

/// The change that says `key` has no value any more.
pub open spec fn removal(key: Seq<char>, value: JsonModel) -> KeyChangeModel {
    KeyChangeModel { key, change: Change::Removed, before: Some(value), after: None }
}

/// The change that says `key` now has another value.
pub open spec fn modification(key: Seq<char>, before: JsonModel, after: JsonModel) -> KeyChangeModel {
    KeyChangeModel { key, change: Change::Modified, before: Some(before), after: Some(after) }
}

/// The differences between two values, by key path.
///
/// Two objects are compared key by key, in order of the keys, and two arrays index
/// by index; anything else is one modification, or nothing when the values are
/// equal.
pub open spec fn value_changes(prefix: Seq<char>, before: JsonModel, after: JsonModel) -> Seq<
    KeyChangeModel,
>
    decreases before, 0nat,
{
    match (before, after) {
        (JsonModel::Object(old), JsonModel::Object(new)) => entry_changes(prefix, old, new),
        (JsonModel::Array(old), JsonModel::Array(new)) => item_changes(prefix, old, new, 0),
        _ => if json::scalars_equal(before, after) {
            seq![]
        } else {
            seq![modification(prefix, before, after)]
        },
    }
}

/// The differences between the entries of two objects, whose keys ascend.
pub open spec fn entry_changes(
    prefix: Seq<char>,
    old: Seq<(Seq<char>, JsonModel)>,
    new: Seq<(Seq<char>, JsonModel)>,
) -> Seq<KeyChangeModel>
    decreases old, new.len(),
{
    if old.len() == 0 && new.len() == 0 {
        seq![]
    } else if new.len() == 0 || (old.len() > 0 && text::precedes(old[0].0, new[0].0)) {
        seq![removal(joined_key(prefix, old[0].0), old[0].1)] + entry_changes(
            prefix,
            old.drop_first(),
            new,
        )
    } else if old.len() == 0 || old[0].0 != new[0].0 {
        seq![addition(joined_key(prefix, new[0].0), new[0].1)] + entry_changes(
            prefix,
            old,
            new.drop_first(),
        )
    } else {
        value_changes(joined_key(prefix, old[0].0), old[0].1, new[0].1) + entry_changes(
            prefix,
            old.drop_first(),
            new.drop_first(),
        )
    }
}

/// The differences between the items of two arrays, the first of which has `index`.
pub open spec fn item_changes(
    prefix: Seq<char>,
    old: Seq<JsonModel>,
    new: Seq<JsonModel>,
    index: nat,
) -> Seq<KeyChangeModel>
    decreases old, new.len(),
{
    if old.len() == 0 && new.len() == 0 {
        seq![]
    } else if new.len() == 0 {
        seq![removal(joined_index(prefix, index), old[0])] + item_changes(
            prefix,
            old.drop_first(),
            new,
            index + 1,
        )
    } else if old.len() == 0 {
        seq![addition(joined_index(prefix, index), new[0])] + item_changes(
            prefix,
            old,
            new.drop_first(),
            index + 1,
        )
    } else {
        value_changes(joined_index(prefix, index), old[0], new[0]) + item_changes(
            prefix,
            old.drop_first(),
            new.drop_first(),
            index + 1,
        )
    }
}

/// What happened to the file at `path`, given what the two snapshots hold there.
pub open spec fn file_change(
    path: Seq<char>,
    before: Option<FileEntry>,
    after: Option<FileEntry>,
) -> Option<FileChangeModel> {
    match (before, after) {
        (None, None) => None,
        (None, Some(new)) => Some(
            FileChangeModel {
                path,
                change: Change::Added,
                size_before: None,
                size_after: Some(new.size),
                keys: None,
            },
        ),
        (Some(old), None) => Some(
            FileChangeModel {
                path,
                change: Change::Removed,
                size_before: Some(old.size),
                size_after: None,
                keys: None,
            },
        ),
        (Some(old), Some(new)) => if old.sha256@ == new.sha256@ {
            None
        } else {
            Some(
                FileChangeModel {
                    path,
                    change: Change::Modified,
                    size_before: Some(old.size),
                    size_after: Some(new.size),
                    keys: match (old.content, new.content) {
                        (Some(x), Some(y)) => Some(value_changes(seq![], x@, y@)),
                        _ => None,
                    },
                },
            )
        },
    }
}

/// A list of at most one change.
pub open spec fn at_most_one(change: Option<FileChangeModel>) -> Seq<FileChangeModel> {
    match change {
        Some(model) => seq![model],
        None => seq![],
    }
}

/// What happened to the files at `paths`, in the order of the paths.
pub open spec fn changes_at(
    paths: Seq<Seq<char>>,
    before: Seq<FileEntry>,
    after: Seq<FileEntry>,
) -> Seq<FileChangeModel>
    decreases paths.len(),
{
    if paths.len() == 0 {
        seq![]
    } else {
        let path = paths.last();
        changes_at(paths.drop_last(), before, after) + at_most_one(
            file_change(
                path,
                snapshot::find_file(before, path),
                snapshot::find_file(after, path),
            ),
        )
    }
}

/// The paths of a list of files.
pub open spec fn paths_of(files: Seq<FileEntry>) -> Seq<Seq<char>> {
    files.map_values(|file: FileEntry| file.path@)
}

/// What happened to the files of two snapshots, in order of their paths.
pub open spec fn file_changes(before: Seq<FileEntry>, after: Seq<FileEntry>) -> Seq<
    FileChangeModel,
> {
    changes_at(order::collected(paths_of(before) + paths_of(after)), before, after)
}

// ---------------------------------------------------------------------------
// Comparing
// ---------------------------------------------------------------------------

impl ChangeSet {
    /// Whether anything changed at all.
    pub fn is_empty(&self) -> (empty: bool)
        ensures
            empty == (self.files@.len() == 0),
    {
        self.files.is_empty()
    }
}

impl CompareError {
    /// What the error says.
    pub open spec fn said(self) -> Seq<char> {
        match self {
            CompareError::DifferentGroups { before, after } => {
                "snapshots describe different groups: `"@ + before@ + "` and `"@ + after@ + "`"@
            },
        }
    }

    /// The error in words.
    pub fn message(&self) -> (text: String)
        ensures
            text@ == self.said(),
    {
        match self {
            CompareError::DifferentGroups { before, after } => {
                let mut text = "snapshots describe different groups: `".to_string();
                text.push_str(before.as_str());
                text.push_str("` and `");
                text.push_str(after.as_str());
                text.push_str("`");
                text
            },
        }
    }
}

/// The paths of two lists of files, in order, each once.
fn all_paths(before: &Vec<FileEntry>, after: &Vec<FileEntry>) -> (paths: Vec<String>)
    ensures
        text::texts(paths@) == order::collected(paths_of(before@) + paths_of(after@)),
{
    let mut all: Vec<String> = Vec::new();
    let mut i: usize = 0;
    while i < before.len()
        invariant
            i <= before@.len(),
            text::texts(all@) == paths_of(before@).take(i as int),
        decreases before@.len() - i,
    {
        let ghost done = text::texts(all@);
        all.push(before[i].path.clone());
        assert(text::texts(all@) =~= done.push(before@[i as int].path@));
        assert(text::texts(all@) =~= paths_of(before@).take(i + 1));
        i += 1;
    }
    assert(paths_of(before@).take(i as int) =~= paths_of(before@));
    let mut j: usize = 0;
    assert(text::texts(all@) =~= paths_of(before@) + paths_of(after@).take(0));
    while j < after.len()
        invariant
            j <= after@.len(),
            text::texts(all@) == paths_of(before@) + paths_of(after@).take(j as int),
        decreases after@.len() - j,
    {
        let ghost done = text::texts(all@);
        all.push(after[j].path.clone());
        assert(text::texts(all@) =~= done.push(after@[j as int].path@));
        assert(text::texts(all@) =~= paths_of(before@) + paths_of(after@).take(j + 1));
        j += 1;
    }
    assert(paths_of(after@).take(j as int) =~= paths_of(after@));
    collect(all)
}

/// Compares two snapshots.
///
/// Refuses snapshots of different containers. Diffing unrelated groups would
/// report every file as both added and removed, which is never what was meant.
pub fn compare(before: &Snapshot, after: &Snapshot) -> (result: Result<ChangeSet, CompareError>)
    ensures
        result is Ok <==> before.group_id@ == after.group_id@,
        result matches Ok(set) ==> {
            &&& set.group_id@ == before.group_id@
            &&& set.before@ == before.taken_at@
            &&& set.after@ == after.taken_at@
            &&& file_models(set.files@) == file_changes(before.files@, after.files@)
        },
        result matches Err(CompareError::DifferentGroups { before: left, after: right }) ==> {
            &&& left@ == before.group_id@
            &&& right@ == after.group_id@
        },
{
    if !same(before.group_id.as_str(), after.group_id.as_str()) {
        return Err(
            CompareError::DifferentGroups {
                before: before.group_id.clone(),
                after: after.group_id.clone(),
            },
        );
    }
    let paths = all_paths(&before.files, &after.files);
    let ghost names = text::texts(paths@);
    let mut files: Vec<FileChange> = Vec::new();
    let mut i: usize = 0;
    while i < paths.len()
        invariant
            i <= paths@.len(),
            names == text::texts(paths@),
            file_models(files@) == changes_at(names.take(i as int), before.files@, after.files@),
        decreases paths@.len() - i,
    {
        let ghost done = file_models(files@);
        let path: &str = paths[i].as_str();
        assert(path@ == names[i as int]);
        assert(names.take(i + 1).drop_last() =~= names.take(i as int));
        assert(names.take(i + 1).last() == path@);
        match (before.file(path), after.file(path)) {
            (None, Some(entry)) => {
                files.push(
                    FileChange {
                        path: path.to_string(),
                        change: Change::Added,
                        size_before: None,
                        size_after: Some(entry.size),
                        keys: None,
                    },
                );
                assert(file_models(files@) =~= done.push(files@.last()@));
            },
            (Some(entry), None) => {
                files.push(
                    FileChange {
                        path: path.to_string(),
                        change: Change::Removed,
                        size_before: Some(entry.size),
                        size_after: None,
                        keys: None,
                    },
                );
                assert(file_models(files@) =~= done.push(files@.last()@));
            },
            (Some(old), Some(new)) => {
                if let Some(change) = compare_file(path, old, new) {
                    files.push(change);
                    assert(file_models(files@) =~= done.push(change@));
                } else {
                    assert(done + seq![] =~= done);
                }
            },
            (None, None) => {
                assert(done + seq![] =~= done);
            },
        }
        assert(file_models(files@) =~= changes_at(names.take(i + 1), before.files@, after.files@));
        i += 1;
    }
    assert(names.take(i as int) =~= names);
    Ok(
        ChangeSet {
            group_id: before.group_id.clone(),
            before: before.taken_at.clone(),
            after: after.taken_at.clone(),
            files,
        },
    )
}

/// Compares one file present in both snapshots, returning `None` if identical.
pub fn compare_file(path: &str, before: &FileEntry, after: &FileEntry) -> (change: Option<
    FileChange,
>)
    ensures
        match change {
            Some(found) => Some(found@),
            None => None,
        } == file_change(path@, Some(*before), Some(*after)),
{
    if same(before.sha256.as_str(), after.sha256.as_str()) {
        return None;
    }
    // Descend only when both sides were decoded; a hash-only side means the
    // file-level fact is all that is actually known.

    let keys = match (&before.content, &after.content) {
        (Some(old), Some(new)) => {
            let mut changes: Vec<KeyChange> = Vec::new();
            let root = String::new();
            assert(root@ =~= seq![]);
            compare_values(root, old, new, &mut changes);
            assert(key_models(changes@) =~= value_changes(seq![], old@, new@));
            Some(changes)
        },
        _ => None,
    };
    Some(
        FileChange {
            path: path.to_string(),
            change: Change::Modified,
            size_before: Some(before.size),
            size_after: Some(after.size),
            keys,
        },
    )
}

/// Walks two decoded values in step, recording differences by key path.
pub fn compare_values(prefix: String, before: &Json, after: &Json, out: &mut Vec<KeyChange>)
    ensures
        key_models(final(out)@) == key_models(old(out)@) + value_changes(
            prefix@,
            before@,
            after@,
        ),
    decreases before,
{
    let ghost start = key_models(out@);
    match (before, after) {
        (Json::Object(old_map), Json::Object(new_map)) => {
            let ghost x = old_map.pairs();
            let ghost y = new_map.pairs();
            let mut i: usize = 0;
            let mut j: usize = 0;
            proof {
                json::object_view(*old_map);
                json::object_view(*new_map);
                assert(x.skip(0) =~= x);
                assert(y.skip(0) =~= y);
            }
            while i < old_map.entries.len() || j < new_map.entries.len()
                invariant
                    i <= old_map.entries@.len(),
                    j <= new_map.entries@.len(),
                    x == old_map.pairs(),
                    y == new_map.pairs(),
                    *before == Json::Object(*old_map),
                    key_models(out@) + entry_changes(prefix@, x.skip(i as int), y.skip(j as int))
                        == start + entry_changes(prefix@, x, y),
                decreases old_map.entries@.len() - i + new_map.entries@.len() - j,
            {
                let ghost done = key_models(out@);
                let ghost rest_x = x.skip(i as int);
                let ghost rest_y = y.skip(j as int);
                assert(i < x.len() ==> rest_x[0] == x[i as int] && rest_x.drop_first() =~= x.skip(
                    i + 1,
                ));
                assert(j < y.len() ==> rest_y[0] == y[j as int] && rest_y.drop_first() =~= y.skip(
                    j + 1,
                ));
                if j >= new_map.entries.len() || (i < old_map.entries.len() && comes_before(
                    old_map.entries[i].0.as_str(),
                    new_map.entries[j].0.as_str(),
                )) {
                    let path = join(prefix.as_str(), old_map.entries[i].0.as_str());
                    out.push(removed(path, &old_map.entries[i].1));
                    let ghost found = removal(joined_key(prefix@, rest_x[0].0), rest_x[0].1);
                    assert(key_models(out@) =~= done.push(found));
                    assert(done + (seq![found] + entry_changes(prefix@, x.skip(i + 1), rest_y))
                        =~= done.push(found) + entry_changes(prefix@, x.skip(i + 1), rest_y));
                    i += 1;
                } else if i >= old_map.entries.len() || !same(
                    old_map.entries[i].0.as_str(),
                    new_map.entries[j].0.as_str(),
                ) {
                    let path = join(prefix.as_str(), new_map.entries[j].0.as_str());
                    out.push(added(path, &new_map.entries[j].1));
                    let ghost found = addition(joined_key(prefix@, rest_y[0].0), rest_y[0].1);
                    assert(key_models(out@) =~= done.push(found));
                    assert(done + (seq![found] + entry_changes(prefix@, rest_x, y.skip(j + 1)))
                        =~= done.push(found) + entry_changes(prefix@, rest_x, y.skip(j + 1)));
                    j += 1;
                } else {
                    let path = join(prefix.as_str(), old_map.entries[i].0.as_str());
                    let ghost inner = value_changes(path@, rest_x[0].1, rest_y[0].1);
                    let ghost later = entry_changes(prefix@, x.skip(i + 1), y.skip(j + 1));
                    assert(decreases_to!(*before => before->Object_0.entries@[i as int].1));
                    compare_values(path, &old_map.entries[i].1, &new_map.entries[j].1, out);
                    assert(done + (inner + later) =~= (done + inner) + later);
                    i += 1;
                    j += 1;
                }
            }
            assert(x.skip(i as int) =~= seq![]);
            assert(y.skip(j as int) =~= seq![]);
            assert(key_models(out@) + seq![] =~= key_models(out@));
        },
        (Json::Array(old_items), Json::Array(new_items)) => {
            let ghost x = json::models(old_items@);
            let ghost y = json::models(new_items@);
            let mut i: usize = 0;
            proof {
                json::array_view(*old_items);
                json::array_view(*new_items);
                assert(x.skip(0) =~= x);
                assert(y.skip(0) =~= y);
            }
            while i < old_items.len() || i < new_items.len()
                invariant
                    x == json::models(old_items@),
                    y == json::models(new_items@),
                    i <= x.len() || i <= y.len(),
                    *before == Json::Array(*old_items),
                    key_models(out@) + item_changes(
                        prefix@,
                        tail(x, i as int),
                        tail(y, i as int),
                        i as nat,
                    ) == start + item_changes(prefix@, x, y, 0),
                decreases old_items@.len() + new_items@.len() - i,
            {
                let ghost done = key_models(out@);
                let ghost rest_x = tail(x, i as int);
                let ghost rest_y = tail(y, i as int);
                assert(i < x.len() ==> rest_x[0] == x[i as int] && rest_x.drop_first() =~= tail(
                    x,
                    i + 1,
                ));
                assert(i < y.len() ==> rest_y[0] == y[i as int] && rest_y.drop_first() =~= tail(
                    y,
                    i + 1,
                ));
                assert(i >= x.len() ==> rest_x =~= tail(x, i + 1));
                assert(i >= y.len() ==> rest_y =~= tail(y, i + 1));
                let ghost later = item_changes(prefix@, tail(x, i + 1), tail(y, i + 1), i as nat + 1);
                let path = join_index(prefix.as_str(), i);
                if i >= new_items.len() {
                    out.push(removed(path, &old_items[i]));
                    let ghost found = removal(joined_index(prefix@, i as nat), rest_x[0]);
                    assert(key_models(out@) =~= done.push(found));
                    assert(done + (seq![found] + later) =~= done.push(found) + later);
                } else if i >= old_items.len() {
                    out.push(added(path, &new_items[i]));
                    let ghost found = addition(joined_index(prefix@, i as nat), rest_y[0]);
                    assert(key_models(out@) =~= done.push(found));
                    assert(done + (seq![found] + later) =~= done.push(found) + later);
                } else {
                    let ghost inner = value_changes(path@, rest_x[0], rest_y[0]);
                    assert(decreases_to!(*before => before->Array_0@[i as int]));
                    compare_values(path, &old_items[i], &new_items[i], out);
                    assert(done + (inner + later) =~= (done + inner) + later);
                }
                i += 1;
            }
            assert(tail(x, i as int) =~= seq![]);
            assert(tail(y, i as int) =~= seq![]);
            assert(key_models(out@) + seq![] =~= key_models(out@));
        },
        _ => {
            if !before.scalar_equals(after) {
                let ghost found = modification(prefix@, before@, after@);
                out.push(
                    KeyChange {
                        key: prefix,
                        change: Change::Modified,
                        before: Some(before.duplicate()),
                        after: Some(after.duplicate()),
                    },
                );
                assert(key_models(out@) =~= start.push(found));
                assert(key_models(out@) =~= start + seq![found]);
            } else {
                assert(start + seq![] =~= start);
            }
        },
    }
}

/// What is left of a list from `index` on.
spec fn tail(items: Seq<JsonModel>, index: int) -> Seq<JsonModel> {
    if index <= items.len() {
        items.skip(index)
    } else {
        seq![]
    }
}

/// Joins a key onto a dotted path.
pub fn join(prefix: &str, key: &str) -> (path: String)
    ensures
        path@ == joined_key(prefix@, key@),
{
    if prefix.is_empty() {
        key.to_string()
    } else {
        let mut path = prefix.to_string();
        path.push_str(".");
        path.push_str(key);
        path
    }
}

/// Joins an index onto a dotted path.
fn join_index(prefix: &str, index: usize) -> (path: String)
    ensures
        path@ == joined_index(prefix@, index as nat),
{
    let mut path = prefix.to_string();
    path.push_str("[");
    push_decimal(&mut path, index as u128);
    path.push_str("]");
    path
}

/// Builds an "added" key change.
fn added(key: String, value: &Json) -> (change: KeyChange)
    ensures
        change@ == addition(key@, value@),
{
    KeyChange { key, change: Change::Added, before: None, after: Some(value.duplicate()) }
}

/// Builds a "removed" key change.
fn removed(key: String, value: &Json) -> (change: KeyChange)
    ensures
        change@ == removal(key@, value@),
{
    KeyChange { key, change: Change::Removed, before: Some(value.duplicate()), after: None }
}

// ---------------------------------------------------------------------------
// Laws on values
// ---------------------------------------------------------------------------

/// Two lists one after the other hold what either holds.
proof fn concatenation_contains<T>(a: Seq<T>, b: Seq<T>, x: T)
    ensures
        (a + b).contains(x) <==> a.contains(x) || b.contains(x),
{
    if a.contains(x) {
        let i = choose|i: int| 0 <= i < a.len() && a[i] == x;
        assert((a + b)[i] == x);
    }
    if b.contains(x) {
        let i = choose|i: int| 0 <= i < b.len() && b[i] == x;
        assert((a + b)[a.len() + i] == x);
    }
    if (a + b).contains(x) {
        let i = choose|i: int| 0 <= i < (a + b).len() && (a + b)[i] == x;
        if i < a.len() {
            assert(a[i] == x);
        } else {
            assert(b[i - a.len()] == x);
        }
    }
}

/// A comparison finds nothing exactly when the values are equal.
pub proof fn no_changes_iff_equal(prefix: Seq<char>, before: JsonModel, after: JsonModel)
    ensures
        value_changes(prefix, before, after).len() == 0 <==> json::equal(before, after),
    decreases before, 0nat,
{
    match (before, after) {
        (JsonModel::Object(old), JsonModel::Object(new)) => {
            no_entry_changes_iff_equal(prefix, old, new);
        },
        (JsonModel::Array(old), JsonModel::Array(new)) => {
            no_item_changes_iff_equal(prefix, old, new, 0);
        },
        _ => {},
    }
}

/// Whether two lists of entries are equal, entry by entry.
spec fn entries_equal(old: Seq<(Seq<char>, JsonModel)>, new: Seq<(Seq<char>, JsonModel)>) -> bool {
    &&& old.len() == new.len()
    &&& forall|i: int|
        0 <= i < old.len() ==> (#[trigger] old[i]).0 == new[i].0 && json::equal(
            old[i].1,
            new[i].1,
        )
}

/// Whether two lists of items are equal, item by item.
spec fn items_equal(old: Seq<JsonModel>, new: Seq<JsonModel>) -> bool {
    &&& old.len() == new.len()
    &&& forall|i: int| 0 <= i < old.len() ==> json::equal(#[trigger] old[i], new[i])
}

/// A comparison of entries finds nothing exactly when they are equal.
proof fn no_entry_changes_iff_equal(
    prefix: Seq<char>,
    old: Seq<(Seq<char>, JsonModel)>,
    new: Seq<(Seq<char>, JsonModel)>,
)
    ensures
        entry_changes(prefix, old, new).len() == 0 <==> entries_equal(old, new),
    decreases old, new.len(),
{
    if old.len() > 0 && new.len() > 0 {
        text::precedes_irreflexive(old[0].0);
        if old[0].0 == new[0].0 {
            let x = old.drop_first();
            let y = new.drop_first();
            no_changes_iff_equal(joined_key(prefix, old[0].0), old[0].1, new[0].1);
            no_entry_changes_iff_equal(prefix, x, y);
            if entries_equal(old, new) {
                assert forall|i: int| 0 <= i < x.len() implies (#[trigger] x[i]).0 == y[i].0
                    && json::equal(x[i].1, y[i].1) by {
                    assert(x[i] == old[i + 1]);
                    assert(y[i] == new[i + 1]);
                }
            }
            if entries_equal(x, y) && json::equal(old[0].1, new[0].1) {
                assert forall|i: int| 0 <= i < old.len() implies (#[trigger] old[i]).0 == new[i].0
                    && json::equal(old[i].1, new[i].1) by {
                    if i > 0 {
                        assert(old[i] == x[i - 1]);
                        assert(new[i] == y[i - 1]);
                    }
                }
            }
        }
    }
}

/// A comparison of items finds nothing exactly when they are equal.
proof fn no_item_changes_iff_equal(
    prefix: Seq<char>,
    old: Seq<JsonModel>,
    new: Seq<JsonModel>,
    index: nat,
)
    ensures
        item_changes(prefix, old, new, index).len() == 0 <==> items_equal(old, new),
    decreases old, new.len(),
{
    if old.len() > 0 && new.len() > 0 {
        let x = old.drop_first();
        let y = new.drop_first();
        no_changes_iff_equal(joined_index(prefix, index), old[0], new[0]);
        no_item_changes_iff_equal(prefix, x, y, index + 1);
        if items_equal(old, new) {
            assert forall|i: int| 0 <= i < x.len() implies json::equal(#[trigger] x[i], y[i]) by {
                assert(x[i] == old[i + 1]);
                assert(y[i] == new[i + 1]);
            }
        }
        if items_equal(x, y) && json::equal(old[0], new[0]) {
            assert forall|i: int| 0 <= i < old.len() implies json::equal(#[trigger] old[i], new[i]) by {
                if i > 0 {
                    assert(old[i] == x[i - 1]);
                    assert(new[i] == y[i - 1]);
                }
            }
        }
    }
}

/// The change seen from the other side.
pub open spec fn mirrored(change: KeyChangeModel) -> KeyChangeModel {
    KeyChangeModel {
        key: change.key,
        change: mirrored_kind(change.change),
        before: change.after,
        after: change.before,
    }
}

/// What happened, seen from the other side.
pub open spec fn mirrored_kind(change: Change) -> Change {
    match change {
        Change::Added => Change::Removed,
        Change::Removed => Change::Added,
        Change::Modified => Change::Modified,
    }
}

/// The changes seen from the other side.
pub open spec fn all_mirrored(changes: Seq<KeyChangeModel>) -> Seq<KeyChangeModel> {
    changes.map_values(|change: KeyChangeModel| mirrored(change))
}

/// Comparing the other way round finds the same changes, each seen from the other side.
pub proof fn comparison_mirrors(prefix: Seq<char>, before: JsonModel, after: JsonModel)
    ensures
        value_changes(prefix, after, before) == all_mirrored(value_changes(prefix, before, after)),
    decreases before, 0nat,
{
    match (before, after) {
        (JsonModel::Object(old), JsonModel::Object(new)) => {
            entry_comparison_mirrors(prefix, old, new);
        },
        (JsonModel::Array(old), JsonModel::Array(new)) => {
            item_comparison_mirrors(prefix, old, new, 0);
        },
        _ => {
            assert(json::scalars_equal(before, after) == json::scalars_equal(after, before));
            assert(value_changes(prefix, after, before) =~= all_mirrored(
                value_changes(prefix, before, after),
            ));
        },
    }
}

/// Comparing entries the other way round finds the same changes from the other side.
proof fn entry_comparison_mirrors(
    prefix: Seq<char>,
    old: Seq<(Seq<char>, JsonModel)>,
    new: Seq<(Seq<char>, JsonModel)>,
)
    ensures
        entry_changes(prefix, new, old) == all_mirrored(entry_changes(prefix, old, new)),
    decreases old, new.len(),
{
    let there = entry_changes(prefix, old, new);
    let back = entry_changes(prefix, new, old);
    if old.len() > 0 && new.len() > 0 {
        text::precedes_total(old[0].0, new[0].0);
        if text::precedes(old[0].0, new[0].0) {
            text::precedes_asymmetric(old[0].0, new[0].0);
        } else if text::precedes(new[0].0, old[0].0) {
            text::precedes_asymmetric(new[0].0, old[0].0);
        }
    }
    if old.len() == 0 && new.len() == 0 {
        assert(back =~= all_mirrored(there));
    } else if new.len() == 0 || (old.len() > 0 && text::precedes(old[0].0, new[0].0)) {
        entry_comparison_mirrors(prefix, old.drop_first(), new);
        assert(back =~= all_mirrored(there));
    } else if old.len() == 0 || old[0].0 != new[0].0 {
        entry_comparison_mirrors(prefix, old, new.drop_first());
        assert(back =~= all_mirrored(there));
    } else {
        comparison_mirrors(joined_key(prefix, old[0].0), old[0].1, new[0].1);
        entry_comparison_mirrors(prefix, old.drop_first(), new.drop_first());
        assert(back =~= all_mirrored(there));
    }
}

/// Comparing items the other way round finds the same changes from the other side.
proof fn item_comparison_mirrors(
    prefix: Seq<char>,
    old: Seq<JsonModel>,
    new: Seq<JsonModel>,
    index: nat,
)
    ensures
        item_changes(prefix, new, old, index) == all_mirrored(item_changes(prefix, old, new, index)),
    decreases old, new.len(),
{
    let there = item_changes(prefix, old, new, index);
    let back = item_changes(prefix, new, old, index);
    if old.len() == 0 && new.len() == 0 {
        assert(back =~= all_mirrored(there));
    } else if new.len() == 0 {
        item_comparison_mirrors(prefix, old.drop_first(), new, index + 1);
        assert(back =~= all_mirrored(there));
    } else if old.len() == 0 {
        item_comparison_mirrors(prefix, old, new.drop_first(), index + 1);
        assert(back =~= all_mirrored(there));
    } else {
        comparison_mirrors(joined_index(prefix, index), old[0], new[0]);
        item_comparison_mirrors(prefix, old.drop_first(), new.drop_first(), index + 1);
        assert(back =~= all_mirrored(there));
    }
}

/// One step from a container to something in it.
pub enum Step {
    /// To the value under a key of an object.
    Key(Seq<char>),
    /// To the item at an index of an array.
    Index(nat),
}

/// The item at `index`, where there is one.
pub open spec fn item_at(items: Seq<JsonModel>, index: nat) -> Option<JsonModel> {
    if index < items.len() {
        Some(items[index as int])
    } else {
        None
    }
}

/// What one step leads to.
pub open spec fn inside(value: JsonModel, step: Step) -> Option<JsonModel> {
    match (value, step) {
        (JsonModel::Object(entries), Step::Key(key)) => order::lookup(entries, key),
        (JsonModel::Array(items), Step::Index(index)) => item_at(items, index),
        _ => None,
    }
}

/// What the steps lead to.
pub open spec fn reached(value: JsonModel, steps: Seq<Step>) -> Option<JsonModel>
    decreases steps.len(),
{
    if steps.len() == 0 {
        Some(value)
    } else {
        match inside(value, steps[0]) {
            Some(next) => reached(next, steps.drop_first()),
            None => None,
        }
    }
}

/// A dotted path with one step joined on.
pub open spec fn stepped(prefix: Seq<char>, step: Step) -> Seq<char> {
    match step {
        Step::Key(key) => joined_key(prefix, key),
        Step::Index(index) => joined_index(prefix, index),
    }
}

/// A dotted path with the steps joined on.
pub open spec fn spelled(prefix: Seq<char>, steps: Seq<Step>) -> Seq<char>
    decreases steps.len(),
{
    if steps.len() == 0 {
        prefix
    } else {
        spelled(stepped(prefix, steps[0]), steps.drop_first())
    }
}

/// Whether two values are containers of one kind, which a comparison descends into.
pub open spec fn both_containers(before: JsonModel, after: JsonModel) -> bool {
    ||| before is Object && after is Object
    ||| before is Array && after is Array
}

/// Whether the steps lead, through containers that both values have, to a place
/// where they differ: only one has anything there, or they have different scalars,
/// or values of different kinds.
pub open spec fn differ_at(before: JsonModel, after: JsonModel, steps: Seq<Step>) -> bool
    decreases steps.len(),
{
    if steps.len() == 0 {
        !both_containers(before, after) && !json::scalars_equal(before, after)
    } else {
        &&& both_containers(before, after)
        &&& match (inside(before, steps[0]), inside(after, steps[0])) {
            (Some(x), Some(y)) => differ_at(x, y, steps.drop_first()),
            (None, None) => false,
            _ => steps.len() == 1,
        }
    }
}

/// What happened where one value has `before` and the other `after`.
pub open spec fn kind_of(before: Option<JsonModel>, after: Option<JsonModel>) -> Change {
    match (before, after) {
        (None, _) => Change::Added,
        (_, None) => Change::Removed,
        _ => Change::Modified,
    }
}

/// The change that reports a difference at the place the steps lead to.
pub open spec fn report_at(
    prefix: Seq<char>,
    before: JsonModel,
    after: JsonModel,
    steps: Seq<Step>,
) -> KeyChangeModel {
    KeyChangeModel {
        key: spelled(prefix, steps),
        change: kind_of(reached(before, steps), reached(after, steps)),
        before: reached(before, steps),
        after: reached(after, steps),
    }
}

/// Whether the change reports a difference at the place the steps lead to.
pub open spec fn reports(
    change: KeyChangeModel,
    prefix: Seq<char>,
    before: JsonModel,
    after: JsonModel,
    steps: Seq<Step>,
) -> bool {
    differ_at(before, after, steps) && change == report_at(prefix, before, after, steps)
}

/// A comparison reports exactly the places where two values differ, each under its
/// path with what either value has there.
pub proof fn changes_are_differences(
    prefix: Seq<char>,
    before: JsonModel,
    after: JsonModel,
    change: KeyChangeModel,
)
    requires
        json::valid(before),
        json::valid(after),
    ensures
        value_changes(prefix, before, after).contains(change) <==> exists|steps: Seq<Step>|
            reports(change, prefix, before, after, steps),
    decreases before, 0nat,
{
    let all = value_changes(prefix, before, after);
    match (before, after) {
        (JsonModel::Object(old), JsonModel::Object(new)) => {
            entry_changes_are_differences(prefix, old, new, change);
        },
        (JsonModel::Array(old), JsonModel::Array(new)) => {
            item_changes_are_differences(prefix, old, new, 0, change);
            if exists|steps: Seq<Step>| reports(change, prefix, before, after, steps) {
                let steps = choose|steps: Seq<Step>| reports(change, prefix, before, after, steps);
                assert(item_reports(change, prefix, old, new, 0, steps));
            }
            if exists|steps: Seq<Step>| item_reports(change, prefix, old, new, 0, steps) {
                let steps = choose|steps: Seq<Step>|
                    item_reports(change, prefix, old, new, 0, steps);
                assert(reports(change, prefix, before, after, steps));
            }
        },
        _ => {
            let here = Seq::<Step>::empty();
            if all.contains(change) {
                assert(change == modification(prefix, before, after));
                assert(reports(change, prefix, before, after, here));
            }
            if exists|steps: Seq<Step>| reports(change, prefix, before, after, steps) {
                let steps = choose|steps: Seq<Step>| reports(change, prefix, before, after, steps);
                assert(steps.len() == 0);
                assert(all[0] == change);
            }
        },
    }
}

/// A key before all the others is not among them.
proof fn lookup_before_first(entries: Seq<(Seq<char>, JsonModel)>, key: Seq<char>)
    requires
        order::ascending(order::keys(entries)),
        entries.len() > 0 ==> text::precedes(key, entries[0].0),
    ensures
        order::lookup(entries, key) is None,
    decreases entries.len(),
{
    if entries.len() > 0 {
        let names = order::keys(entries);
        let rest = entries.drop_first();
        text::precedes_asymmetric(key, entries[0].0);
        ascending_rest(entries);
        if rest.len() > 0 {
            assert(text::precedes(names[0], names[1]));
            text::precedes_transitive(key, entries[0].0, rest[0].0);
        }
        lookup_before_first(rest, key);
    }
}

/// What follows the first of ascending entries ascends, and lies behind it.
proof fn ascending_rest(entries: Seq<(Seq<char>, JsonModel)>)
    requires
        order::ascending(order::keys(entries)),
        entries.len() > 0,
    ensures
        order::ascending(order::keys(entries.drop_first())),
        entries.len() > 1 ==> text::precedes(entries[0].0, entries.drop_first()[0].0),
{
    let names = order::keys(entries);
    let rest = order::keys(entries.drop_first());
    assert forall|i: int, j: int| 0 <= i < j < rest.len() implies text::precedes(
        #[trigger] rest[i],
        #[trigger] rest[j],
    ) by {
        assert(rest[i] == names[i + 1]);
        assert(rest[j] == names[j + 1]);
    }
    if entries.len() > 1 {
        assert(text::precedes(names[0], names[1]));
    }
}

/// What follows the first of valid entries is valid.
proof fn valid_rest(entries: Seq<(Seq<char>, JsonModel)>)
    requires
        json::valid(JsonModel::Object(entries)),
        entries.len() > 0,
    ensures
        json::valid(JsonModel::Object(entries.drop_first())),
        json::valid(entries[0].1),
        entries.len() > 1 ==> text::precedes(entries[0].0, entries.drop_first()[0].0),
{
    ascending_rest(entries);
    let rest = entries.drop_first();
    assert forall|i: int| 0 <= i < rest.len() implies json::valid((#[trigger] rest[i]).1) by {
        assert(rest[i] == entries[i + 1]);
    }
}

/// Entries that hold the same under a key differ the same way there.
proof fn report_among_rest(
    prefix: Seq<char>,
    old: Seq<(Seq<char>, JsonModel)>,
    new: Seq<(Seq<char>, JsonModel)>,
    x: Seq<(Seq<char>, JsonModel)>,
    y: Seq<(Seq<char>, JsonModel)>,
    change: KeyChangeModel,
    steps: Seq<Step>,
)
    requires
        steps.len() > 0,
        inside(JsonModel::Object(old), steps[0]) == inside(JsonModel::Object(x), steps[0]),
        inside(JsonModel::Object(new), steps[0]) == inside(JsonModel::Object(y), steps[0]),
    ensures
        reports(change, prefix, JsonModel::Object(old), JsonModel::Object(new), steps) == reports(
            change,
            prefix,
            JsonModel::Object(x),
            JsonModel::Object(y),
            steps,
        ),
{
    reveal_with_fuel(reached, 2);
}

/// A difference below a key both objects have is a difference of what they have there.
proof fn report_below(
    prefix: Seq<char>,
    before: JsonModel,
    after: JsonModel,
    step: Step,
    change: KeyChangeModel,
    rest: Seq<Step>,
)
    requires
        both_containers(before, after),
        inside(before, step) is Some,
        inside(after, step) is Some,
    ensures
        reports(change, prefix, before, after, seq![step] + rest) == reports(
            change,
            stepped(prefix, step),
            inside(before, step)->0,
            inside(after, step)->0,
            rest,
        ),
{
    let steps = seq![step] + rest;
    assert(steps.drop_first() =~= rest);
    assert(steps[0] == step);
}

/// A comparison of entries reports exactly the places where they differ.
proof fn entry_changes_are_differences(
    prefix: Seq<char>,
    old: Seq<(Seq<char>, JsonModel)>,
    new: Seq<(Seq<char>, JsonModel)>,
    change: KeyChangeModel,
)
    requires
        json::valid(JsonModel::Object(old)),
        json::valid(JsonModel::Object(new)),
    ensures
        entry_changes(prefix, old, new).contains(change) <==> exists|steps: Seq<Step>|
            reports(change, prefix, JsonModel::Object(old), JsonModel::Object(new), steps),
    decreases old, new.len(),
{
    let before = JsonModel::Object(old);
    let after = JsonModel::Object(new);
    let all = entry_changes(prefix, old, new);
    let none = Seq::<Step>::empty();
    if old.len() > 0 && new.len() > 0 {
        text::precedes_total(old[0].0, new[0].0);
    }
    if old.len() == 0 && new.len() == 0 {
        if exists|steps: Seq<Step>| reports(change, prefix, before, after, steps) {
            let steps = choose|steps: Seq<Step>| reports(change, prefix, before, after, steps);
            assert(inside(before, steps[0]) is None);
            assert(inside(after, steps[0]) is None);
        }
    } else if new.len() == 0 || (old.len() > 0 && text::precedes(old[0].0, new[0].0)) {
        let x = old.drop_first();
        let key = old[0].0;
        let first = removal(joined_key(prefix, key), old[0].1);
        valid_rest(old);
        lookup_before_first(x, key);
        lookup_before_first(new, key);
        entry_changes_are_differences(prefix, x, new, change);
        concatenation_contains(seq![first], entry_changes(prefix, x, new), change);
        let step = seq![Step::Key(key)];
        assert(step.drop_first() =~= none);
        reveal_with_fuel(reached, 2);
        reveal_with_fuel(spelled, 2);
        reveal_with_fuel(differ_at, 2);
        assert(seq![first].contains(change) <==> change == first) by {
            assert(seq![first][0] == first);
        }
        if change == first {
            assert(reports(change, prefix, before, after, step));
        }
        if exists|steps: Seq<Step>| reports(change, prefix, JsonModel::Object(x), after, steps) {
            let steps = choose|steps: Seq<Step>|
                reports(change, prefix, JsonModel::Object(x), after, steps);
            assert(steps[0] != Step::Key(key));
            report_among_rest(prefix, old, new, x, new, change, steps);
            assert(reports(change, prefix, before, after, steps));
        }
        if exists|steps: Seq<Step>| reports(change, prefix, before, after, steps) {
            let steps = choose|steps: Seq<Step>| reports(change, prefix, before, after, steps);
            if steps[0] == Step::Key(key) {
                assert(steps =~= step);
                assert(change == first);
            } else {
                report_among_rest(prefix, old, new, x, new, change, steps);
                assert(reports(change, prefix, JsonModel::Object(x), after, steps));
            }
        }
    } else if old.len() == 0 || old[0].0 != new[0].0 {
        let y = new.drop_first();
        let key = new[0].0;
        let first = addition(joined_key(prefix, key), new[0].1);
        valid_rest(new);
        lookup_before_first(y, key);
        lookup_before_first(old, key);
        entry_changes_are_differences(prefix, old, y, change);
        concatenation_contains(seq![first], entry_changes(prefix, old, y), change);
        let step = seq![Step::Key(key)];
        assert(step.drop_first() =~= none);
        reveal_with_fuel(reached, 2);
        reveal_with_fuel(spelled, 2);
        reveal_with_fuel(differ_at, 2);
        assert(seq![first].contains(change) <==> change == first) by {
            assert(seq![first][0] == first);
        }
        if change == first {
            assert(reports(change, prefix, before, after, step));
        }
        if exists|steps: Seq<Step>| reports(change, prefix, before, JsonModel::Object(y), steps) {
            let steps = choose|steps: Seq<Step>|
                reports(change, prefix, before, JsonModel::Object(y), steps);
            assert(steps[0] != Step::Key(key));
            report_among_rest(prefix, old, new, old, y, change, steps);
            assert(reports(change, prefix, before, after, steps));
        }
        if exists|steps: Seq<Step>| reports(change, prefix, before, after, steps) {
            let steps = choose|steps: Seq<Step>| reports(change, prefix, before, after, steps);
            if steps[0] == Step::Key(key) {
                assert(steps =~= step);
                assert(change == first);
            } else {
                report_among_rest(prefix, old, new, old, y, change, steps);
                assert(reports(change, prefix, before, JsonModel::Object(y), steps));
            }
        }
    } else {
        let x = old.drop_first();
        let y = new.drop_first();
        let key = old[0].0;
        let step = Step::Key(key);
        let inner = joined_key(prefix, key);
        valid_rest(old);
        valid_rest(new);
        lookup_before_first(x, key);
        lookup_before_first(y, key);
        changes_are_differences(inner, old[0].1, new[0].1, change);
        entry_changes_are_differences(prefix, x, y, change);
        concatenation_contains(
            value_changes(inner, old[0].1, new[0].1),
            entry_changes(prefix, x, y),
            change,
        );
        if exists|rest: Seq<Step>| reports(change, inner, old[0].1, new[0].1, rest) {
            let rest = choose|rest: Seq<Step>| reports(change, inner, old[0].1, new[0].1, rest);
            report_below(prefix, before, after, step, change, rest);
            assert(reports(change, prefix, before, after, seq![step] + rest));
        }
        if exists|steps: Seq<Step>|
            reports(change, prefix, JsonModel::Object(x), JsonModel::Object(y), steps) {
            let steps = choose|steps: Seq<Step>|
                reports(change, prefix, JsonModel::Object(x), JsonModel::Object(y), steps);
            assert(steps[0] != step);
            report_among_rest(prefix, old, new, x, y, change, steps);
            assert(reports(change, prefix, before, after, steps));
        }
        if exists|steps: Seq<Step>| reports(change, prefix, before, after, steps) {
            let steps = choose|steps: Seq<Step>| reports(change, prefix, before, after, steps);
            if steps[0] == step {
                let rest = steps.drop_first();
                assert(seq![step] + rest =~= steps);
                report_below(prefix, before, after, step, change, rest);
                assert(reports(change, inner, old[0].1, new[0].1, rest));
            } else {
                report_among_rest(prefix, old, new, x, y, change, steps);
                assert(
                    reports(change, prefix, JsonModel::Object(x), JsonModel::Object(y), steps));
            }
        }
    }
}

/// Whether the change reports a difference between items the first of which has
/// `index`, at the place the steps lead to from there.
spec fn item_reports(
    change: KeyChangeModel,
    prefix: Seq<char>,
    old: Seq<JsonModel>,
    new: Seq<JsonModel>,
    index: nat,
    steps: Seq<Step>,
) -> bool {
    &&& differ_at(JsonModel::Array(old), JsonModel::Array(new), steps)
    &&& steps.len() > 0
    &&& steps[0] is Index
    &&& change.key == spelled(joined_index(prefix, index + steps[0]->Index_0), steps.drop_first())
    &&& change.before == reached(JsonModel::Array(old), steps)
    &&& change.after == reached(JsonModel::Array(new), steps)
    &&& change.change == kind_of(change.before, change.after)
}

/// The steps with the first index one less.
spec fn earlier(steps: Seq<Step>) -> Seq<Step> {
    seq![Step::Index((steps[0]->Index_0 - 1) as nat)] + steps.drop_first()
}

/// The steps with the first index one more.
spec fn later(steps: Seq<Step>) -> Seq<Step> {
    seq![Step::Index(steps[0]->Index_0 + 1)] + steps.drop_first()
}

/// The items of an array behind its first; none for an array without items.
spec fn behind_first(items: Seq<JsonModel>) -> Seq<JsonModel> {
    if items.len() > 0 {
        items.drop_first()
    } else {
        items
    }
}

/// A difference behind the first items is a difference of what follows them.
proof fn item_report_among_rest(
    prefix: Seq<char>,
    old: Seq<JsonModel>,
    new: Seq<JsonModel>,
    index: nat,
    change: KeyChangeModel,
    steps: Seq<Step>,
)
    requires
        steps.len() > 0,
        steps[0] is Index,
    ensures
        item_reports(change, prefix, old, new, index, later(steps)) == item_reports(
            change,
            prefix,
            behind_first(old),
            behind_first(new),
            index + 1,
            steps,
        ),
        later(steps)[0] is Index,
        later(steps)[0]->Index_0 > 0,
        earlier(later(steps)) == steps,
{
    let x = behind_first(old);
    let y = behind_first(new);
    let far = later(steps);
    assert(far.drop_first() =~= steps.drop_first());
    assert(earlier(far) =~= steps);
    assert(inside(JsonModel::Array(old), far[0]) == inside(JsonModel::Array(x), steps[0]));
    assert(inside(JsonModel::Array(new), far[0]) == inside(JsonModel::Array(y), steps[0]));
    assert(index + far[0]->Index_0 == index + 1 + steps[0]->Index_0);
}

/// A comparison of items reports exactly the places where they differ.
proof fn item_changes_are_differences(
    prefix: Seq<char>,
    old: Seq<JsonModel>,
    new: Seq<JsonModel>,
    index: nat,
    change: KeyChangeModel,
)
    requires
        json::valid(JsonModel::Array(old)),
        json::valid(JsonModel::Array(new)),
    ensures
        item_changes(prefix, old, new, index).contains(change) <==> exists|steps: Seq<Step>|
            item_reports(change, prefix, old, new, index, steps),
    decreases old, new.len(),
{
    let before = JsonModel::Array(old);
    let after = JsonModel::Array(new);
    let x = behind_first(old);
    let y = behind_first(new);
    let next = index + 1;
    if old.len() == 0 && new.len() == 0 {
        if exists|steps: Seq<Step>| item_reports(change, prefix, old, new, index, steps) {
            let steps = choose|steps: Seq<Step>|
                item_reports(change, prefix, old, new, index, steps);
            assert(inside(before, steps[0]) is None);
            assert(inside(after, steps[0]) is None);
        }
    } else {
        let here = joined_index(prefix, index);
        let step = Step::Index(0);
        let none = Seq::<Step>::empty();
        let first = if new.len() == 0 {
            seq![removal(here, old[0])]
        } else if old.len() == 0 {
            seq![addition(here, new[0])]
        } else {
            value_changes(here, old[0], new[0])
        };
        assert(json::valid(JsonModel::Array(x))) by {
            assert forall|i: int| 0 <= i < x.len() implies json::valid(#[trigger] x[i]) by {
                assert(x[i] == old[i + 1]);
            }
        }
        assert(json::valid(JsonModel::Array(y))) by {
            assert forall|i: int| 0 <= i < y.len() implies json::valid(#[trigger] y[i]) by {
                assert(y[i] == new[i + 1]);
            }
        }
        item_changes_are_differences(prefix, x, y, next, change);
        concatenation_contains(first, item_changes(prefix, x, y, next), change);
        if old.len() > 0 && new.len() > 0 {
            changes_are_differences(here, old[0], new[0], change);
            if exists|rest: Seq<Step>| reports(change, here, old[0], new[0], rest) {
                let rest = choose|rest: Seq<Step>| reports(change, here, old[0], new[0], rest);
                let steps = seq![step] + rest;
                assert(steps.drop_first() =~= rest);
                assert(item_reports(change, prefix, old, new, index, steps));
            }
        } else {
            reveal_with_fuel(reached, 2);
            reveal_with_fuel(spelled, 2);
            reveal_with_fuel(differ_at, 2);
            assert(seq![step].drop_first() =~= none);
            if first.contains(change) {
                assert(change == first[0]);
                assert(item_reports(change, prefix, old, new, index, seq![step]));
            }
        }
        if exists|steps: Seq<Step>| item_reports(change, prefix, x, y, next, steps) {
            let steps = choose|steps: Seq<Step>|
                item_reports(change, prefix, x, y, next, steps);
            item_report_among_rest(prefix, old, new, index, change, steps);
            assert(item_reports(change, prefix, old, new, index, later(steps)));
        }
        if exists|steps: Seq<Step>| item_reports(change, prefix, old, new, index, steps) {
            let steps = choose|steps: Seq<Step>|
                item_reports(change, prefix, old, new, index, steps);
            if steps[0]->Index_0 == 0 {
                let rest = steps.drop_first();
                if old.len() > 0 && new.len() > 0 {
                    assert(reports(change, here, old[0], new[0], rest));
                } else {
                    assert(rest =~= none);
                    assert(change == first[0]);
                }
            } else {
                let near = earlier(steps);
                item_report_among_rest(prefix, old, new, index, change, near);
                assert(near.drop_first() =~= steps.drop_first());
                assert(later(near) =~= steps);
                assert(item_reports(change, prefix, x, y, next, near));
            }
        }
    }
}

// ---------------------------------------------------------------------------
// Laws on the order of changes
// ---------------------------------------------------------------------------

/// Whether one step comes before another: to the lower key, or to the lower index.
pub open spec fn step_before(a: Step, b: Step) -> bool {
    match (a, b) {
        (Step::Key(x), Step::Key(y)) => text::precedes(x, y),
        (Step::Index(m), Step::Index(n)) => m < n,
        _ => false,
    }
}

/// Whether steps lead to a place before another: where they part, they take the step that
/// comes before.
pub open spec fn comes_first(s: Seq<Step>, t: Seq<Step>) -> bool
    decreases s.len(),
{
    &&& s.len() > 0
    &&& t.len() > 0
    &&& step_before(s[0], t[0]) || (s[0] == t[0] && comes_first(s.drop_first(), t.drop_first()))
}

/// Whether the changes report differences at the places that the ways lead to, one after
/// another.
pub open spec fn reported_along(
    changes: Seq<KeyChangeModel>,
    prefix: Seq<char>,
    before: JsonModel,
    after: JsonModel,
    ways: Seq<Seq<Step>>,
) -> bool {
    &&& ways.len() == changes.len()
    &&& forall|i: int|
        0 <= i < ways.len() ==> reports(changes[i], prefix, before, after, #[trigger] ways[i])
    &&& forall|i: int, j: int|
        0 <= i < j < ways.len() ==> comes_first(#[trigger] ways[i], #[trigger] ways[j])
}

/// Changes are reported in order of their places, each place once: objects key by key as
/// the keys ascend, arrays item by item, and what is inside before what follows.
pub proof fn changes_come_in_order(prefix: Seq<char>, before: JsonModel, after: JsonModel) -> (ways:
    Seq<Seq<Step>>)
    requires
        json::valid(before),
        json::valid(after),
    ensures
        reported_along(value_changes(prefix, before, after), prefix, before, after, ways),
    decreases before, 0nat,
{
    match (before, after) {
        (JsonModel::Object(old), JsonModel::Object(new)) => entry_changes_in_order(
            prefix,
            old,
            new,
        ),
        (JsonModel::Array(old), JsonModel::Array(new)) => {
            let ways = item_changes_in_order(prefix, old, new, 0);
            let changes = value_changes(prefix, before, after);
            assert forall|i: int| 0 <= i < ways.len() implies reports(
                changes[i],
                prefix,
                before,
                after,
                #[trigger] ways[i],
            ) by {
                assert(item_reports(changes[i], prefix, old, new, 0, ways[i]));
            }
            ways
        },
        _ => {
            let here = Seq::<Step>::empty();
            if json::scalars_equal(before, after) {
                Seq::empty()
            } else {
                let ways = seq![here];
                let changes = value_changes(prefix, before, after);
                assert(changes[0] == modification(prefix, before, after));
                assert(reports(changes[0], prefix, before, after, here));
                ways
            }
        },
    }
}

/// A key that ascending entries have lies behind what precedes the first of them.
proof fn found_key_lies_behind(
    entries: Seq<(Seq<char>, JsonModel)>,
    key: Seq<char>,
    other: Seq<char>,
)
    requires
        order::ascending(order::keys(entries)),
        entries.len() > 0 ==> text::precedes(key, entries[0].0),
        order::lookup(entries, other) is Some,
    ensures
        text::precedes(key, other),
{
    order::lookup_finds_the_first(entries, other);
    let names = order::keys(entries);
    let value = order::lookup(entries, other)->0;
    let i = choose|i: int|
        0 <= i < entries.len() && (#[trigger] entries[i]) == (other, value) && forall|k: int|
            0 <= k < i ==> (#[trigger] entries[k]).0 != other;
    assert(names[i] == other);
    if i > 0 {
        assert(text::precedes(names[0], names[i]));
        text::precedes_transitive(key, entries[0].0, other);
    }
}

/// Steps to a difference of two objects start with a key that one of them has.
proof fn difference_starts_with_key(
    x: Seq<(Seq<char>, JsonModel)>,
    y: Seq<(Seq<char>, JsonModel)>,
    key: Seq<char>,
    steps: Seq<Step>,
)
    requires
        differ_at(JsonModel::Object(x), JsonModel::Object(y), steps),
        order::ascending(order::keys(x)),
        order::ascending(order::keys(y)),
        x.len() > 0 ==> text::precedes(key, x[0].0),
        y.len() > 0 ==> text::precedes(key, y[0].0),
    ensures
        steps.len() > 0,
        steps[0] is Key,
        step_before(Step::Key(key), steps[0]),
        steps[0] != Step::Key(key),
{
    assert(steps.len() > 0);
    assert(steps[0] is Key);
    let other = steps[0]->Key_0;
    if order::lookup(x, other) is Some {
        found_key_lies_behind(x, key, other);
    } else {
        found_key_lies_behind(y, key, other);
    }
    text::precedes_irreflexive(key);
}

/// Places below one step come in the order they have below it.
proof fn same_step_first(step: Step, s: Seq<Step>, t: Seq<Step>)
    requires
        comes_first(s, t),
    ensures
        comes_first(seq![step] + s, seq![step] + t),
{
    assert((seq![step] + s).drop_first() =~= s);
    assert((seq![step] + t).drop_first() =~= t);
}

/// The changes of entries come in order.
proof fn entry_changes_in_order(
    prefix: Seq<char>,
    old: Seq<(Seq<char>, JsonModel)>,
    new: Seq<(Seq<char>, JsonModel)>,
) -> (ways: Seq<Seq<Step>>)
    requires
        json::valid(JsonModel::Object(old)),
        json::valid(JsonModel::Object(new)),
    ensures
        reported_along(
            entry_changes(prefix, old, new),
            prefix,
            JsonModel::Object(old),
            JsonModel::Object(new),
            ways,
        ),
    decreases old, new.len(),
{
    let before = JsonModel::Object(old);
    let after = JsonModel::Object(new);
    let all = entry_changes(prefix, old, new);
    if old.len() > 0 && new.len() > 0 {
        text::precedes_total(old[0].0, new[0].0);
    }
    if old.len() == 0 && new.len() == 0 {
        Seq::empty()
    } else if new.len() == 0 || (old.len() > 0 && text::precedes(old[0].0, new[0].0)) {
        let x = old.drop_first();
        let key = old[0].0;
        let first = removal(joined_key(prefix, key), old[0].1);
        valid_rest(old);
        lookup_before_first(x, key);
        lookup_before_first(new, key);
        let rest = entry_changes_in_order(prefix, x, new);
        let step = seq![Step::Key(key)];
        assert(step.drop_first() =~= Seq::<Step>::empty());
        assert(reports(first, prefix, before, after, step)) by {
            reveal_with_fuel(reached, 2);
            reveal_with_fuel(spelled, 2);
            reveal_with_fuel(differ_at, 2);
        }
        let ways = seq![step] + rest;
        assert forall|i: int| 0 <= i < rest.len() implies reports(
            all[i + 1],
            prefix,
            before,
            after,
            #[trigger] rest[i],
        ) && comes_first(step, rest[i]) by {
            assert(all[i + 1] == entry_changes(prefix, x, new)[i]);
            difference_starts_with_key(x, new, key, rest[i]);
            report_among_rest(prefix, old, new, x, new, all[i + 1], rest[i]);
        }
        along_in_parts(all, prefix, before, after, seq![step], rest);
        ways
    } else if old.len() == 0 || old[0].0 != new[0].0 {
        let y = new.drop_first();
        let key = new[0].0;
        let first = addition(joined_key(prefix, key), new[0].1);
        valid_rest(new);
        lookup_before_first(y, key);
        lookup_before_first(old, key);
        let rest = entry_changes_in_order(prefix, old, y);
        let step = seq![Step::Key(key)];
        assert(step.drop_first() =~= Seq::<Step>::empty());
        assert(reports(first, prefix, before, after, step)) by {
            reveal_with_fuel(reached, 2);
            reveal_with_fuel(spelled, 2);
            reveal_with_fuel(differ_at, 2);
        }
        let ways = seq![step] + rest;
        assert forall|i: int| 0 <= i < rest.len() implies reports(
            all[i + 1],
            prefix,
            before,
            after,
            #[trigger] rest[i],
        ) && comes_first(step, rest[i]) by {
            assert(all[i + 1] == entry_changes(prefix, old, y)[i]);
            difference_starts_with_key(old, y, key, rest[i]);
            report_among_rest(prefix, old, new, old, y, all[i + 1], rest[i]);
        }
        along_in_parts(all, prefix, before, after, seq![step], rest);
        ways
    } else {
        let x = old.drop_first();
        let y = new.drop_first();
        let key = old[0].0;
        let step = Step::Key(key);
        let inner = joined_key(prefix, key);
        valid_rest(old);
        valid_rest(new);
        lookup_before_first(x, key);
        lookup_before_first(y, key);
        let below = changes_come_in_order(inner, old[0].1, new[0].1);
        let rest = entry_changes_in_order(prefix, x, y);
        let head = below.map_values(|steps: Seq<Step>| seq![step] + steps);
        let within = value_changes(inner, old[0].1, new[0].1);
        assert forall|i: int| 0 <= i < head.len() implies reports(
            all[i],
            prefix,
            before,
            after,
            #[trigger] head[i],
        ) by {
            assert(reports(within[i], inner, old[0].1, new[0].1, below[i]));
            assert(all[i] == within[i]);
            report_below(prefix, before, after, step, all[i], below[i]);
        }
        assert forall|i: int, j: int| 0 <= i < j < head.len() implies comes_first(
            #[trigger] head[i],
            #[trigger] head[j],
        ) by {
            assert(comes_first(below[i], below[j]));
            same_step_first(step, below[i], below[j]);
        }
        assert forall|i: int| 0 <= i < rest.len() implies reports(
            all[head.len() + i],
            prefix,
            before,
            after,
            #[trigger] rest[i],
        ) && step_before(step, rest[i][0]) && rest[i].len() > 0 by {
            assert(all[head.len() + i] == entry_changes(prefix, x, y)[i]);
            difference_starts_with_key(x, y, key, rest[i]);
            report_among_rest(prefix, old, new, x, y, all[head.len() + i], rest[i]);
        }
        assert forall|i: int, j: int|
            0 <= i < head.len() && 0 <= j < rest.len() implies comes_first(
            #[trigger] head[i],
            #[trigger] rest[j],
        ) by {
            assert(head[i][0] == step);
        }
        along_in_parts(all, prefix, before, after, head, rest);
        head + rest
    }
}

/// Ways in two parts, the first before the second, are ways as a whole.
proof fn along_in_parts(
    changes: Seq<KeyChangeModel>,
    prefix: Seq<char>,
    before: JsonModel,
    after: JsonModel,
    first: Seq<Seq<Step>>,
    second: Seq<Seq<Step>>,
)
    requires
        first.len() + second.len() == changes.len(),
        forall|i: int|
            0 <= i < first.len() ==> reports(changes[i], prefix, before, after, #[trigger] first[i]),
        forall|i: int|
            0 <= i < second.len() ==> reports(
                changes[first.len() + i],
                prefix,
                before,
                after,
                #[trigger] second[i],
            ),
        forall|i: int, j: int|
            0 <= i < j < first.len() ==> comes_first(#[trigger] first[i], #[trigger] first[j]),
        forall|i: int, j: int|
            0 <= i < j < second.len() ==> comes_first(#[trigger] second[i], #[trigger] second[j]),
        forall|i: int, j: int|
            0 <= i < first.len() && 0 <= j < second.len() ==> comes_first(
                #[trigger] first[i],
                #[trigger] second[j],
            ),
    ensures
        reported_along(changes, prefix, before, after, first + second),
{
    let ways = first + second;
    let n = first.len() as int;
    assert forall|i: int| 0 <= i < ways.len() implies reports(
        changes[i],
        prefix,
        before,
        after,
        #[trigger] ways[i],
    ) by {
        if i < n {
            assert(ways[i] == first[i]);
        } else {
            assert(ways[i] == second[i - n]);
            assert(changes[n + (i - n)] == changes[i]);
        }
    }
    assert forall|i: int, j: int| 0 <= i < j < ways.len() implies comes_first(
        #[trigger] ways[i],
        #[trigger] ways[j],
    ) by {
        if j < n {
            assert(ways[i] == first[i] && ways[j] == first[j]);
        } else if i < n {
            assert(ways[i] == first[i] && ways[j] == second[j - n]);
        } else {
            assert(ways[i] == second[i - n] && ways[j] == second[j - n]);
        }
    }
}

/// Behind the first of valid items there are valid items.
proof fn valid_behind_first(items: Seq<JsonModel>)
    requires
        json::valid(JsonModel::Array(items)),
    ensures
        json::valid(JsonModel::Array(behind_first(items))),
        items.len() > 0 ==> json::valid(items[0]),
{
    let all = JsonModel::Array(items);
    assert(all->Array_0 == items);
    let rest = behind_first(items);
    assert forall|i: int| 0 <= i < rest.len() implies json::valid(#[trigger] rest[i]) by {
        assert(rest[i] == all->Array_0[i + 1]);
    }
}

/// The changes of items come in order, as steps from the first of the items.
proof fn item_changes_in_order(
    prefix: Seq<char>,
    old: Seq<JsonModel>,
    new: Seq<JsonModel>,
    index: nat,
) -> (ways: Seq<Seq<Step>>)
    requires
        json::valid(JsonModel::Array(old)),
        json::valid(JsonModel::Array(new)),
    ensures
        ways.len() == item_changes(prefix, old, new, index).len(),
        forall|i: int|
            0 <= i < ways.len() ==> item_reports(
                item_changes(prefix, old, new, index)[i],
                prefix,
                old,
                new,
                index,
                #[trigger] ways[i],
            ),
        forall|i: int, j: int|
            0 <= i < j < ways.len() ==> comes_first(#[trigger] ways[i], #[trigger] ways[j]),
    decreases old, new.len(),
{
    let all = item_changes(prefix, old, new, index);
    if old.len() == 0 && new.len() == 0 {
        Seq::empty()
    } else {
        let x = behind_first(old);
        let y = behind_first(new);
        let next = index + 1;
        let here = joined_index(prefix, index);
        let step = Step::Index(0);
        valid_behind_first(old);
        valid_behind_first(new);
        let behind = item_changes_in_order(prefix, x, y, next);
        let rest = behind.map_values(|steps: Seq<Step>| later(steps));
        let first = if new.len() == 0 {
            seq![removal(here, old[0])]
        } else if old.len() == 0 {
            seq![addition(here, new[0])]
        } else {
            value_changes(here, old[0], new[0])
        };
        let head = if old.len() > 0 && new.len() > 0 {
            let below = changes_come_in_order(here, old[0], new[0]);
            let head = below.map_values(|steps: Seq<Step>| seq![step] + steps);
            assert forall|i: int| 0 <= i < head.len() implies item_reports(
                first[i],
                prefix,
                old,
                new,
                index,
                #[trigger] head[i],
            ) by {
                assert(reports(first[i], here, old[0], new[0], below[i]));
                assert(head[i].drop_first() =~= below[i]);
            }
            assert forall|i: int, j: int| 0 <= i < j < head.len() implies comes_first(
                #[trigger] head[i],
                #[trigger] head[j],
            ) by {
                assert(comes_first(below[i], below[j]));
                same_step_first(step, below[i], below[j]);
            }
            head
        } else {
            let head = seq![seq![step]];
            assert(item_reports(first[0], prefix, old, new, index, head[0])) by {
                reveal_with_fuel(reached, 2);
                reveal_with_fuel(spelled, 2);
                reveal_with_fuel(differ_at, 2);
                assert(seq![step].drop_first() =~= Seq::<Step>::empty());
            }
            head
        };
        let ways = head + rest;
        assert(all =~= first + item_changes(prefix, x, y, next));
        assert forall|i: int| 0 <= i < ways.len() implies item_reports(
            all[i],
            prefix,
            old,
            new,
            index,
            #[trigger] ways[i],
        ) && ways[i].len() > 0 && ways[i][0] is Index && (i < head.len() <==> ways[i][0]
            == step) by {
            if i < head.len() {
                assert(ways[i] == head[i]);
                assert(all[i] == first[i]);
                assert(ways[i][0] == step);
            } else {
                let k = i - head.len();
                assert(ways[i] == later(behind[k]));
                assert(all[i] == item_changes(prefix, x, y, next)[k]);
                assert(item_reports(all[i], prefix, x, y, next, behind[k]));
                item_report_among_rest(prefix, old, new, index, all[i], behind[k]);
            }
        }
        assert forall|i: int, j: int| 0 <= i < j < ways.len() implies comes_first(
            #[trigger] ways[i],
            #[trigger] ways[j],
        ) by {
            if j < head.len() {
                assert(ways[i] == head[i] && ways[j] == head[j]);
            } else if i < head.len() {
                assert(ways[j][0] is Index && ways[i][0] == step);
            } else {
                let k = i - head.len();
                let m = j - head.len();
                assert(ways[i] == later(behind[k]) && ways[j] == later(behind[m]));
                assert(comes_first(behind[k], behind[m]));
                assert(item_reports(
                    item_changes(prefix, x, y, next)[k],
                    prefix,
                    x,
                    y,
                    next,
                    behind[k],
                ));
                assert(item_reports(
                    item_changes(prefix, x, y, next)[m],
                    prefix,
                    x,
                    y,
                    next,
                    behind[m],
                ));
                assert(later(behind[k]).drop_first() =~= behind[k].drop_first());
                assert(later(behind[m]).drop_first() =~= behind[m].drop_first());
            }
        }
        ways
    }
}

// ---------------------------------------------------------------------------
// Laws on paths
// ---------------------------------------------------------------------------

/// The path of a key below a place starts with the whole path of that place, whatever it
/// ends with, and goes on with a dot and the key. At the top it is the key itself.
pub proof fn a_key_stands_behind_its_place(prefix: Seq<char>, key: Seq<char>)
    ensures
        prefix.len() == 0 ==> joined_key(prefix, key) == key,
        prefix.len() > 0 ==> {
            let path = joined_key(prefix, key);
            &&& path.len() == prefix.len() + 1 + key.len()
            &&& path.take(prefix.len() as int) == prefix
            &&& path[prefix.len() as int] == '.'
            &&& path.skip(prefix.len() as int + 1) == key
        },
{
    reveal_strlit(".");
    if prefix.len() > 0 {
        let path = joined_key(prefix, key);
        assert(path.take(prefix.len() as int) =~= prefix);
        assert(path.skip(prefix.len() as int + 1) =~= key);
    }
}

/// The path of an item starts with the whole path of its array and goes on with the index
/// in square brackets, in decimal digits.
pub proof fn an_index_stands_behind_its_place(prefix: Seq<char>, index: nat)
    ensures
        ({
            let path = joined_index(prefix, index);
            let digits = path.subrange(prefix.len() as int + 1, path.len() - 1);
            &&& path.len() >= prefix.len() + 3
            &&& path.take(prefix.len() as int) == prefix
            &&& path[prefix.len() as int] == '['
            &&& path.last() == ']'
            &&& forall|i: int| 0 <= i < digits.len() ==> '0' <= #[trigger] digits[i] <= '9'
            &&& number::number_meant(digits, 10) == index
        }),
{
    reveal_strlit("[");
    reveal_strlit("]");
    let path = joined_index(prefix, index);
    number::decimal_is_digits(index);
    number::decimal_reads_back(index);
    assert(path.take(prefix.len() as int) =~= prefix);
    assert(path.subrange(prefix.len() as int + 1, path.len() - 1) =~= number::decimal(index));
}

/// A path goes on from the path of every place on the way, so that a change below an item
/// names the item.
pub proof fn paths_start_with_the_way(prefix: Seq<char>, steps: Seq<Step>, count: int)
    requires
        0 <= count <= steps.len(),
    ensures
        ({
            let way = spelled(prefix, steps.take(count));
            &&& way.len() <= spelled(prefix, steps).len()
            &&& spelled(prefix, steps).take(way.len() as int) == way
        }),
    decreases steps.len(),
{
    let path = spelled(prefix, steps);
    if count == 0 {
        assert(steps.take(0) =~= Seq::<Step>::empty());
        if steps.len() > 0 {
            let next = stepped(prefix, steps[0]);
            assert(next.len() >= prefix.len() && next.take(prefix.len() as int) =~= prefix) by {
                match steps[0] {
                    Step::Key(key) => a_key_stands_behind_its_place(prefix, key),
                    Step::Index(index) => an_index_stands_behind_its_place(prefix, index),
                }
            }
            paths_start_with_the_way(next, steps.drop_first(), 0);
            assert(steps.drop_first().take(0) =~= Seq::<Step>::empty());
            assert(path.take(next.len() as int) == next);
            assert(path.take(prefix.len() as int) =~= next.take(prefix.len() as int));
        } else {
            assert(path.take(prefix.len() as int) =~= prefix);
        }
    } else {
        let next = stepped(prefix, steps[0]);
        paths_start_with_the_way(next, steps.drop_first(), count - 1);
        assert(steps.take(count).drop_first() =~= steps.drop_first().take(count - 1));
        assert(steps.take(count)[0] == steps[0]);
    }
}

/// Whether a key holds none of the characters that part the steps of a path.
pub open spec fn plain(key: Seq<char>) -> bool {
    forall|i: int|
        0 <= i < key.len() ==> #[trigger] key[i] != '.' && key[i] != '[' && key[i] != ']'
}

/// Whether every key on the way is plain.
pub open spec fn plain_steps(steps: Seq<Step>) -> bool {
    forall|i: int| 0 <= i < steps.len() && (#[trigger] steps[i]) is Key ==> plain(steps[i]->Key_0)
}

/// Whether the first step is to an empty key, which at the top leaves no mark in a path.
pub open spec fn unmarked(steps: Seq<Step>) -> bool {
    steps.len() > 0 && steps[0] == Step::Key(Seq::empty())
}

/// Paths of two different places of a document differ, where the keys on the way hold no
/// dot and no bracket. At the top an empty key leaves no mark, so that ways from there do
/// not start with one.
pub proof fn paths_tell_places_apart(prefix: Seq<char>, s: Seq<Step>, t: Seq<Step>)
    requires
        plain_steps(s),
        plain_steps(t),
        prefix.len() > 0 || !(unmarked(s) || unmarked(t)),
        spelled(prefix, s) == spelled(prefix, t),
    ensures
        s == t,
{
    if prefix.len() > 0 {
        path_behind_place(prefix, s);
        path_behind_place(prefix, t);
        assert(spelled(prefix, s).skip(prefix.len() as int) =~= trail(s));
        assert(spelled(prefix, t).skip(prefix.len() as int) =~= trail(t));
        trails_differ(s, t);
    } else {
        path_from_the_top(prefix, s);
        path_from_the_top(prefix, t);
        let path = spelled(prefix, s);
        if s.len() == 0 || t.len() == 0 {
            assert(s =~= t);
        } else {
            match (s[0], t[0]) {
                (Step::Key(a), Step::Key(b)) => {
                    assert(seq!['.'] + path =~= trail(s));
                    assert(seq!['.'] + path =~= trail(t));
                },
                (Step::Index(_), Step::Index(_)) => {},
                (Step::Key(a), Step::Index(_)) => {
                    assert(path[0] == a[0]);
                    assert(path[0] == '[');
                },
                (Step::Index(_), Step::Key(b)) => {
                    assert(path[0] == b[0]);
                    assert(path[0] == '[');
                },
            }
            trails_differ(s, t);
        }
    }
}

/// One step as it stands in a path behind a place.
spec fn mark(step: Step) -> Seq<char> {
    match step {
        Step::Key(key) => seq!['.'] + key,
        Step::Index(index) => seq!['['] + number::decimal(index) + seq![']'],
    }
}

/// The steps as they stand in a path behind a place.
spec fn trail(steps: Seq<Step>) -> Seq<char>
    decreases steps.len(),
{
    if steps.len() == 0 {
        Seq::empty()
    } else {
        mark(steps[0]) + trail(steps.drop_first())
    }
}

/// Behind a place, a path is the place's path and the steps.
proof fn path_behind_place(prefix: Seq<char>, steps: Seq<Step>)
    requires
        prefix.len() > 0,
    ensures
        spelled(prefix, steps) == prefix + trail(steps),
    decreases steps.len(),
{
    reveal_strlit(".");
    reveal_strlit("[");
    reveal_strlit("]");
    if steps.len() == 0 {
        assert(prefix + trail(steps) =~= prefix);
    } else {
        let next = stepped(prefix, steps[0]);
        assert(next =~= prefix + mark(steps[0]));
        path_behind_place(next, steps.drop_first());
        assert(next + trail(steps.drop_first()) =~= prefix + trail(steps));
    }
}

/// From the top, a path is the steps without the dot before a first key.
proof fn path_from_the_top(prefix: Seq<char>, steps: Seq<Step>)
    requires
        prefix.len() == 0,
        !unmarked(steps),
    ensures
        steps.len() == 0 ==> spelled(prefix, steps).len() == 0,
        steps.len() > 0 ==> spelled(prefix, steps).len() > 0,
        steps.len() > 0 && steps[0] is Index ==> spelled(prefix, steps) == trail(steps)
            && trail(steps)[0] == '[',
        steps.len() > 0 && steps[0] is Key ==> seq!['.'] + spelled(prefix, steps) == trail(steps)
            && spelled(prefix, steps)[0] == steps[0]->Key_0[0] && steps[0]->Key_0.len() > 0,
{
    reveal_strlit("[");
    reveal_strlit("]");
    if steps.len() > 0 {
        let next = stepped(prefix, steps[0]);
        match steps[0] {
            Step::Key(key) => {
                assert(key.len() > 0) by {
                    if key.len() == 0 {
                        assert(key =~= Seq::empty());
                    }
                }
                path_behind_place(next, steps.drop_first());
                assert(seq!['.'] + spelled(prefix, steps) =~= trail(steps));
            },
            Step::Index(index) => {
                assert(next =~= mark(steps[0]));
                path_behind_place(next, steps.drop_first());
            },
        }
    }
}

/// What stands behind a key in a path starts with a dot or a bracket, if anything does.
proof fn trail_starts_apart(steps: Seq<Step>)
    ensures
        trail(steps).len() > 0 ==> trail(steps)[0] == '.' || trail(steps)[0] == '[',
        trail(steps).len() > 0 <==> steps.len() > 0,
{
}

/// Different steps stand differently in a path.
proof fn trails_differ(s: Seq<Step>, t: Seq<Step>)
    requires
        plain_steps(s),
        plain_steps(t),
        trail(s) == trail(t),
    ensures
        s == t,
    decreases s.len(),
{
    trail_starts_apart(s);
    trail_starts_apart(t);
    if s.len() == 0 || t.len() == 0 {
        assert(s =~= t);
    } else {
        let x = s.drop_first();
        let y = t.drop_first();
        let all = trail(s);
        trail_starts_apart(x);
        trail_starts_apart(y);
        assert(plain_steps(x)) by {
            assert forall|i: int| 0 <= i < x.len() && (#[trigger] x[i]) is Key implies plain(
                x[i]->Key_0,
            ) by {
                assert(x[i] == s[i + 1]);
            }
        }
        assert(plain_steps(y)) by {
            assert forall|i: int| 0 <= i < y.len() && (#[trigger] y[i]) is Key implies plain(
                y[i]->Key_0,
            ) by {
                assert(y[i] == t[i + 1]);
            }
        }
        match (s[0], t[0]) {
            (Step::Key(a), Step::Key(b)) => {
                assert(plain(a) && plain(b));
                if a.len() < b.len() {
                    assert(all[a.len() as int + 1] == b[a.len() as int]);
                    assert(all[a.len() as int + 1] == trail(x)[0]);
                }
                if b.len() < a.len() {
                    assert(all[b.len() as int + 1] == a[b.len() as int]);
                    assert(all[b.len() as int + 1] == trail(y)[0]);
                }
                assert(a.len() == b.len());
                assert forall|i: int| 0 <= i < a.len() implies a[i] == b[i] by {
                    assert(all[i + 1] == a[i]);
                    assert(all[i + 1] == b[i]);
                }
                assert(a =~= b);
            },
            (Step::Index(m), Step::Index(n)) => {
                let a = number::decimal(m);
                let b = number::decimal(n);
                number::decimal_is_digits(m);
                number::decimal_is_digits(n);
                if a.len() < b.len() {
                    assert(all[a.len() as int + 1] == b[a.len() as int]);
                    assert(all[a.len() as int + 1] == ']');
                }
                if b.len() < a.len() {
                    assert(all[b.len() as int + 1] == a[b.len() as int]);
                    assert(all[b.len() as int + 1] == ']');
                }
                assert(a.len() == b.len());
                assert forall|i: int| 0 <= i < a.len() implies a[i] == b[i] by {
                    assert(all[i + 1] == a[i]);
                    assert(all[i + 1] == b[i]);
                }
                assert(a =~= b);
                number::decimal_injective(m, n);
            },
            (Step::Key(_), Step::Index(_)) => {
                assert(all[0] == '.');
                assert(all[0] == '[');
            },
            (Step::Index(_), Step::Key(_)) => {
                assert(all[0] == '.');
                assert(all[0] == '[');
            },
        }
        let n = mark(s[0]).len() as int;
        assert(all.skip(n) =~= trail(x));
        assert(all.skip(n) =~= trail(y));
        trails_differ(x, y);
        assert(s =~= seq![s[0]] + x);
        assert(t =~= seq![t[0]] + y);
    }
}

// ---------------------------------------------------------------------------
// Laws on snapshots
// ---------------------------------------------------------------------------

/// A file is found under a path exactly when some file has that path.
proof fn found_iff_listed(files: Seq<FileEntry>, path: Seq<char>)
    ensures
        snapshot::find_file(files, path) is Some <==> paths_of(files).contains(path),
    decreases files.len(),
{
    let all = paths_of(files);
    if files.len() > 0 {
        let rest = files.drop_first();
        assert(all[0] == files[0].path@);
        assert(paths_of(rest) =~= all.drop_first());
        found_iff_listed(rest, path);
        if all.contains(path) && files[0].path@ != path {
            let i = choose|i: int| 0 <= i < all.len() && all[i] == path;
            assert(paths_of(rest)[i - 1] == path);
        }
        if paths_of(rest).contains(path) {
            let i = choose|i: int| 0 <= i < paths_of(rest).len() && paths_of(rest)[i] == path;
            assert(all[i + 1] == path);
        }
    }
}

/// What happened to the file at `path` between two snapshots.
pub open spec fn change_of(path: Seq<char>, before: Seq<FileEntry>, after: Seq<FileEntry>) -> Option<
    FileChangeModel,
> {
    file_change(path, snapshot::find_file(before, path), snapshot::find_file(after, path))
}

/// The paths of a list of changes.
pub open spec fn changed_paths(changes: Seq<FileChangeModel>) -> Seq<Seq<char>> {
    changes.map_values(|change: FileChangeModel| change.path)
}

/// What is reported at some paths are the changes there, in the order of the paths.
proof fn changes_at_are(
    paths: Seq<Seq<char>>,
    before: Seq<FileEntry>,
    after: Seq<FileEntry>,
    change: FileChangeModel,
)
    requires
        order::ascending(paths),
    ensures
        changes_at(paths, before, after).contains(change) <==> paths.contains(change.path)
            && change_of(change.path, before, after) == Some(change),
        order::ascending(changed_paths(changes_at(paths, before, after))),
        forall|i: int|
            0 <= i < changes_at(paths, before, after).len() ==> paths.contains(
                (#[trigger] changes_at(paths, before, after)[i]).path,
            ),
    decreases paths.len(),
{
    let all = changes_at(paths, before, after);
    if paths.len() > 0 {
        let path = paths.last();
        let front = paths.drop_last();
        let last = at_most_one(change_of(path, before, after));
        let earlier = changes_at(front, before, after);
        changes_at_are(front, before, after, change);
        concatenation_contains(earlier, last, change);
        assert(paths[paths.len() - 1] == path);
        if last.contains(change) {
            assert(change_of(path, before, after) == Some(change));
        }
        if paths.contains(change.path) && change_of(change.path, before, after) == Some(change) {
            let i = choose|i: int| 0 <= i < paths.len() && paths[i] == change.path;
            if i < front.len() {
                assert(front[i] == change.path);
            } else {
                assert(last[0] == change);
            }
        }
        if front.contains(change.path) {
            let i = choose|i: int| 0 <= i < front.len() && front[i] == change.path;
            assert(paths[i] == change.path);
        }
        assert forall|i: int| 0 <= i < all.len() implies paths.contains((#[trigger] all[i]).path) by {
            if i < earlier.len() {
                assert(all[i] == earlier[i]);
                let k = choose|k: int| 0 <= k < front.len() && front[k] == earlier[i].path;
                assert(paths[k] == all[i].path);
            } else {
                assert(all[i] == last[i - earlier.len()]);
            }
        }
        let names = changed_paths(all);
        assert forall|i: int, j: int| 0 <= i < j < names.len() implies text::precedes(
            #[trigger] names[i],
            #[trigger] names[j],
        ) by {
            let before_last = changed_paths(earlier);
            if j < earlier.len() {
                assert(names[i] == before_last[i]);
                assert(names[j] == before_last[j]);
            } else {
                assert(all[i] == earlier[i]);
                let k = choose|k: int| 0 <= k < front.len() && front[k] == earlier[i].path;
                assert(text::precedes(paths[k], paths[paths.len() - 1]));
            }
        }
    }
}

/// Two snapshots differ in a file exactly where only one has it, or both have it
/// with different hashes; that is what is reported, in order of the paths, each
/// path once.
pub proof fn file_changes_are_differences(
    before: Seq<FileEntry>,
    after: Seq<FileEntry>,
    change: FileChangeModel,
)
    ensures
        file_changes(before, after).contains(change) <==> change_of(change.path, before, after)
            == Some(change),
        order::ascending(changed_paths(file_changes(before, after))),
{
    let all = paths_of(before) + paths_of(after);
    let paths = order::collected(all);
    order::collected_is_set(all);
    changes_at_are(paths, before, after, change);
    found_iff_listed(before, change.path);
    found_iff_listed(after, change.path);
    concatenation_contains(paths_of(before), paths_of(after), change.path);
    assert(paths.contains(change.path) <==> all.contains(change.path));
}

/// Whether two snapshots agree on a path: neither has it, or both have it with the
/// same hash.
pub open spec fn same_hash_at(
    path: Seq<char>,
    before: Seq<FileEntry>,
    after: Seq<FileEntry>,
) -> bool {
    match (snapshot::find_file(before, path), snapshot::find_file(after, path)) {
        (None, None) => true,
        (Some(old), Some(new)) => old.sha256@ == new.sha256@,
        _ => false,
    }
}

/// Nothing is reported exactly when the snapshots have the same paths, each with
/// the same hash.
pub proof fn no_file_changes_iff_same_hashes(before: Seq<FileEntry>, after: Seq<FileEntry>)
    ensures
        file_changes(before, after).len() == 0 <==> forall|path: Seq<char>| #[trigger]
            same_hash_at(path, before, after),
{
    let all = file_changes(before, after);
    assert forall|path: Seq<char>| #[trigger] same_hash_at(path, before, after) <==> change_of(
        path,
        before,
        after,
    ) is None by {}
    if all.len() > 0 {
        file_changes_are_differences(before, after, all[0]);
        assert(all.contains(all[0]));
        assert(!same_hash_at(all[0].path, before, after));
    } else {
        assert forall|path: Seq<char>| #[trigger] same_hash_at(path, before, after) by {
            if let Some(change) = change_of(path, before, after) {
                file_changes_are_differences(before, after, change);
                assert(change.path == path);
                assert(all.contains(change));
            }
        }
    }
}

/// A snapshot does not differ from one that records the same files.
pub proof fn same_files_differ_nowhere(a: Seq<FileEntry>, b: Seq<FileEntry>)
    requires
        a.len() == b.len(),
        forall|i: int| 0 <= i < a.len() ==> snapshot::same_record(#[trigger] a[i], b[i]),
    ensures
        file_changes(a, b).len() == 0,
{
    assert forall|path: Seq<char>| #[trigger] same_hash_at(path, a, b) by {
        same_records_are_found(a, b, path);
    }
    no_file_changes_iff_same_hashes(a, b);
}

/// Lists that record the same files find the same file under a path.
proof fn same_records_are_found(a: Seq<FileEntry>, b: Seq<FileEntry>, path: Seq<char>)
    requires
        a.len() == b.len(),
        forall|i: int| 0 <= i < a.len() ==> snapshot::same_record(#[trigger] a[i], b[i]),
    ensures
        same_hash_at(path, a, b),
    decreases a.len(),
{
    if a.len() > 0 {
        assert(snapshot::same_record(a[0], b[0]));
        let x = a.drop_first();
        let y = b.drop_first();
        assert forall|i: int| 0 <= i < x.len() implies snapshot::same_record(#[trigger] x[i], y[i]) by {
            assert(snapshot::same_record(a[i + 1], b[i + 1]));
        }
        same_records_are_found(x, y, path);
    }
}

/// A container in which nothing changed does not differ from itself: two captures of
/// the same readings, at whatever times, compare without a change.
pub proof fn unchanged_container_differs_nowhere(
    readings: Seq<Reading>,
    resolved: discover::Container,
    device: discover::Device,
    earlier: i64,
    later: i64,
    a: Snapshot,
    b: Snapshot,
)
    requires
        snapshot::captured(readings, resolved, device, earlier, a),
        snapshot::captured(readings, resolved, device, later, b),
    ensures
        a.group_id@ == b.group_id@,
        file_changes(a.files@, b.files@).len() == 0,
{
    snapshot::recapture_is_stable(readings, resolved, device, earlier, later, a, b);
    same_files_differ_nowhere(a.files@, b.files@);
}

/// The file change seen from the other side.
pub open spec fn mirrored_file(change: FileChangeModel) -> FileChangeModel {
    FileChangeModel {
        path: change.path,
        change: mirrored_kind(change.change),
        size_before: change.size_after,
        size_after: change.size_before,
        keys: match change.keys {
            Some(keys) => Some(all_mirrored(keys)),
            None => None,
        },
    }
}

/// The file changes seen from the other side.
pub open spec fn files_mirrored(changes: Seq<FileChangeModel>) -> Seq<FileChangeModel> {
    changes.map_values(|change: FileChangeModel| mirrored_file(change))
}

/// What happened to one file, seen from the other side.
proof fn change_of_mirrors(path: Seq<char>, before: Seq<FileEntry>, after: Seq<FileEntry>)
    ensures
        change_of(path, after, before) == match change_of(path, before, after) {
            Some(change) => Some(mirrored_file(change)),
            None => None,
        },
{
    match (snapshot::find_file(before, path), snapshot::find_file(after, path)) {
        (Some(old), Some(new)) => match (old.content, new.content) {
            (Some(x), Some(y)) => {
                comparison_mirrors(seq![], x@, y@);
            },
            _ => {},
        },
        _ => {},
    }
}

/// What is reported at some paths, seen from the other side.
proof fn changes_at_mirror(paths: Seq<Seq<char>>, before: Seq<FileEntry>, after: Seq<FileEntry>)
    ensures
        changes_at(paths, after, before) == files_mirrored(changes_at(paths, before, after)),
    decreases paths.len(),
{
    if paths.len() > 0 {
        changes_at_mirror(paths.drop_last(), before, after);
        change_of_mirrors(paths.last(), before, after);
    }
    assert(changes_at(paths, after, before) =~= files_mirrored(changes_at(paths, before, after)));
}

/// Comparing two snapshots the other way round finds the same changes, each seen
/// from the other side.
pub proof fn snapshot_comparison_mirrors(before: Seq<FileEntry>, after: Seq<FileEntry>)
    ensures
        file_changes(after, before) == files_mirrored(file_changes(before, after)),
{
    let there = paths_of(before) + paths_of(after);
    let back = paths_of(after) + paths_of(before);
    order::collected_is_set(there);
    order::collected_is_set(back);
    assert forall|x: Seq<char>| #[trigger] order::collected(there).contains(x) <==> order::collected(
        back,
    ).contains(x) by {
        concatenation_contains(paths_of(before), paths_of(after), x);
        concatenation_contains(paths_of(after), paths_of(before), x);
        assert(order::collected(there).contains(x) <==> there.contains(x));
        assert(order::collected(back).contains(x) <==> back.contains(x));
    }
    order::ascending_unique(order::collected(there), order::collected(back));
    changes_at_mirror(order::collected(there), before, after);
}

// ---------------------------------------------------------------------------
// Laws on what is reported
// ---------------------------------------------------------------------------

/// A step into an array leads to the item at the index, and a step into an object to the
/// value of its key, where there is one; no steps lead nowhere else.
pub proof fn steps_lead_inside(
    items: Seq<JsonModel>,
    index: nat,
    entries: Seq<(Seq<char>, JsonModel)>,
    key: Seq<char>,
    value: JsonModel,
    rest: Seq<Step>,
)
    requires
        order::ascending(order::keys(entries)),
    ensures
        reached(value, Seq::empty()) == Some(value),
        reached(JsonModel::Array(items), seq![Step::Index(index)] + rest) == if index
            < items.len() {
            reached(items[index as int], rest)
        } else {
            None
        },
        forall|i: int|
            0 <= i < entries.len() && (#[trigger] entries[i]).0 == key ==> reached(
                JsonModel::Object(entries),
                seq![Step::Key(key)] + rest,
            ) == reached(entries[i].1, rest),
        (forall|i: int| 0 <= i < entries.len() ==> (#[trigger] entries[i]).0 != key) ==> reached(
            JsonModel::Object(entries),
            seq![Step::Key(key)] + rest,
        ) is None,
{
    assert((seq![Step::Index(index)] + rest).drop_first() =~= rest);
    assert((seq![Step::Key(key)] + rest).drop_first() =~= rest);
    order::lookup_finds_the_first(entries, key);
    assert forall|i: int| 0 <= i < entries.len() && (#[trigger] entries[i]).0 == key implies reached(
        JsonModel::Object(entries),
        seq![Step::Key(key)] + rest,
    ) == reached(entries[i].1, rest) by {
        order::ascending_entries_are_found(entries, i);
    }
}

/// Whether a value is neither an array nor an object.
pub open spec fn is_scalar(value: JsonModel) -> bool {
    !(value is Array) && !(value is Object)
}

/// What a change says is so: what it gives as before and after is what the two values
/// have at the place its path names, it is called added where only the later has
/// anything there, removed where only the earlier has, and modified where both have and
/// they are not equal.
pub proof fn changes_say_what_happened(
    prefix: Seq<char>,
    before: JsonModel,
    after: JsonModel,
    index: int,
) -> (steps: Seq<Step>)
    requires
        json::valid(before),
        json::valid(after),
        0 <= index < value_changes(prefix, before, after).len(),
    ensures
        ({
            let change = value_changes(prefix, before, after)[index];
            &&& change.key == spelled(prefix, steps)
            &&& change.before == reached(before, steps)
            &&& change.after == reached(after, steps)
            &&& change.change == Change::Added <==> change.before is None && change.after is Some
            &&& change.change == Change::Removed <==> change.before is Some && change.after is None
            &&& change.change == Change::Modified <==> change.before is Some && change.after is Some
            &&& change.change == Change::Modified ==> !json::equal(change.before->0, change.after->0)
        }),
{
    let all = value_changes(prefix, before, after);
    let change = all[index];
    changes_are_differences(prefix, before, after, change);
    assert(all.contains(change));
    let steps = choose|steps: Seq<Step>| reports(change, prefix, before, after, steps);
    differences_are_there(before, after, steps);
    steps
}

/// Where two values differ, at least one has something, and if both have, it is not equal.
proof fn differences_are_there(before: JsonModel, after: JsonModel, steps: Seq<Step>)
    requires
        differ_at(before, after, steps),
    ensures
        reached(before, steps) is Some || reached(after, steps) is Some,
        reached(before, steps) matches Some(x) ==> (reached(after, steps) matches Some(y)
            ==> !json::equal(x, y)),
    decreases steps.len(),
{
    if steps.len() > 0 {
        match (inside(before, steps[0]), inside(after, steps[0])) {
            (Some(x), Some(y)) => differences_are_there(x, y, steps.drop_first()),
            _ => {
                reveal_with_fuel(reached, 2);
                assert(steps.drop_first() =~= Seq::empty());
            },
        }
    }
}

/// No difference is lost: wherever the earlier value has a scalar and the later has
/// nothing, a container or another scalar, a change is reported at that place or at one
/// on the way to it.
pub proof fn no_difference_is_lost(
    prefix: Seq<char>,
    before: JsonModel,
    after: JsonModel,
    steps: Seq<Step>,
) -> (count: int)
    requires
        json::valid(before),
        json::valid(after),
        reached(before, steps) is Some,
        is_scalar(reached(before, steps)->0),
        reached(after, steps) matches Some(value) ==> !json::equal(
            reached(before, steps)->0,
            value,
        ),
    ensures
        0 <= count <= steps.len(),
        exists|i: int|
            0 <= i < value_changes(prefix, before, after).len() && {
                let change = #[trigger] value_changes(prefix, before, after)[i];
                &&& change.key == spelled(prefix, steps.take(count))
                &&& change.before == reached(before, steps.take(count))
                &&& change.after == reached(after, steps.take(count))
            },
{
    let count = difference_on_the_way(before, after, steps);
    let change = report_at(prefix, before, after, steps.take(count));
    assert(reports(change, prefix, before, after, steps.take(count)));
    changes_are_differences(prefix, before, after, change);
    let all = value_changes(prefix, before, after);
    let i = choose|i: int| 0 <= i < all.len() && all[i] == change;
    assert(all[i].key == spelled(prefix, steps.take(count)));
    count
}

/// Values of which only one has a scalar at a place differ there or on the way.
proof fn difference_on_the_way(
    before: JsonModel,
    after: JsonModel,
    steps: Seq<Step>,
) -> (count: int)
    requires
        reached(before, steps) is Some,
        is_scalar(reached(before, steps)->0),
        reached(after, steps) matches Some(value) ==> !json::equal(
            reached(before, steps)->0,
            value,
        ),
    ensures
        0 <= count <= steps.len(),
        differ_at(before, after, steps.take(count)),
    decreases steps.len(),
{
    assert(steps.take(0) =~= Seq::<Step>::empty());
    if steps.len() == 0 || !both_containers(before, after) {
        0
    } else {
        let rest = steps.drop_first();
        match (inside(before, steps[0]), inside(after, steps[0])) {
            (Some(x), Some(y)) => {
                let count = difference_on_the_way(x, y, rest);
                assert(steps.take(count + 1).drop_first() =~= rest.take(count));
                assert(steps.take(count + 1)[0] == steps[0]);
                count + 1
            },
            _ => {
                assert(steps.take(1)[0] == steps[0]);
                1
            },
        }
    }
}

/// Where two values are not both arrays and not both objects, a comparison reports one
/// modification under the very path it was given, with the two values, or nothing where
/// they are equal.
pub proof fn a_change_here_is_one_change(prefix: Seq<char>, before: JsonModel, after: JsonModel)
    requires
        is_scalar(before) || is_scalar(after) || before is Array != after is Array,
    ensures
        json::equal(before, after) ==> value_changes(prefix, before, after).len() == 0,
        !json::equal(before, after) ==> {
            let changes = value_changes(prefix, before, after);
            &&& changes.len() == 1
            &&& changes[0].key == prefix
            &&& changes[0].change == Change::Modified
            &&& changes[0].before == Some(before)
            &&& changes[0].after == Some(after)
        },
{
}

/// The file at a path is the first one listed under it.
pub proof fn found_file_is_the_first(files: Seq<FileEntry>, path: Seq<char>)
    ensures
        snapshot::find_file(files, path) is None <==> forall|i: int|
            0 <= i < files.len() ==> (#[trigger] files[i]).path@ != path,
        snapshot::find_file(files, path) matches Some(file) ==> exists|i: int|
            0 <= i < files.len() && #[trigger] files[i] == file && file.path@ == path && forall|
                k: int,
            |
                0 <= k < i ==> (#[trigger] files[k]).path@ != path,
    decreases files.len(),
{
    if files.len() > 0 {
        let rest = files.drop_first();
        found_file_is_the_first(rest, path);
        if files[0].path@ != path {
            if let Some(file) = snapshot::find_file(rest, path) {
                let i = choose|i: int|
                    0 <= i < rest.len() && #[trigger] rest[i] == file && file.path@ == path
                        && forall|k: int| 0 <= k < i ==> (#[trigger] rest[k]).path@ != path;
                assert(files[i + 1] == file);
                assert forall|k: int| 0 <= k < i + 1 implies (#[trigger] files[k]).path@ != path by {
                    if k > 0 {
                        assert(rest[k - 1] == files[k]);
                    }
                }
            } else {
                assert forall|i: int| 0 <= i < files.len() implies (#[trigger] files[i]).path@
                    != path by {
                    if i > 0 {
                        assert(rest[i - 1] == files[i]);
                    }
                }
            }
        } else {
            assert(files[0].path@ == path);
        }
    }
}

/// What a change of a file says: added with its size where only the later snapshot has
/// the file, removed with its size where only the earlier has, and modified with both
/// sizes where both have it under different hashes. The keys that changed are told of a
/// modified file that both snapshots keep the content of, and of no other.
pub open spec fn tells(
    change: FileChangeModel,
    before: Option<FileEntry>,
    after: Option<FileEntry>,
) -> bool {
    match (before, after) {
        (Some(old), Some(new)) => {
            &&& old.sha256@ != new.sha256@
            &&& change.change == Change::Modified
            &&& change.size_before == Some(old.size)
            &&& change.size_after == Some(new.size)
            &&& change.keys is Some <==> old.content is Some && new.content is Some
            &&& change.keys matches Some(keys) ==> keys == value_changes(
                Seq::empty(),
                old.content->0@,
                new.content->0@,
            )
        },
        (Some(old), None) => {
            &&& change.change == Change::Removed
            &&& change.size_before == Some(old.size)
            &&& change.size_after is None
            &&& change.keys is None
        },
        (None, Some(new)) => {
            &&& change.change == Change::Added
            &&& change.size_before is None
            &&& change.size_after == Some(new.size)
            &&& change.keys is None
        },
        (None, None) => false,
    }
}

/// Comparing two snapshots succeeds exactly where they are of one group, and then tells
/// which group and which two moments it compared, and of every file that was added, was
/// removed or has another hash, once, in order of the paths, what happened to it.
pub proof fn comparison_tells_what_happened(
    before: &Snapshot,
    after: &Snapshot,
    result: Result<ChangeSet, CompareError>,
)
    requires
        call_ensures(compare, (before, after), result),
    ensures
        result is Ok <==> before.group_id@ == after.group_id@,
        result matches Ok(set) ==> {
            &&& set.group_id@ == before.group_id@
            &&& set.before@ == before.taken_at@
            &&& set.after@ == after.taken_at@
            &&& forall|i: int|
                0 <= i < set.files@.len() ==> tells(
                    (#[trigger] set.files@[i])@,
                    snapshot::find_file(before.files@, set.files@[i].path@),
                    snapshot::find_file(after.files@, set.files@[i].path@),
                )
            &&& forall|i: int, j: int|
                0 <= i < j < set.files@.len() ==> text::precedes(
                    #[trigger] set.files@[i].path@,
                    #[trigger] set.files@[j].path@,
                )
        },
        result matches Err(CompareError::DifferentGroups { before: left, after: right }) ==> left@
            == before.group_id@ && right@ == after.group_id@,
{
    if let Ok(set) = result {
        let changes = file_changes(before.files@, after.files@);
        assert forall|i: int| 0 <= i < set.files@.len() implies tells(
            (#[trigger] set.files@[i])@,
            snapshot::find_file(before.files@, set.files@[i].path@),
            snapshot::find_file(after.files@, set.files@[i].path@),
        ) by {
            assert(file_models(set.files@)[i] == set.files@[i]@);
            assert(changes.contains(changes[i]));
            file_changes_are_differences(before.files@, after.files@, changes[i]);
        }
        assert forall|i: int, j: int| 0 <= i < j < set.files@.len() implies text::precedes(
            #[trigger] set.files@[i].path@,
            #[trigger] set.files@[j].path@,
        ) by {
            assert(file_models(set.files@)[i] == set.files@[i]@);
            assert(file_models(set.files@)[j] == set.files@[j]@);
            file_changes_are_differences(before.files@, after.files@, changes[i]);
            let names = changed_paths(changes);
            assert(text::precedes(names[i], names[j]));
        }
    }
}

/// No changed file is left out of a comparison.
pub proof fn no_changed_file_is_left_out(
    before: &Snapshot,
    after: &Snapshot,
    result: Result<ChangeSet, CompareError>,
    path: Seq<char>,
)
    requires
        call_ensures(compare, (before, after), result),
        before.group_id@ == after.group_id@,
    ensures
        ({
            let old = snapshot::find_file(before.files@, path);
            let new = snapshot::find_file(after.files@, path);
            let changed = old is Some != new is Some || (old is Some && old->0.sha256@
                != new->0.sha256@);
            changed <==> exists|i: int|
                0 <= i < result->Ok_0.files@.len() && (#[trigger] result->Ok_0.files@[i]).path@
                    == path
        }),
{
    let set = result->Ok_0;
    let changes = file_changes(before.files@, after.files@);
    let models = file_models(set.files@);
    comparison_tells_what_happened(before, after, result);
    if let Some(change) = change_of(path, before.files@, after.files@) {
        file_changes_are_differences(before.files@, after.files@, change);
        let i = choose|i: int| 0 <= i < changes.len() && changes[i] == change;
        assert(models[i] == set.files@[i]@);
        assert(set.files@[i].path@ == path);
    }
    if exists|i: int| 0 <= i < set.files@.len() && (#[trigger] set.files@[i]).path@ == path {
        let i = choose|i: int| 0 <= i < set.files@.len() && (#[trigger] set.files@[i]).path@ == path;
        assert(tells(
            set.files@[i]@,
            snapshot::find_file(before.files@, path),
            snapshot::find_file(after.files@, path),
        ));
    }
}

/// The refusal to compare names both groups, the earlier first.
pub proof fn a_refusal_names_both_groups(before: String, after: String)
    ensures
        (CompareError::DifferentGroups { before, after }).said()
            == "snapshots describe different groups: `"@ + before@ + "` and `"@ + after@ + "`"@,
{
}

/// What a change says is what its fields hold.
pub proof fn change_views(key: KeyChange, file: FileChange)
    ensures
        key@.key == key.key@,
        key@.change == key.change,
        key@.before is Some <==> key.before is Some,
        key@.before matches Some(value) ==> value == key.before->0@,
        key@.after is Some <==> key.after is Some,
        key@.after matches Some(value) ==> value == key.after->0@,
        file@.path == file.path@,
        file@.change == file.change,
        file@.size_before == file.size_before,
        file@.size_after == file.size_after,
        file@.keys is Some <==> file.keys is Some,
        file@.keys matches Some(models) ==> models.len() == file.keys->0@.len() && forall|i: int|
            0 <= i < models.len() ==> #[trigger] models[i] == file.keys->0@[i]@,
{
}

/// Joining a key onto a path keeps the whole path before it.
pub proof fn joining_keeps_the_whole_path(prefix: &str, key: &str, path: String)
    requires
        call_ensures(join, (prefix, key), path),
    ensures
        prefix@.len() == 0 ==> path@ == key@,
        prefix@.len() > 0 ==> path@ == prefix@ + seq!['.'] + key@,
{
    reveal_strlit(".");
    if prefix@.len() > 0 {
        assert(path@ =~= prefix@ + seq!['.'] + key@);
    }
}

/// Joined keys come apart again: two keys below one place have different paths, and so
/// have two places with the same key below them, if they are as long.
pub proof fn joined_keys_differ(
    prefix: &str,
    other: &str,
    a: &str,
    b: &str,
    x: String,
    y: String,
    z: String,
)
    requires
        call_ensures(join, (prefix, a), x),
        call_ensures(join, (prefix, b), y),
        call_ensures(join, (other, a), z),
        prefix@.len() > 0,
        other@.len() == prefix@.len(),
    ensures
        x@ == y@ ==> a@ == b@,
        x@ == z@ ==> prefix@ == other@,
{
    a_key_stands_behind_its_place(prefix@, a@);
    a_key_stands_behind_its_place(prefix@, b@);
    a_key_stands_behind_its_place(other@, a@);
}

/// Values differ at a place whichever of them is the earlier.
proof fn differences_go_both_ways(before: JsonModel, after: JsonModel, steps: Seq<Step>)
    requires
        differ_at(after, before, steps),
    ensures
        differ_at(before, after, steps),
    decreases steps.len(),
{
    if steps.len() > 0 {
        if let (Some(x), Some(y)) = (inside(before, steps[0]), inside(after, steps[0])) {
            differences_go_both_ways(x, y, steps.drop_first());
        }
    }
}

/// No addition is lost: wherever the later value has a scalar and the earlier has nothing,
/// a container or another scalar, a change is reported at that place or at one on the way
/// to it.
pub proof fn no_addition_is_lost(
    prefix: Seq<char>,
    before: JsonModel,
    after: JsonModel,
    steps: Seq<Step>,
) -> (count: int)
    requires
        json::valid(before),
        json::valid(after),
        reached(after, steps) is Some,
        is_scalar(reached(after, steps)->0),
        reached(before, steps) matches Some(value) ==> !json::equal(
            reached(after, steps)->0,
            value,
        ),
    ensures
        0 <= count <= steps.len(),
        exists|i: int|
            0 <= i < value_changes(prefix, before, after).len() && {
                let change = #[trigger] value_changes(prefix, before, after)[i];
                &&& change.key == spelled(prefix, steps.take(count))
                &&& change.before == reached(before, steps.take(count))
                &&& change.after == reached(after, steps.take(count))
            },
{
    let count = difference_on_the_way(after, before, steps);
    differences_go_both_ways(before, after, steps.take(count));
    let change = report_at(prefix, before, after, steps.take(count));
    assert(reports(change, prefix, before, after, steps.take(count)));
    changes_are_differences(prefix, before, after, change);
    let all = value_changes(prefix, before, after);
    let i = choose|i: int| 0 <= i < all.len() && all[i] == change;
    assert(all[i].key == spelled(prefix, steps.take(count)));
    count
}

/// Two files at one path are told apart by their hashes alone: nothing is said where they
/// are the same, and otherwise what became of the file under the path.
pub proof fn a_file_with_another_hash_is_modified(
    path: &str,
    before: &FileEntry,
    after: &FileEntry,
    change: Option<FileChange>,
)
    requires
        call_ensures(compare_file, (path, before, after), change),
    ensures
        change is None <==> before.sha256@ == after.sha256@,
        change matches Some(told) ==> told.path@ == path@ && tells(
            told@,
            Some(*before),
            Some(*after),
        ),
{
    if let Some(told) = change {
        assert(told@.path == told.path@);
    }
}

/// A file of a snapshot is looked up by its whole path, and the first that has it is
/// found.
pub proof fn a_file_is_looked_up_by_its_path(
    snapshot: &Snapshot,
    path: &str,
    found: Option<&FileEntry>,
)
    requires
        call_ensures(Snapshot::file, (snapshot, path), found),
    ensures
        found is None <==> forall|i: int|
            0 <= i < snapshot.files@.len() ==> (#[trigger] snapshot.files@[i]).path@ != path@,
        found matches Some(file) ==> exists|i: int|
            0 <= i < snapshot.files@.len() && #[trigger] snapshot.files@[i] == *file
                && file.path@ == path@ && forall|k: int|
                0 <= k < i ==> (#[trigger] snapshot.files@[k]).path@ != path@,
{
    found_file_is_the_first(snapshot.files@, path@);
}

} // verus!
