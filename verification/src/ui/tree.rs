//! Tree rendering.
//!
//! Kept independent of how entries were discovered: callers hand over a flat list
//! of [`Node`]s in depth-first order and this works out the connector prefixes.
//! Alignment is delegated to [`table`](super::table), so the detail columns line
//! up the same way they do everywhere else in the tool.

use vstd::prelude::*;
use crate::order;
use crate::text;
use crate::ui;
use crate::ui::{table, Column, ColumnModel};

verus! {

/// One line of a tree.
pub struct Node<'a> {
    /// Depth below the root; the root's immediate children are 1.
    pub depth: usize,
    /// Text to show for this entry, normally a file name.
    pub name: &'a str,
    /// Right-hand detail column, normally a size.
    pub detail: String,
    /// Second detail column, normally a modification time.
    pub modified: String,
}

/// What a line of a tree is.
pub struct NodeModel {
    /// Depth below the root.
    pub depth: nat,
    /// Text to show for the entry.
    pub name: Seq<char>,
    /// Right-hand detail column.
    pub detail: Seq<char>,
    /// Second detail column.
    pub modified: Seq<char>,
}

impl<'a> View for Node<'a> {
    type V = NodeModel;

    open spec fn view(&self) -> NodeModel {
        NodeModel {
            depth: self.depth as nat,
            name: self.name@,
            detail: self.detail@,
            modified: self.modified@,
        }
    }
}

/// The depths of a list of nodes.
pub open spec fn depths(nodes: Seq<NodeModel>) -> Seq<nat> {
    nodes.map_values(|node: NodeModel| node.depth)
}

/// Whether the node at `later` is the next sibling of the one at `index`: it has the
/// same depth, and no node between them is shallower.
pub open spec fn sibling_at(levels: Seq<nat>, index: int, later: int) -> bool {
    &&& index < later < levels.len()
    &&& levels[later] == levels[index]
    &&& forall|k: int| index < k < later ==> (#[trigger] levels[k]) >= levels[index]
}

/// Whether a node is the last among its siblings.
///
/// A node is last when no later node shares its depth before one shallower than it
/// appears — that shallower node is where the parent's sibling list ends.
pub open spec fn is_last(levels: Seq<nat>, index: int) -> bool {
    forall|later: int| !#[trigger] sibling_at(levels, index, later)
}

/// A depth, where a node that is not below the root counts as one that is.
pub open spec fn level(depth: nat) -> nat {
    if depth == 0 {
        1
    } else {
        depth
    }
}

/// The flags of the nodes above one of the given depth.
pub open spec fn above(trail: Seq<bool>, depth: nat) -> Seq<bool> {
    if trail.len() > level(depth) - 1 {
        trail.take(level(depth) - 1)
    } else {
        trail
    }
}

/// For the path down to the last of the first `count` nodes: whether each node on it
/// was the last among its siblings.
pub open spec fn trail(levels: Seq<nat>, count: nat) -> Seq<bool>
    decreases count,
{
    if count == 0 {
        seq![]
    } else {
        let index = count - 1;
        above(trail(levels, index as nat), levels[index]).push(is_last(levels, index))
    }
}

/// What is drawn under ancestors: a line under one that has siblings after it, and
/// nothing under one that was the last at its level.
pub open spec fn fillers(flags: Seq<bool>) -> Seq<char>
    decreases flags.len(),
{
    if flags.len() == 0 {
        seq![]
    } else {
        fillers(flags.drop_last()) + if flags.last() {
            "    "@
        } else {
            "│   "@
        }
    }
}

/// The connector prefix of a node.
pub open spec fn prefix(levels: Seq<nat>, index: int) -> Seq<char> {
    fillers(above(trail(levels, index as nat), levels[index])) + if is_last(levels, index) {
        "└── "@
    } else {
        "├── "@
    }
}

/// The rows of a tree: the root, then one for each node.
pub open spec fn tree_rows(root_label: Seq<char>, nodes: Seq<NodeModel>) -> Seq<Seq<Seq<char>>> {
    seq![seq![root_label, seq![], seq![]]] + Seq::new(
        nodes.len(),
        |i: int| seq![prefix(depths(nodes), i) + nodes[i].name, nodes[i].detail, nodes[i].modified],
    )
}

/// The columns of a tree.
pub open spec fn tree_columns() -> Seq<ColumnModel> {
    seq![
        ColumnModel { header: "NAME"@, dim: false },
        ColumnModel { header: "SIZE"@, dim: false },
        ColumnModel { header: "MODIFIED"@, dim: true },
    ]
}

/// Whether each node is the last among its siblings.
fn last_flags(nodes: &[Node<'_>]) -> (flags: Vec<bool>)
    ensures
        flags@.len() == nodes@.len(),
        forall|i: int|
            0 <= i < flags@.len() ==> (#[trigger] flags@[i]) == is_last(
                depths(order::views(nodes@)),
                i,
            ),
{
    let ghost levels = depths(order::views(nodes@));
    let mut flags: Vec<bool> = Vec::new();
    let mut index: usize = 0;
    while index < nodes.len()
        invariant
            index <= nodes@.len(),
            levels == depths(order::views(nodes@)),
            flags@.len() == index,
            forall|i: int| 0 <= i < index ==> (#[trigger] flags@[i]) == is_last(levels, i),
        decreases nodes@.len() - index,
    {
        let depth: usize = nodes[index].depth;
        let mut last: bool = true;
        let mut later: usize = index + 1;
        assert(levels[index as int] == depth);
        while later < nodes.len() && last && nodes[later].depth >= depth
            invariant
                index < later <= nodes@.len(),
                levels == depths(order::views(nodes@)),
                levels.len() == nodes@.len(),
                levels[index as int] == depth,
                last ==> forall|k: int| index < k < later ==> (#[trigger] levels[k]) > depth,
                !last ==> exists|k: int| #[trigger] sibling_at(levels, index as int, k),
            decreases nodes@.len() - later,
        {
            assert(levels[later as int] == nodes@[later as int].depth);
            if nodes[later].depth == depth {
                last = false;
                assert(sibling_at(levels, index as int, later as int));
            }
            later += 1;
        }
        assert(last == is_last(levels, index as int)) by {
            if last {
                assert forall|k: int| !#[trigger] sibling_at(levels, index as int, k) by {
                    if sibling_at(levels, index as int, k) {
                        if k >= later {
                            assert(levels[later as int] == nodes@[later as int].depth);
                            assert(levels[later as int] < depth);
                        }
                    }
                }
            }
        }
        flags.push(last);
        index += 1;
    }
    flags
}

/// What is drawn under ancestors.
fn push_fillers(out: &mut String, flags: &Vec<bool>, count: usize)
    requires
        count <= flags@.len(),
    ensures
        final(out)@ == old(out)@ + fillers(flags@.take(count as int)),
{
    let ghost start = out@;
    let mut i: usize = 0;
    assert(out@ =~= start + fillers(flags@.take(0)));
    while i < count
        invariant
            i <= count <= flags@.len(),
            out@ == start + fillers(flags@.take(i as int)),
        decreases count - i,
    {
        assert(flags@.take(i + 1).drop_last() =~= flags@.take(i as int));
        out.push_str(
            if flags[i] {
                "    "
            } else {
                "│   "
            },
        );
        assert(out@ =~= start + fillers(flags@.take(i + 1)));
        i += 1;
    }
}

/// Builds the connector prefix for each node from the ancestors' last-flags.
pub fn prefixes(nodes: &[Node<'_>]) -> (drawn: Vec<String>)
    ensures
        drawn@.len() == nodes@.len(),
        forall|i: int|
            0 <= i < drawn@.len() ==> (#[trigger] drawn@[i])@ == prefix(
                depths(order::views(nodes@)),
                i,
            ),
{
    let ghost levels = depths(order::views(nodes@));
    let flags = last_flags(nodes);
    // ancestors[d] is whether the node at depth d+1 on the current path was last.
    let mut ancestors: Vec<bool> = Vec::new();
    let mut drawn: Vec<String> = Vec::new();
    let mut index: usize = 0;
    while index < nodes.len()
        invariant
            index <= nodes@.len(),
            levels == depths(order::views(nodes@)),
            flags@.len() == nodes@.len(),
            forall|i: int|
                0 <= i < flags@.len() ==> (#[trigger] flags@[i]) == is_last(levels, i),
            ancestors@ == trail(levels, index as nat),
            drawn@.len() == index,
            forall|i: int| 0 <= i < index ==> (#[trigger] drawn@[i])@ == prefix(levels, i),
        decreases nodes@.len() - index,
    {
        let depth: usize = if nodes[index].depth == 0 {
            1
        } else {
            nodes[index].depth
        };
        let ghost before = ancestors@;
        assert(levels[index as int] == nodes@[index as int].depth);
        if ancestors.len() > depth - 1 {
            ancestors.truncate(depth - 1);
            assert(ancestors@ =~= before.take(depth - 1));
        }
        assert(ancestors@ == above(before, levels[index as int]));
        let mut line = String::new();
        push_fillers(&mut line, &ancestors, ancestors.len());
        assert(ancestors@.take(ancestors@.len() as int) =~= ancestors@);
        line.push_str(
            if flags[index] {
                "└── "
            } else {
                "├── "
            },
        );
        assert(line@ =~= prefix(levels, index as int));
        drawn.push(line);
        ancestors.push(flags[index]);
        index += 1;
    }
    drawn
}

/// Renders a tree with aligned size and modified columns.
///
/// `root_label` is shown above the tree as its own row, so the listing carries the
/// name of what is being listed.
pub fn render(root_label: &str, nodes: &[Node<'_>]) -> (tree: String)
    ensures
        tree@ == ui::table_text(tree_columns(), tree_rows(root_label@, order::views(nodes@))),
{
    let ghost models = order::views(nodes@);
    let ghost all = tree_rows(root_label@, models);
    let drawn = prefixes(nodes);
    let mut rows: Vec<Vec<String>> = Vec::new();
    let mut root: Vec<String> = Vec::new();
    root.push(root_label.to_string());
    root.push(String::new());
    root.push(String::new());
    assert(text::texts(root@) =~= seq![root_label@, seq![], seq![]]);
    rows.push(root);
    let mut i: usize = 0;
    assert(ui::row_views(rows@) =~= all.take(1));
    while i < nodes.len()
        invariant
            i <= nodes@.len(),
            models == order::views(nodes@),
            all == tree_rows(root_label@, models),
            drawn@.len() == nodes@.len(),
            forall|k: int|
                0 <= k < drawn@.len() ==> (#[trigger] drawn@[k])@ == prefix(depths(models), k),
            ui::row_views(rows@) == all.take(i + 1),
        decreases nodes@.len() - i,
    {
        let ghost before = ui::row_views(rows@);
        let mut name = drawn[i].clone();
        name.push_str(nodes[i].name);
        let mut row: Vec<String> = Vec::new();
        row.push(name);
        row.push(nodes[i].detail.clone());
        row.push(nodes[i].modified.clone());
        assert(models[i as int] == nodes@[i as int]@);
        assert(text::texts(row@) =~= all[i + 1]);
        rows.push(row);
        assert(ui::row_views(rows@) =~= before.push(all[i + 1]));
        assert(ui::row_views(rows@) =~= all.take(i + 2));
        i += 1;
    }
    assert(all.take(i + 1) =~= all);
    let mut columns: Vec<Column> = Vec::new();
    columns.push(Column::new("NAME"));
    columns.push(Column::new("SIZE"));
    columns.push(Column::dim("MODIFIED"));
    assert(order::views(columns@) =~= tree_columns());
    table(columns.as_slice(), rows.as_slice())
}

// ---------------------------------------------------------------------------
// Laws
// ---------------------------------------------------------------------------

/// Whether depths are those of a tree walked depth first: it starts right below the
/// root, and a node is at most one level deeper than the one before it.
pub open spec fn depth_first(levels: Seq<nat>) -> bool {
    &&& forall|i: int| 0 <= i < levels.len() ==> (#[trigger] levels[i]) >= 1
    &&& levels.len() > 0 ==> levels[0] == 1
    &&& forall|i: int, j: int|
        0 <= i && j == i + 1 && j < levels.len() ==> (#[trigger] levels[j]) <= (
        #[trigger] levels[i]) + 1
}

/// Whether the node at `ancestor` is the one at `depth` on the path down to the
/// `count`-th node: nothing after it is as shallow.
pub open spec fn on_path(levels: Seq<nat>, count: int, depth: nat, ancestor: int) -> bool {
    &&& 0 <= ancestor < count
    &&& levels[ancestor] == depth
    &&& forall|k: int| ancestor < k < count ==> (#[trigger] levels[k]) > depth
}

/// Whether `flag` tells, for the node at `depth` on the path down to the `count`-th
/// node, if it was the last among its siblings.
pub open spec fn tells(levels: Seq<nat>, count: int, depth: nat, flag: bool) -> bool {
    exists|ancestor: int| #[trigger]
        on_path(levels, count, depth, ancestor) && flag == is_last(levels, ancestor)
}

/// The trail of a tree walked depth first tells, for each level of the path, whether
/// the node of that level was the last among its siblings.
proof fn trail_follows_path(levels: Seq<nat>, count: nat)
    requires
        depth_first(levels),
        count <= levels.len(),
    ensures
        count > 0 ==> trail(levels, count).len() == levels[count - 1],
        forall|k: int|
            0 <= k < trail(levels, count).len() ==> tells(
                levels,
                count as int,
                (k + 1) as nat,
                #[trigger] trail(levels, count)[k],
            ),
    decreases count,
{
    if count > 0 {
        let index = count - 1;
        let before = trail(levels, index as nat);
        let kept = above(before, levels[index]);
        let after = trail(levels, count);
        trail_follows_path(levels, index as nat);
        assert(levels[index] >= 1);
        if index > 0 {
            assert(levels[index] <= levels[index - 1] + 1);
        }
        assert(kept.len() == levels[index] - 1);
        assert forall|k: int| 0 <= k < after.len() implies tells(
            levels,
            count as int,
            (k + 1) as nat,
            #[trigger] after[k],
        ) by {
            if k < kept.len() {
                assert(after[k] == before[k]);
                assert(tells(levels, index, (k + 1) as nat, before[k]));
                let ancestor = choose|ancestor: int| #[trigger]
                    on_path(levels, index, (k + 1) as nat, ancestor) && before[k] == is_last(
                        levels,
                        ancestor,
                    );
                assert(on_path(levels, count as int, (k + 1) as nat, ancestor));
            } else {
                assert(on_path(levels, count as int, (k + 1) as nat, index));
            }
        }
    }
}

/// In a tree walked depth first, a node at depth `d` has one filler for each of its
/// `d - 1` ancestors, outermost first: a line where that ancestor has siblings to
/// come, and a blank where it was the last.
pub proof fn prefix_shows_ancestors(levels: Seq<nat>, index: int)
    requires
        depth_first(levels),
        0 <= index < levels.len(),
    ensures
        above(trail(levels, index as nat), levels[index]).len() == levels[index] - 1,
        forall|k: int|
            0 <= k < levels[index] - 1 ==> tells(
                levels,
                index,
                (k + 1) as nat,
                #[trigger] above(trail(levels, index as nat), levels[index])[k],
            ),
{
    let before = trail(levels, index as nat);
    let kept = above(before, levels[index]);
    trail_follows_path(levels, index as nat);
    assert(levels[index] >= 1);
    if index > 0 {
        assert(levels[index] <= levels[index - 1] + 1);
    }
    assert forall|k: int| 0 <= k < levels[index] - 1 implies tells(
        levels,
        index,
        (k + 1) as nat,
        #[trigger] kept[k],
    ) by {
        assert(kept[k] == before[k]);
    }
}

/// Every filler and every connector is four characters long, so a node at depth `d`
/// is indented by `4 * d` characters.
pub proof fn prefix_length(levels: Seq<nat>, index: int)
    requires
        depth_first(levels),
        0 <= index < levels.len(),
    ensures
        prefix(levels, index).len() == 4 * levels[index],
{
    prefix_shows_ancestors(levels, index);
    fillers_length(above(trail(levels, index as nat), levels[index]));
    reveal_strlit("└── ");
    reveal_strlit("├── ");
}

/// Every filler is four characters long.
proof fn fillers_length(flags: Seq<bool>)
    ensures
        fillers(flags).len() == 4 * flags.len(),
    decreases flags.len(),
{
    reveal_strlit("    ");
    reveal_strlit("│   ");
    if flags.len() > 0 {
        fillers_length(flags.drop_last());
    }
}

/// Whether a node has a sibling to come: a later node at its depth, before any that is
/// shallower.
pub open spec fn goes_on(levels: Seq<nat>, index: int) -> bool {
    exists|later: int|
        index < later < levels.len() && #[trigger] levels[later] == levels[index] && forall|k: int|
            index < k < later ==> (#[trigger] levels[k]) >= levels[index]
}

/// A node is the last among its siblings exactly where none is to come.
proof fn last_means_none_to_come(levels: Seq<nat>, index: int)
    ensures
        is_last(levels, index) <==> !goes_on(levels, index),
{
    if goes_on(levels, index) {
        let later = choose|later: int|
            index < later < levels.len() && #[trigger] levels[later] == levels[index] && forall|
                k: int,
            |
                index < k < later ==> (#[trigger] levels[k]) >= levels[index];
        assert(sibling_at(levels, index, later));
    }
    if !is_last(levels, index) {
        let later = choose|later: int| sibling_at(levels, index, later);
        assert(levels[later] == levels[index]);
    }
}

/// The fillers stand one after another, four characters each.
proof fn fillers_stand_in_order(flags: Seq<bool>, index: int)
    requires
        0 <= index < flags.len(),
    ensures
        fillers(flags).len() == 4 * flags.len(),
        fillers(flags).subrange(4 * index, 4 * index + 4) == if flags[index] {
            "    "@
        } else {
            "│   "@
        },
    decreases flags.len(),
{
    reveal_strlit("    ");
    reveal_strlit("│   ");
    let front = flags.drop_last();
    fillers_length(flags);
    fillers_length(front);
    let own = if flags.last() {
        "    "@
    } else {
        "│   "@
    };
    if index < front.len() {
        fillers_stand_in_order(front, index);
        assert(fillers(flags).subrange(4 * index, 4 * index + 4) =~= fillers(front).subrange(
            4 * index,
            4 * index + 4,
        ));
    } else {
        assert(fillers(flags).subrange(4 * index, 4 * index + 4) =~= own);
    }
}

/// A prefix draws the tree: in a tree walked depth first, the four characters of a level
/// are a line exactly where the ancestor of that level has a sibling to come, and the last
/// four turn off to the node, with the line going on exactly where the node has a sibling
/// to come itself.
pub proof fn a_prefix_draws_the_tree(levels: Seq<nat>, index: int, depth: nat, ancestor: int)
    requires
        depth_first(levels),
        0 <= index < levels.len(),
        1 <= depth < levels[index],
        0 <= ancestor < index,
        levels[ancestor] == depth,
        forall|k: int| ancestor < k < index ==> (#[trigger] levels[k]) > depth,
    ensures
        prefix(levels, index).subrange(4 * (depth - 1), 4 * (depth - 1) + 4) == if goes_on(
            levels,
            ancestor,
        ) {
            "│   "@
        } else {
            "    "@
        },
{
    let flags = above(trail(levels, index as nat), levels[index]);
    let at = depth - 1;
    prefix_shows_ancestors(levels, index);
    fillers_stand_in_order(flags, at);
    assert(tells(levels, index, (at + 1) as nat, flags[at]));
    let found = choose|found: int| #[trigger]
        on_path(levels, index, (at + 1) as nat, found) && flags[at] == is_last(levels, found);
    assert(found == ancestor) by {
        if found < ancestor {
            assert(levels[ancestor] > depth);
        } else if ancestor < found {
            assert(levels[found] > depth);
        }
    }
    last_means_none_to_come(levels, ancestor);
    assert(prefix(levels, index).subrange(4 * at, 4 * at + 4) =~= fillers(flags).subrange(
        4 * at,
        4 * at + 4,
    ));
}

/// A prefix ends with the turn to its node: a corner at the last among its siblings, and
/// a line that goes on at the others.
pub proof fn a_prefix_ends_at_its_node(levels: Seq<nat>, index: int)
    requires
        depth_first(levels),
        0 <= index < levels.len(),
    ensures
        prefix(levels, index).len() == 4 * levels[index],
        prefix(levels, index).skip(4 * (levels[index] - 1)) == if goes_on(levels, index) {
            "├── "@
        } else {
            "└── "@
        },
{
    let flags = above(trail(levels, index as nat), levels[index]);
    reveal_strlit("└── ");
    reveal_strlit("├── ");
    prefix_length(levels, index);
    prefix_shows_ancestors(levels, index);
    fillers_length(flags);
    last_means_none_to_come(levels, index);
    let turn = if goes_on(levels, index) {
        "├── "@
    } else {
        "└── "@
    };
    assert(prefix(levels, index).skip(4 * (levels[index] - 1)) =~= turn);
}

/// A tree is a table of names, sizes and times: the row of the root, which has only a
/// name, and then one for each node, in order, its name behind its prefix.
pub proof fn a_tree_has_a_row_for_each_node(
    root_label: &str,
    nodes: &[Node<'_>],
    tree: String,
) -> (rows: Seq<Seq<Seq<char>>>)
    requires
        call_ensures(render, (root_label, nodes), tree),
    ensures
        tree@ == ui::table_text(
            seq![
                ColumnModel { header: "NAME"@, dim: false },
                ColumnModel { header: "SIZE"@, dim: false },
                ColumnModel { header: "MODIFIED"@, dim: true },
            ],
            rows,
        ),
        rows.len() == nodes@.len() + 1,
        rows[0] == seq![root_label@, Seq::<char>::empty(), Seq::<char>::empty()],
        forall|i: int|
            0 <= i < nodes@.len() ==> #[trigger] rows[i + 1] == seq![
                prefix(Seq::new(nodes@.len(), |k: int| nodes@[k].depth as nat), i)
                    + nodes@[i].name@,
                nodes@[i].detail@,
                nodes@[i].modified@,
            ],
{
    let models = order::views(nodes@);
    let rows = tree_rows(root_label@, models);
    let levels = Seq::new(nodes@.len(), |k: int| nodes@[k].depth as nat);
    assert(depths(models) =~= levels);
    assert(rows[0] =~= seq![root_label@, Seq::<char>::empty(), Seq::<char>::empty()]);
    assert forall|i: int| 0 <= i < nodes@.len() implies #[trigger] rows[i + 1] == seq![
        prefix(levels, i) + nodes@[i].name@,
        nodes@[i].detail@,
        nodes@[i].modified@,
    ] by {
        assert(models[i] == nodes@[i]@);
    }
    rows
}

/// No prefix is longer than its node is deep, whatever the order of the nodes: four
/// characters a level, where a node that is not below the root counts as one that is.
pub proof fn a_prefix_is_no_longer_than_its_depth(levels: Seq<nat>, index: int)
    requires
        0 <= index < levels.len(),
    ensures
        prefix(levels, index).len() >= 4,
        levels[index] == 0 ==> prefix(levels, index).len() == 4,
        levels[index] > 0 ==> prefix(levels, index).len() <= 4 * levels[index],
        goes_on(levels, index) <==> prefix(levels, index).skip(
            prefix(levels, index).len() - 4,
        ) == "├── "@,
{
    let flags = above(trail(levels, index as nat), levels[index]);
    reveal_strlit("└── ");
    reveal_strlit("├── ");
    fillers_length(flags);
    last_means_none_to_come(levels, index);
    let turn = if goes_on(levels, index) {
        "├── "@
    } else {
        "└── "@
    };
    let drawn = prefix(levels, index);
    assert(drawn.skip(drawn.len() - 4) =~= turn);
    assert("└── "@[0] != "├── "@[0]);
}

/// Every node has its prefix, in order.
pub proof fn prefixes_are_drawn_in_order(nodes: &[Node<'_>], drawn: Vec<String>)
    requires
        call_ensures(prefixes, (nodes,), drawn),
    ensures
        drawn@.len() == nodes@.len(),
        forall|i: int|
            0 <= i < drawn@.len() ==> (#[trigger] drawn@[i])@ == prefix(
                Seq::new(nodes@.len(), |k: int| nodes@[k].depth as nat),
                i,
            ),
{
    let levels = Seq::new(nodes@.len(), |k: int| nodes@[k].depth as nat);
    assert(depths(order::views(nodes@)) =~= levels);
}

} // verus!
