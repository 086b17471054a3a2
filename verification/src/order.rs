//! Lists kept in order.

use vstd::prelude::*;
use crate::text;
use crate::text::{comes_before, same};

verus! {

// ---------------------------------------------------------------------------
// Sorting
// ---------------------------------------------------------------------------

/// Items that can be put in order.
pub trait Ranked: Sized {
    /// Whether `a` has to stand before `b`.
    spec fn outranks(a: Self, b: Self) -> bool;

    /// Whether `a` has to stand before `b`.
    fn is_before(a: &Self, b: &Self) -> (before: bool)
        ensures
            before == Self::outranks(*a, *b),
    ;
}

/// The order of ranked items.
pub open spec fn ranking<T: Ranked>() -> spec_fn(T, T) -> bool {
    |a: T, b: T| T::outranks(a, b)
}

/// `sorted` with `item` put in behind everything that it does not come before.
pub open spec fn placed<M>(sorted: Seq<M>, item: M, before: spec_fn(M, M) -> bool) -> Seq<M>
    decreases sorted.len(),
{
    if sorted.len() == 0 || !before(item, sorted.last()) {
        sorted.push(item)
    } else {
        placed(sorted.drop_last(), item, before).push(sorted.last())
    }
}

/// The items in the order that `before` gives, those that tie in the order they
/// came in.
pub open spec fn arranged<M>(items: Seq<M>, before: spec_fn(M, M) -> bool) -> Seq<M>
    decreases items.len(),
{
    if items.len() == 0 {
        seq![]
    } else {
        placed(arranged(items.drop_last(), before), items.last(), before)
    }
}

/// Puts a list in order; items that tie keep the order they came in.
pub fn sort<T: Ranked>(items: Vec<T>) -> (sorted: Vec<T>)
    ensures
        sorted@ == arranged(items@, ranking::<T>()),
{
    let ghost rank = ranking::<T>();
    let mut sorted: Vec<T> = Vec::new();
    for item in it: items
        invariant
            it.seq() == items@,
            rank == ranking::<T>(),
            sorted@ == arranged(items@.take(it.index()), rank),
    {
        let ghost before = sorted@;
        let mut at: usize = sorted.len();
        assert(before.take(at as int) =~= before);
        assert(placed(before, item, rank) =~= placed(before.take(at as int), item, rank)
            + before.skip(at as int));
        while at > 0 && T::is_before(&item, &sorted[at - 1])
            invariant
                at <= before.len(),
                sorted@ == before,
                rank == ranking::<T>(),
                placed(before, item, rank) == placed(before.take(at as int), item, rank)
                    + before.skip(at as int),
            decreases at,
        {
            assert(before.take(at as int).drop_last() =~= before.take(at - 1));
            assert(before.take(at as int).last() == before[at - 1]);
            assert(placed(before.take(at - 1), item, rank).push(before[at - 1]) + before.skip(
                at as int,
            ) =~= placed(before.take(at - 1), item, rank) + before.skip(at - 1));
            at -= 1;
        }
        sorted.insert(at, item);
        assert(sorted@ =~= before.take(at as int).push(item) + before.skip(at as int));
        assert(items@.take(it.index() + 1).drop_last() =~= items@.take(it.index()));
    }
    assert(items@.take(items@.len() as int) =~= items@);
    sorted
}

/// Whether `before` is an order: at most one of two items comes before the other,
/// and an item that comes before another comes before any third, or that one comes
/// before the other.
pub open spec fn is_order<M>(before: spec_fn(M, M) -> bool) -> bool {
    &&& forall|a: M, b: M| #[trigger] before(a, b) ==> !before(b, a)
    &&& forall|a: M, b: M, c: M| #[trigger]
        before(a, b) ==> #[trigger] before(a, c) || before(c, b)
}

/// Whether no item comes before an earlier one.
pub open spec fn in_order<M>(items: Seq<M>, before: spec_fn(M, M) -> bool) -> bool {
    forall|i: int, j: int|
        0 <= i < j < items.len() ==> !before(#[trigger] items[j], #[trigger] items[i])
}

/// Putting an item in its place leaves the list in order.
proof fn placed_keeps_order<M>(sorted: Seq<M>, item: M, before: spec_fn(M, M) -> bool)
    requires
        is_order(before),
        in_order(sorted, before),
    ensures
        in_order(placed(sorted, item, before), before),
        placed(sorted, item, before).to_multiset() == sorted.to_multiset().insert(item),
        placed(sorted, item, before).len() == sorted.len() + 1,
        forall|x: M| #[trigger]
            placed(sorted, item, before).contains(x) ==> x == item || sorted.contains(x),
    decreases sorted.len(),
{
    broadcast use vstd::seq_lib::group_to_multiset_ensures;

    if sorted.len() == 0 || !before(item, sorted.last()) {
        let after = sorted.push(item);
        assert forall|i: int, j: int| 0 <= i < j < after.len() implies !before(
            #[trigger] after[j],
            #[trigger] after[i],
        ) by {
            if j == sorted.len() && before(item, sorted[i]) {
                assert(before(item, sorted.last()) || before(sorted.last(), sorted[i]));
                if i < sorted.len() - 1 {
                    assert(!before(sorted[sorted.len() - 1], sorted[i]));
                }
            }
        }
    } else {
        let front = sorted.drop_last();
        let last = sorted.last();
        placed_keeps_order(front, item, before);
        let inner = placed(front, item, before);
        let after = inner.push(last);
        assert(sorted =~= front.push(last));
        assert forall|i: int, j: int| 0 <= i < j < after.len() implies !before(
            #[trigger] after[j],
            #[trigger] after[i],
        ) by {
            if j == inner.len() {
                assert(inner.contains(inner[i]));
                if inner[i] == item {
                    assert(before(item, last));
                } else {
                    let k = choose|k: int| 0 <= k < front.len() && front[k] == inner[i];
                    assert(sorted[k] == inner[i]);
                    assert(!before(sorted[sorted.len() - 1], sorted[k]));
                }
            }
        }
        assert(after.to_multiset() =~= sorted.to_multiset().insert(item));
        assert forall|x: M| #[trigger] after.contains(x) implies x == item || sorted.contains(x) by {
            let k = choose|k: int| 0 <= k < after.len() && after[k] == x;
            if k < inner.len() {
                assert(inner.contains(x));
                if x != item {
                    let m = choose|m: int| 0 <= m < front.len() && front[m] == x;
                    assert(sorted[m] == x);
                }
            } else {
                assert(sorted[sorted.len() - 1] == x);
            }
        }
    }
}

/// A sorted list is in order and holds the items it was made from, each as often.
pub proof fn arranged_is_sorted<M>(items: Seq<M>, before: spec_fn(M, M) -> bool)
    requires
        is_order(before),
    ensures
        in_order(arranged(items, before), before),
        arranged(items, before).to_multiset() == items.to_multiset(),
        arranged(items, before).len() == items.len(),
    decreases items.len(),
{
    broadcast use vstd::seq_lib::group_to_multiset_ensures;

    if items.len() > 0 {
        arranged_is_sorted(items.drop_last(), before);
        placed_keeps_order(arranged(items.drop_last(), before), items.last(), before);
        assert(items =~= items.drop_last().push(items.last()));
    }
}

/// Whether neither of two items comes before the other.
pub open spec fn tied<M>(a: M, b: M, before: spec_fn(M, M) -> bool) -> bool {
    !before(a, b) && !before(b, a)
}

/// The items that tie with `like`.
pub open spec fn tied_with<M>(items: Seq<M>, like: M, before: spec_fn(M, M) -> bool) -> Seq<M> {
    items.filter(|x: M| tied(x, like, before))
}

/// An item put at the end is the last of those it ties with.
proof fn tied_with_push<M>(items: Seq<M>, item: M, like: M, before: spec_fn(M, M) -> bool)
    ensures
        tied_with(items.push(item), like, before) == if tied(item, like, before) {
            tied_with(items, like, before).push(item)
        } else {
            tied_with(items, like, before)
        },
{
    reveal(Seq::filter);
    assert(items.push(item).drop_last() =~= items);
}

/// Putting an item in its place leaves it behind all that tie with it.
proof fn placed_is_stable<M>(sorted: Seq<M>, item: M, like: M, before: spec_fn(M, M) -> bool)
    requires
        is_order(before),
    ensures
        tied_with(placed(sorted, item, before), like, before) == tied_with(
            sorted.push(item),
            like,
            before,
        ),
    decreases sorted.len(),
{
    if sorted.len() > 0 && before(item, sorted.last()) {
        let front = sorted.drop_last();
        let last = sorted.last();
        placed_is_stable(front, item, like, before);
        tied_with_push(placed(front, item, before), last, like, before);
        tied_with_push(front, item, like, before);
        tied_with_push(sorted, item, like, before);
        tied_with_push(front, last, like, before);
        assert(front.push(last) =~= sorted);
        assert(before(item, like) || before(like, last));
    }
}

/// Sorting keeps the order of items that tie.
pub proof fn arranged_is_stable<M>(items: Seq<M>, like: M, before: spec_fn(M, M) -> bool)
    requires
        is_order(before),
    ensures
        tied_with(arranged(items, before), like, before) == tied_with(items, like, before),
    decreases items.len(),
{
    if items.len() > 0 {
        let front = items.drop_last();
        arranged_is_stable(front, like, before);
        placed_is_stable(arranged(front, before), items.last(), like, before);
        tied_with_push(arranged(front, before), items.last(), like, before);
        tied_with_push(front, items.last(), like, before);
        assert(front.push(items.last()) =~= items);
    } else {
        assert(arranged(items, before) =~= items);
    }
}

/// The views of a list.
pub open spec fn views<T: View>(items: Seq<T>) -> Seq<T::V> {
    items.map_values(|item: T| item@)
}

/// Putting an item in its place, seen by the views.
proof fn placed_views<T: Ranked + View>(
    sorted: Seq<T>,
    item: T,
    before: spec_fn(T::V, T::V) -> bool,
)
    requires
        forall|a: T, b: T| #[trigger] T::outranks(a, b) == before(a@, b@),
    ensures
        views(placed(sorted, item, ranking::<T>())) == placed(views(sorted), item@, before),
    decreases sorted.len(),
{
    let rank = ranking::<T>();
    if sorted.len() == 0 || !T::outranks(item, sorted.last()) {
        assert(views(sorted.push(item)) =~= views(sorted).push(item@));
    } else {
        let front = sorted.drop_last();
        placed_views(front, item, before);
        assert(views(front) =~= views(sorted).drop_last());
        assert(views(placed(front, item, rank).push(sorted.last())) =~= views(
            placed(front, item, rank),
        ).push(sorted.last()@));
    }
}

/// Where the order of items is that of their views, sorting the items sorts the views.
pub proof fn arranged_views<T: Ranked + View>(items: Seq<T>, before: spec_fn(T::V, T::V) -> bool)
    requires
        forall|a: T, b: T| #[trigger] T::outranks(a, b) == before(a@, b@),
    ensures
        views(arranged(items, ranking::<T>())) == arranged(views(items), before),
    decreases items.len(),
{
    let rank = ranking::<T>();
    if items.len() > 0 {
        let front = items.drop_last();
        arranged_views(front, before);
        placed_views(arranged(front, rank), items.last(), before);
        assert(views(front) =~= views(items).drop_last());
    } else {
        assert(views(arranged(items, rank)) =~= arranged(views(items), before));
    }
}

/// Putting related items in their places keeps them side by side.
proof fn placed_relates<M>(
    a: Seq<M>,
    b: Seq<M>,
    x: M,
    y: M,
    before: spec_fn(M, M) -> bool,
    related: spec_fn(M, M) -> bool,
)
    requires
        a.len() == b.len(),
        forall|i: int| 0 <= i < a.len() ==> related(#[trigger] a[i], b[i]),
        related(x, y),
        forall|p: M, q: M, r: M, s: M|
            related(p, q) && related(r, s) ==> #[trigger] before(p, r) == #[trigger] before(q, s),
    ensures
        placed(a, x, before).len() == placed(b, y, before).len(),
        forall|i: int|
            0 <= i < placed(a, x, before).len() ==> related(
                #[trigger] placed(a, x, before)[i],
                placed(b, y, before)[i],
            ),
    decreases a.len(),
{
    if a.len() > 0 {
        assert(related(a[a.len() - 1], b[b.len() - 1]));
        assert(before(x, a.last()) == before(y, b.last()));
        if before(x, a.last()) {
            let front = a.drop_last();
            assert forall|i: int| 0 <= i < front.len() implies related(
                #[trigger] front[i],
                b.drop_last()[i],
            ) by {
                assert(related(a[i], b[i]));
            }
            placed_relates(front, b.drop_last(), x, y, before, related);
        }
    }
}

/// Where related items have the same rank, sorting two lists that are related item by
/// item keeps them so.
pub proof fn arranged_relates<M>(
    a: Seq<M>,
    b: Seq<M>,
    before: spec_fn(M, M) -> bool,
    related: spec_fn(M, M) -> bool,
)
    requires
        a.len() == b.len(),
        forall|i: int| 0 <= i < a.len() ==> related(#[trigger] a[i], b[i]),
        forall|p: M, q: M, r: M, s: M|
            related(p, q) && related(r, s) ==> #[trigger] before(p, r) == #[trigger] before(q, s),
    ensures
        arranged(a, before).len() == arranged(b, before).len(),
        forall|i: int|
            0 <= i < arranged(a, before).len() ==> related(
                #[trigger] arranged(a, before)[i],
                arranged(b, before)[i],
            ),
    decreases a.len(),
{
    if a.len() > 0 {
        let front = a.drop_last();
        assert forall|i: int| 0 <= i < front.len() implies related(
            #[trigger] front[i],
            b.drop_last()[i],
        ) by {
            assert(related(a[i], b[i]));
        }
        assert(related(a[a.len() - 1], b[b.len() - 1]));
        arranged_relates(front, b.drop_last(), before, related);
        placed_relates(
            arranged(front, before),
            arranged(b.drop_last(), before),
            a.last(),
            b.last(),
            before,
            related,
        );
    }
}

// ---------------------------------------------------------------------------
// Sets of texts
// ---------------------------------------------------------------------------

/// Whether the texts ascend strictly, so that none occurs twice.
pub open spec fn ascending(texts: Seq<Seq<char>>) -> bool {
    forall|i: int, j: int|
        0 <= i < j < texts.len() ==> text::precedes(#[trigger] texts[i], #[trigger] texts[j])
}

/// An ascending list with `text` added where it belongs, unless it is there already.
pub open spec fn included(list: Seq<Seq<char>>, text: Seq<char>) -> Seq<Seq<char>>
    decreases list.len(),
{
    if list.len() == 0 || text::precedes(list.last(), text) {
        list.push(text)
    } else if list.last() == text {
        list
    } else {
        included(list.drop_last(), text).push(list.last())
    }
}

/// The texts in ascending order, each once.
pub open spec fn collected(texts: Seq<Seq<char>>) -> Seq<Seq<char>>
    decreases texts.len(),
{
    if texts.len() == 0 {
        seq![]
    } else {
        included(collected(texts.drop_last()), texts.last())
    }
}

/// Adds a text to an ascending list, unless it is there already.
fn include_text(list: &mut Vec<String>, text: String)
    ensures
        text::texts(final(list)@) == included(text::texts(old(list)@), text@),
{
    let ghost before = text::texts(list@);
    let mut at: usize = list.len();
    assert(before.take(at as int) =~= before);
    assert(included(before, text@) =~= included(before.take(at as int), text@) + before.skip(
        at as int,
    ));
    while at > 0 && !comes_before(list[at - 1].as_str(), text.as_str())
        invariant
            at <= before.len(),
            text::texts(list@) == before,
            before.len() == list@.len(),
            included(before, text@) == included(before.take(at as int), text@) + before.skip(
                at as int,
            ),
        decreases at,
    {
        assert(list@[at - 1]@ == before[at - 1]);
        assert(before.take(at as int).drop_last() =~= before.take(at - 1));
        assert(before.take(at as int).last() == before[at - 1]);
        if same(list[at - 1].as_str(), text.as_str()) {
            assert(before.take(at as int) + before.skip(at as int) =~= before);
            return ;
        }
        assert(included(before.take(at - 1), text@).push(before[at - 1]) + before.skip(at as int)
            =~= included(before.take(at - 1), text@) + before.skip(at - 1));
        at -= 1;
    }
    if at > 0 {
        assert(list@[at - 1]@ == before[at - 1]);
        assert(before.take(at as int).last() == before[at - 1]);
    }
    list.insert(at, text);
    assert(text::texts(list@) =~= before.take(at as int).push(text@) + before.skip(at as int));
}

/// The texts in ascending order, each once.
pub fn collect(items: Vec<String>) -> (set: Vec<String>)
    ensures
        text::texts(set@) == collected(text::texts(items@)),
{
    let mut set: Vec<String> = Vec::new();
    assert(text::texts(set@) =~= collected(text::texts(items@.take(0))));
    for item in it: items
        invariant
            it.seq() == items@,
            text::texts(set@) == collected(text::texts(items@.take(it.index()))),
    {
        assert(text::texts(items@.take(it.index() + 1)).drop_last() =~= text::texts(items@.take(it.index())));
        assert(text::texts(items@.take(it.index() + 1)).last() == item@);
        include_text(&mut set, item);
    }
    assert(items@.take(items@.len() as int) =~= items@);
    set
}

/// Adding a text keeps a list ascending and adds nothing else.
proof fn included_adds(list: Seq<Seq<char>>, text: Seq<char>)
    requires
        ascending(list),
    ensures
        ascending(included(list, text)),
        forall|x: Seq<char>| #[trigger]
            included(list, text).contains(x) <==> x == text || list.contains(x),
    decreases list.len(),
{
    let after = included(list, text);
    if list.len() == 0 || text::precedes(list.last(), text) {
        assert forall|i: int, j: int| 0 <= i < j < after.len() implies text::precedes(
            #[trigger] after[i],
            #[trigger] after[j],
        ) by {
            if j == list.len() && i < list.len() - 1 {
                assert(text::precedes(list[i], list[list.len() - 1]));
                text::precedes_transitive(list[i], list.last(), text);
            }
        }
        assert forall|x: Seq<char>| #[trigger] after.contains(x) <==> x == text || list.contains(
            x,
        ) by {
            assert(after[list.len() as int] == text);
            if list.contains(x) {
                let k = choose|k: int| 0 <= k < list.len() && list[k] == x;
                assert(after[k] == x);
            }
        }
    } else if list.last() == text {
        assert(list[list.len() - 1] == text);
    } else {
        let front = list.drop_last();
        let last = list.last();
        text::precedes_total(last, text);
        included_adds(front, text);
        let inner = included(front, text);
        assert forall|i: int, j: int| 0 <= i < j < after.len() implies text::precedes(
            #[trigger] after[i],
            #[trigger] after[j],
        ) by {
            if j == inner.len() {
                assert(inner.contains(inner[i]));
                if inner[i] != text {
                    let k = choose|k: int| 0 <= k < front.len() && front[k] == inner[i];
                    assert(text::precedes(list[k], list[list.len() - 1]));
                }
            }
        }
        assert forall|x: Seq<char>| #[trigger] after.contains(x) <==> x == text || list.contains(
            x,
        ) by {
            if after.contains(x) {
                let k = choose|k: int| 0 <= k < after.len() && after[k] == x;
                if k < inner.len() {
                    assert(inner.contains(x));
                    if x != text {
                        let m = choose|m: int| 0 <= m < front.len() && front[m] == x;
                        assert(list[m] == x);
                    }
                } else {
                    assert(list[list.len() - 1] == x);
                }
            }
            if x == text || list.contains(x) {
                if x == last {
                    assert(after[inner.len() as int] == x);
                } else {
                    if x != text {
                        let m = choose|m: int| 0 <= m < list.len() && list[m] == x;
                        assert(front[m] == x);
                    }
                    assert(inner.contains(x));
                    let k = choose|k: int| 0 <= k < inner.len() && inner[k] == x;
                    assert(after[k] == x);
                }
            }
        }
    }
}

/// A collected list ascends and holds exactly the texts it was made from.
pub proof fn collected_is_set(items: Seq<Seq<char>>)
    ensures
        ascending(collected(items)),
        forall|x: Seq<char>| #[trigger] collected(items).contains(x) <==> items.contains(x),
    decreases items.len(),
{
    if items.len() > 0 {
        let front = items.drop_last();
        collected_is_set(front);
        included_adds(collected(front), items.last());
        assert forall|x: Seq<char>| #[trigger] collected(items).contains(x) <==> items.contains(
            x,
        ) by {
            assert(items[items.len() - 1] == items.last());
            if items.contains(x) && x != items.last() {
                let k = choose|k: int| 0 <= k < items.len() && items[k] == x;
                assert(front[k] == x);
            }
            if front.contains(x) {
                let k = choose|k: int| 0 <= k < front.len() && front[k] == x;
                assert(items[k] == x);
            }
        }
    }
}

/// Two ascending lists that hold the same texts are the same list.
pub proof fn ascending_unique(a: Seq<Seq<char>>, b: Seq<Seq<char>>)
    requires
        ascending(a),
        ascending(b),
        forall|x: Seq<char>| #[trigger] a.contains(x) <==> b.contains(x),
    ensures
        a == b,
    decreases a.len(),
{
    if a.len() == 0 || b.len() == 0 {
        if a.len() > 0 {
            assert(a.contains(a[0]));
        }
        if b.len() > 0 {
            assert(b.contains(b[0]));
            assert(a.contains(b[0]));
        }
        assert(a =~= b);
    } else {
        let x = a.last();
        let y = b.last();
        assert(a.contains(a[a.len() - 1]));
        assert(b.contains(b[b.len() - 1]));
        assert(a.contains(y));
        let i = choose|i: int| 0 <= i < b.len() && b[i] == x;
        let j = choose|j: int| 0 <= j < a.len() && a[j] == y;
        if i < b.len() - 1 {
            assert(text::precedes(b[i], b[b.len() - 1]));
            if j < a.len() - 1 {
                assert(text::precedes(a[j], a[a.len() - 1]));
                text::precedes_asymmetric(x, y);
            } else {
                text::precedes_irreflexive(x);
            }
        }
        assert(x == y);
        let front_a = a.drop_last();
        let front_b = b.drop_last();
        assert forall|z: Seq<char>| #[trigger] front_a.contains(z) <==> front_b.contains(z) by {
            if front_a.contains(z) {
                let k = choose|k: int| 0 <= k < front_a.len() && front_a[k] == z;
                assert(a[k] == z);
                assert(a.contains(z));
                assert(text::precedes(a[k], a[a.len() - 1]));
                text::precedes_asymmetric(z, x);
                let m = choose|m: int| 0 <= m < b.len() && b[m] == z;
                assert(front_b[m] == z);
            }
            if front_b.contains(z) {
                let k = choose|k: int| 0 <= k < front_b.len() && front_b[k] == z;
                assert(b[k] == z);
                assert(b.contains(z));
                assert(a.contains(z));
                assert(text::precedes(b[k], b[b.len() - 1]));
                text::precedes_asymmetric(z, x);
                let m = choose|m: int| 0 <= m < a.len() && a[m] == z;
                assert(front_a[m] == z);
            }
        }
        ascending_unique(front_a, front_b);
        assert(a =~= front_a.push(x));
        assert(b =~= front_b.push(x));
    }
}

// ---------------------------------------------------------------------------
// Maps from texts
// ---------------------------------------------------------------------------

/// A map from texts to values, held as a list in ascending order of its keys.
#[derive(Debug, PartialEq)]
pub struct SortedMap<V> {
    /// The keys with their values, in ascending order of the keys.
    pub entries: Vec<(String, V)>,
}

/// The keys of a list of entries.
pub open spec fn keys<M>(entries: Seq<(Seq<char>, M)>) -> Seq<Seq<char>> {
    entries.map_values(|entry: (Seq<char>, M)| entry.0)
}

/// What a list of entries holds under `key`: the value of the first entry for it.
pub open spec fn lookup<M>(entries: Seq<(Seq<char>, M)>, key: Seq<char>) -> Option<M>
    decreases entries.len(),
{
    if entries.len() == 0 {
        None
    } else if entries[0].0 == key {
        Some(entries[0].1)
    } else {
        lookup(entries.drop_first(), key)
    }
}

/// An ascending list of entries with `key` standing for `value`.
pub open spec fn inserted<M>(entries: Seq<(Seq<char>, M)>, key: Seq<char>, value: M) -> Seq<
    (Seq<char>, M),
>
    decreases entries.len(),
{
    if entries.len() == 0 || text::precedes(entries.last().0, key) {
        entries.push((key, value))
    } else if entries.last().0 == key {
        entries.drop_last().push((key, value))
    } else {
        inserted(entries.drop_last(), key, value).push(entries.last())
    }
}

/// The map that a list of entries makes, where a later entry for a key replaces
/// an earlier one.
pub open spec fn mapped<M>(entries: Seq<(Seq<char>, M)>) -> Seq<(Seq<char>, M)>
    decreases entries.len(),
{
    if entries.len() == 0 {
        seq![]
    } else {
        inserted(mapped(entries.drop_last()), entries.last().0, entries.last().1)
    }
}

impl<V: View> SortedMap<V> {
    /// The keys with their values.
    pub open spec fn pairs(self) -> Seq<(Seq<char>, V::V)> {
        Seq::new(self.entries@.len(), |i: int| (self.entries@[i].0@, self.entries@[i].1@))
    }

    /// Whether the keys ascend, so that none occurs twice.
    pub open spec fn wf(self) -> bool {
        ascending(keys(self.pairs()))
    }

    /// A map without entries.
    pub fn new() -> (map: Self)
        ensures
            map.pairs() == Seq::<(Seq<char>, V::V)>::empty(),
            map.wf(),
    {
        SortedMap { entries: Vec::new() }
    }

    /// Makes `key` stand for `value`, in place of what it stood for.
    pub fn insert(&mut self, key: String, value: V)
        ensures
            final(self).pairs() == inserted(old(self).pairs(), key@, value@),
            old(self).wf() ==> final(self).wf(),
    {
        let ghost before = self.pairs();
        proof {
            if self.wf() {
                inserted_updates(before, key@, value@);
            }
        }
        let mut at: usize = self.entries.len();
        assert(before.take(at as int) =~= before);
        assert(inserted(before, key@, value@) =~= inserted(before.take(at as int), key@, value@)
            + before.skip(at as int));
        while at > 0 && !comes_before(self.entries[at - 1].0.as_str(), key.as_str())
            invariant
                at <= before.len(),
                self.pairs() == before,
                before.len() == self.entries@.len(),
                *self == *old(self),
                old(self).wf() ==> ascending(keys(inserted(before, key@, value@))),
                inserted(before, key@, value@) == inserted(before.take(at as int), key@, value@)
                    + before.skip(at as int),
            decreases at,
        {
            assert(self.entries@[at - 1].0@ == before[at - 1].0);
            assert(before.take(at as int).drop_last() =~= before.take(at - 1));
            assert(before.take(at as int).last() == before[at - 1]);
            if same(self.entries[at - 1].0.as_str(), key.as_str()) {
                self.entries[at - 1] = (key, value);
                assert(self.pairs() =~= before.take(at - 1).push((key@, value@)) + before.skip(
                    at as int,
                ));
                return ;
            }
            assert(inserted(before.take(at - 1), key@, value@).push(before[at - 1]) + before.skip(
                at as int,
            ) =~= inserted(before.take(at - 1), key@, value@) + before.skip(at - 1));
            at -= 1;
        }
        if at > 0 {
            assert(self.entries@[at - 1].0@ == before[at - 1].0);
            assert(before.take(at as int).last() == before[at - 1]);
        }
        self.entries.insert(at, (key, value));
        assert(self.pairs() =~= before.take(at as int).push((key@, value@)) + before.skip(
            at as int,
        ));
    }

    /// The map that a list of entries makes, where a later entry for a key
    /// replaces an earlier one.
    pub fn from_entries(entries: Vec<(String, V)>) -> (map: Self)
        ensures
            map.pairs() == mapped((SortedMap { entries }).pairs()),
            map.wf(),
    {
        let ghost all = (SortedMap { entries }).pairs();
        let mut map: SortedMap<V> = SortedMap::new();
        assert(all.take(0) =~= seq![]);
        for entry in it: entries
            invariant
                it.seq() == entries@,
                all == (SortedMap { entries }).pairs(),
                map.pairs() == mapped(all.take(it.index())),
                map.wf(),
        {
            assert(all.take(it.index() + 1).drop_last() =~= all.take(it.index()));
            assert(all.take(it.index() + 1).last() == (entry.0@, entry.1@));
            map.insert(entry.0, entry.1);
        }
        assert(all.take(all.len() as int) =~= all);
        map
    }

    /// What the map holds under `key`.
    pub fn get(&self, key: &str) -> (found: Option<&V>)
        ensures
            found is Some <==> lookup(self.pairs(), key@) is Some,
            found matches Some(value) ==> lookup(self.pairs(), key@) == Some(value@),
    {
        let ghost all = self.pairs();
        let mut i: usize = 0;
        assert(all.skip(0) =~= all);
        while i < self.entries.len()
            invariant
                i <= self.entries@.len(),
                all == self.pairs(),
                lookup(all, key@) == lookup(all.skip(i as int), key@),
            decreases self.entries@.len() - i,
        {
            assert(all.skip(i as int)[0] == (self.entries@[i as int].0@, self.entries@[i as int].1@));
            if same(self.entries[i].0.as_str(), key) {
                return Some(&self.entries[i].1);
            }
            assert(all.skip(i as int).drop_first() =~= all.skip(i + 1));
            i += 1;
        }
        None
    }
}

/// Looking past an entry for another key.
proof fn lookup_push<M>(entries: Seq<(Seq<char>, M)>, last: (Seq<char>, M), key: Seq<char>)
    ensures
        lookup(entries.push(last), key) == match lookup(entries, key) {
            Some(value) => Some(value),
            None => if last.0 == key { Some(last.1) } else { None },
        },
    decreases entries.len(),
{
    reveal_with_fuel(lookup, 2);
    let all = entries.push(last);
    if entries.len() > 0 {
        assert(all[0] == entries[0]);
        assert(all.drop_first() =~= entries.drop_first().push(last));
        lookup_push(entries.drop_first(), last, key);
    } else {
        assert(all[0] == last);
        assert(all.drop_first() =~= seq![]);
    }
}

/// A key found among the entries is the key of one of them.
proof fn lookup_is_entry<M>(entries: Seq<(Seq<char>, M)>, key: Seq<char>)
    ensures
        lookup(entries, key) is Some <==> keys(entries).contains(key),
    decreases entries.len(),
{
    let all = keys(entries);
    if entries.len() > 0 {
        assert(all[0] == entries[0].0);
        assert(keys(entries.drop_first()) =~= all.drop_first());
        lookup_is_entry(entries.drop_first(), key);
        if all.contains(key) && entries[0].0 != key {
            let k = choose|k: int| 0 <= k < all.len() && all[k] == key;
            assert(all.drop_first()[k - 1] == key);
        }
        if all.drop_first().contains(key) {
            let k = choose|k: int| 0 <= k < all.drop_first().len() && all.drop_first()[k] == key;
            assert(all[k + 1] == key);
        }
    }
}

/// Insertion keeps the keys ascending, makes `key` stand for `value`, and leaves
/// every other key as it was.
pub proof fn inserted_updates<M>(entries: Seq<(Seq<char>, M)>, key: Seq<char>, value: M)
    requires
        ascending(keys(entries)),
    ensures
        ascending(keys(inserted(entries, key, value))),
        keys(inserted(entries, key, value)) == included(keys(entries), key),
        forall|other: Seq<char>| #[trigger]
            lookup(inserted(entries, key, value), other) == if other == key {
                Some(value)
            } else {
                lookup(entries, other)
            },
    decreases entries.len(),
{
    let after = inserted(entries, key, value);
    let names = keys(entries);
    included_adds(names, key);
    if entries.len() == 0 || text::precedes(entries.last().0, key) {
        assert(keys(after) =~= names.push(key));
        if entries.len() > 0 {
            assert(names.last() == entries.last().0);
        }
        assert forall|other: Seq<char>| #[trigger] lookup(after, other) == if other == key {
            Some(value)
        } else {
            lookup(entries, other)
        } by {
            lookup_push(entries, (key, value), other);
            lookup_is_entry(entries, other);
            if other == key && names.contains(key) {
                let k = choose|k: int| 0 <= k < names.len() && names[k] == key;
                if k < names.len() - 1 {
                    assert(text::precedes(names[k], names[names.len() - 1]));
                    text::precedes_asymmetric(names[k], names[names.len() - 1]);
                } else {
                    text::precedes_asymmetric(entries.last().0, key);
                }
            }
        }
    } else {
        let front = entries.drop_last();
        let last = entries.last();
        assert(names.last() == last.0);
        assert(keys(front) =~= names.drop_last());
        assert(entries =~= front.push(last));
        if last.0 == key {
            assert(keys(after) =~= names);
            assert forall|other: Seq<char>| #[trigger] lookup(after, other) == if other == key {
                Some(value)
            } else {
                lookup(entries, other)
            } by {
                lookup_push(front, (key, value), other);
                lookup_push(front, last, other);
                lookup_is_entry(front, other);
                if other == key && keys(front).contains(key) {
                    let k = choose|k: int|
                        0 <= k < keys(front).len() && keys(front)[k] == key;
                    assert(text::precedes(names[k], names[names.len() - 1]));
                    text::precedes_asymmetric(names[k], names[names.len() - 1]);
                }
            }
        } else {
            inserted_updates(front, key, value);
            let inner = inserted(front, key, value);
            assert(keys(after) =~= keys(inner).push(last.0));
            assert forall|other: Seq<char>| #[trigger] lookup(after, other) == if other == key {
                Some(value)
            } else {
                lookup(entries, other)
            } by {
                lookup_push(inner, last, other);
                lookup_push(front, last, other);
                assert(lookup(inner, other) == if other == key {
                    Some(value)
                } else {
                    lookup(front, other)
                });
            }
        }
    }
}

/// An entry of the map that a list of entries makes is an entry of the list.
pub proof fn mapped_entry<M>(entries: Seq<(Seq<char>, M)>, index: int)
    requires
        0 <= index < mapped(entries).len(),
    ensures
        entries.contains(mapped(entries)[index]),
    decreases entries.len(),
{
    if entries.len() > 0 {
        let front = mapped(entries.drop_last());
        let last = entries.last();
        inserted_entry(front, last.0, last.1, index);
        let found = mapped(entries)[index];
        assert(entries[entries.len() - 1] == last);
        if front.contains(found) {
            let k = choose|k: int| 0 <= k < front.len() && front[k] == found;
            mapped_entry(entries.drop_last(), k);
            let m = choose|m: int|
                0 <= m < entries.drop_last().len() && entries.drop_last()[m] == found;
            assert(entries[m] == found);
        }
    }
}

/// An entry after an insertion is the one inserted or was there before.
proof fn inserted_entry<M>(
    entries: Seq<(Seq<char>, M)>,
    key: Seq<char>,
    value: M,
    index: int,
)
    requires
        0 <= index < inserted(entries, key, value).len(),
    ensures
        inserted(entries, key, value)[index] == (key, value) || entries.contains(
            inserted(entries, key, value)[index],
        ),
    decreases entries.len(),
{
    let after = inserted(entries, key, value);
    if entries.len() > 0 {
        assert(entries.contains(entries[entries.len() - 1]));
        let front = entries.drop_last();
        if text::precedes(entries.last().0, key) {
            if index < entries.len() {
                assert(entries[index] == after[index]);
            }
        } else if entries.last().0 == key {
            if index < front.len() {
                assert(entries[index] == after[index]);
            }
        } else {
            let inner = inserted(front, key, value);
            if index < inner.len() {
                inserted_entry(front, key, value, index);
                if front.contains(after[index]) {
                    let k = choose|k: int| 0 <= k < front.len() && front[k] == after[index];
                    assert(entries[k] == after[index]);
                }
            }
        }
    }
}

/// The map that a list of entries makes has their keys, in ascending order.
pub proof fn mapped_ascends<M>(entries: Seq<(Seq<char>, M)>)
    ensures
        ascending(keys(mapped(entries))),
        keys(mapped(entries)) == collected(keys(entries)),
    decreases entries.len(),
{
    if entries.len() > 0 {
        let front = entries.drop_last();
        let last = entries.last();
        mapped_ascends(front);
        inserted_updates(mapped(front), last.0, last.1);
        assert(keys(entries).drop_last() =~= keys(front));
        assert(keys(entries).last() == last.0);
    } else {
        assert(keys(mapped(entries)) =~= collected(keys(entries)));
    }
}

/// Entries with the same keys, and related values under each key, make maps whose
/// entries pair up, whatever order the entries come in.
pub proof fn mapped_pairs_up<M>(
    a: Seq<(Seq<char>, M)>,
    b: Seq<(Seq<char>, M)>,
    related: spec_fn(M, M) -> bool,
)
    requires
        forall|key: Seq<char>| #[trigger] keys(a).contains(key) <==> keys(b).contains(key),
        forall|i: int, j: int|
            0 <= i < a.len() && 0 <= j < b.len() && (#[trigger] a[i]).0 == (#[trigger] b[j]).0
                ==> related(a[i].1, b[j].1),
    ensures
        mapped(a).len() == mapped(b).len(),
        forall|i: int|
            0 <= i < mapped(a).len() ==> (#[trigger] mapped(a)[i]).0 == mapped(b)[i].0 && related(
                mapped(a)[i].1,
                mapped(b)[i].1,
            ),
{
    mapped_ascends(a);
    mapped_ascends(b);
    collected_is_set(keys(a));
    collected_is_set(keys(b));
    let names = keys(mapped(a));
    assert forall|key: Seq<char>| #[trigger] names.contains(key) <==> keys(mapped(b)).contains(
        key,
    ) by {
        assert(keys(a).contains(key) <==> keys(b).contains(key));
        assert(collected(keys(b)).contains(key) <==> keys(b).contains(key));
    }
    ascending_unique(names, keys(mapped(b)));
    assert(names.len() == mapped(a).len());
    assert(keys(mapped(b)).len() == mapped(b).len());
    assert forall|i: int| 0 <= i < mapped(a).len() implies (#[trigger] mapped(a)[i]).0 == mapped(
        b,
    )[i].0 && related(mapped(a)[i].1, mapped(b)[i].1) by {
        assert(names[i] == mapped(a)[i].0);
        assert(keys(mapped(b))[i] == mapped(b)[i].0);
        mapped_entry(a, i);
        mapped_entry(b, i);
        let j = choose|j: int| 0 <= j < a.len() && a[j] == mapped(a)[i];
        let k = choose|k: int| 0 <= k < b.len() && b[k] == mapped(b)[i];
        assert(a[j].0 == b[k].0);
    }
}

/// What is looked up under a key is the value of the first entry that has the key,
/// and nothing exactly where none has.
pub proof fn lookup_finds_the_first<M>(entries: Seq<(Seq<char>, M)>, key: Seq<char>)
    ensures
        lookup(entries, key) is None <==> forall|i: int|
            0 <= i < entries.len() ==> (#[trigger] entries[i]).0 != key,
        lookup(entries, key) matches Some(value) ==> exists|i: int|
            0 <= i < entries.len() && (#[trigger] entries[i]) == (key, value) && forall|k: int|
                0 <= k < i ==> (#[trigger] entries[k]).0 != key,
    decreases entries.len(),
{
    if entries.len() > 0 {
        let rest = entries.drop_first();
        lookup_finds_the_first(rest, key);
        if entries[0].0 == key {
            assert(entries[0] == (key, entries[0].1));
        } else if let Some(value) = lookup(rest, key) {
            let i = choose|i: int|
                0 <= i < rest.len() && (#[trigger] rest[i]) == (key, value) && forall|k: int|
                    0 <= k < i ==> (#[trigger] rest[k]).0 != key;
            assert(entries[i + 1] == (key, value));
            assert forall|k: int| 0 <= k < i + 1 implies (#[trigger] entries[k]).0 != key by {
                if k > 0 {
                    assert(rest[k - 1] == entries[k]);
                }
            }
        } else {
            assert forall|i: int| 0 <= i < entries.len() implies (#[trigger] entries[i]).0 != key by {
                if i > 0 {
                    assert(rest[i - 1] == entries[i]);
                }
            }
        }
    }
}

/// In a list whose keys ascend, an entry is what its key stands for.
pub proof fn ascending_entries_are_found<M>(entries: Seq<(Seq<char>, M)>, index: int)
    requires
        ascending(keys(entries)),
        0 <= index < entries.len(),
    ensures
        lookup(entries, entries[index].0) == Some(entries[index].1),
{
    let key = entries[index].0;
    let names = keys(entries);
    lookup_finds_the_first(entries, key);
    assert(entries[index].0 == key);
    let value = lookup(entries, key)->0;
    let i = choose|i: int|
        0 <= i < entries.len() && (#[trigger] entries[i]) == (key, value) && forall|k: int|
            0 <= k < i ==> (#[trigger] entries[k]).0 != key;
    assert(names[i] == key && names[index] == key);
    if i < index {
        assert(text::precedes(names[i], names[index]));
        text::precedes_irreflexive(key);
    } else if index < i {
        assert(text::precedes(names[index], names[i]));
        text::precedes_irreflexive(key);
    }
}

/// The map that a list of entries makes has, under each key, the value of the last
/// entry for it.
pub proof fn mapped_finds_the_last<M>(entries: Seq<(Seq<char>, M)>, index: int)
    requires
        0 <= index < entries.len(),
        forall|k: int| index < k < entries.len() ==> (#[trigger] entries[k]).0 != entries[index].0,
    ensures
        lookup(mapped(entries), entries[index].0) == Some(entries[index].1),
    decreases entries.len(),
{
    let front = entries.drop_last();
    let last = entries.last();
    mapped_ascends(front);
    inserted_updates(mapped(front), last.0, last.1);
    if index < front.len() {
        assert(entries[entries.len() - 1].0 != entries[index].0);
        assert forall|k: int| index < k < front.len() implies (#[trigger] front[k]).0
            != front[index].0 by {
            assert(front[k] == entries[k]);
        }
        mapped_finds_the_last(front, index);
    }
}

/// The last entry for a key that some entry has.
pub proof fn last_for_key<M>(entries: Seq<(Seq<char>, M)>, key: Seq<char>) -> (index: int)
    requires
        keys(entries).contains(key),
    ensures
        0 <= index < entries.len(),
        entries[index].0 == key,
        forall|k: int| index < k < entries.len() ==> (#[trigger] entries[k]).0 != key,
    decreases entries.len(),
{
    let last = entries.len() - 1;
    if entries[last].0 == key {
        last
    } else {
        let front = entries.drop_last();
        let i = choose|i: int| 0 <= i < keys(entries).len() && keys(entries)[i] == key;
        assert(keys(front)[i] == key);
        let index = last_for_key(front, key);
        assert forall|k: int| index < k < entries.len() implies (#[trigger] entries[k]).0 != key by {
            if k < last {
                assert(front[k] == entries[k]);
            }
        }
        index
    }
}

/// The map that a list of entries makes has exactly the keys of the entries, in
/// ascending order, and under each the value of the last entry for it.
pub proof fn mapped_entry_is_the_last<M>(entries: Seq<(Seq<char>, M)>, index: int) -> (last: int)
    requires
        0 <= index < mapped(entries).len(),
    ensures
        0 <= last < entries.len(),
        mapped(entries)[index] == entries[last],
        forall|k: int| last < k < entries.len() ==> (#[trigger] entries[k]).0 != entries[last].0,
{
    let made = mapped(entries);
    mapped_ascends(entries);
    mapped_entry(entries, index);
    let i = choose|i: int| 0 <= i < entries.len() && entries[i] == made[index];
    assert(keys(entries)[i] == made[index].0);
    let last = last_for_key(entries, made[index].0);
    mapped_finds_the_last(entries, last);
    ascending_entries_are_found(made, index);
    last
}

/// A list in order has the lower of any two before the other, whatever is tested.
pub proof fn in_order_means<M>(items: Seq<M>, before: spec_fn(M, M) -> bool, i: int, j: int)
    requires
        in_order(items, before),
        0 <= i < j < items.len(),
    ensures
        !before(items[j], items[i]),
{
}

} // verus!
