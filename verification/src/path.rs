//! Paths, as Unix takes them apart.
//!
//! A path is text. Slashes separate its components; empty components and `.` count
//! for nothing, but for a `.` that a relative path starts with.

use vstd::prelude::*;
use crate::text;
use crate::text::{chars_of, find, same, string_of};

verus! {

/// What a component of a path is.
#[derive(Debug, Clone, Copy, PartialEq, Eq, Structural)]
pub enum Kind {
    /// The slash that an absolute path starts with.
    Root,
    /// A `.` that a relative path starts with.
    Current,
    /// A `..`.
    Parent,
    /// A name.
    Normal,
}

/// A component of a path: `path[start..end]`.
pub struct Piece {
    /// What the component is.
    pub kind: Kind,
    /// Where it starts.
    pub start: usize,
    /// Where it ends.
    pub end: usize,
}

/// A component of a path: what it is, where it starts and where it ends.
pub struct Span {
    /// What the component is.
    pub kind: Kind,
    /// Where it starts.
    pub start: int,
    /// Where it ends.
    pub end: int,
}

impl View for Piece {
    type V = Span;

    open spec fn view(&self) -> Span {
        Span { kind: self.kind, start: self.start as int, end: self.end as int }
    }
}

/// The views of a list of pieces.
pub open spec fn spans(pieces: Seq<Piece>) -> Seq<Span> {
    pieces.map_values(|piece: Piece| piece@)
}

/// Where the component that starts at `at` ends: at the next slash, or with the path.
pub open spec fn component_end(path: Seq<char>, at: int) -> int {
    at + text::position(path.skip(at), '/')
}

/// A component as a list, which is empty where the component counts for nothing.
pub open spec fn counted(path: Seq<char>, start: int, end: int) -> Seq<Span> {
    let name = path.subrange(start, end);
    if name == ""@ || name == "."@ {
        seq![]
    } else if name == ".."@ {
        seq![Span { kind: Kind::Parent, start, end }]
    } else {
        seq![Span { kind: Kind::Normal, start, end }]
    }
}

/// The components from `at` on, where one starts.
pub open spec fn components_from(path: Seq<char>, at: int) -> Seq<Span>
    decreases path.len() + 1 - at,
{
    if 0 <= at < path.len() {
        let end = component_end(path, at);
        if at <= end <= path.len() {
            counted(path, at, end) + components_from(path, end + 1)
        } else {
            seq![]
        }
    } else {
        seq![]
    }
}

/// The component that only the start of a path can be: the root, or a `.`.
pub open spec fn leading(path: Seq<char>) -> Seq<Span> {
    if path.len() > 0 && path[0] == '/' {
        seq![Span { kind: Kind::Root, start: 0, end: 1 }]
    } else if path.len() > 0 && path.take(component_end(path, 0)) == "."@ {
        seq![Span { kind: Kind::Current, start: 0, end: 1 }]
    } else {
        seq![]
    }
}

/// The components of a path.
pub open spec fn components(path: Seq<char>) -> Seq<Span> {
    leading(path) + components_from(path, 0)
}

/// The text of a component.
pub open spec fn component_text(path: Seq<char>, span: Span) -> Seq<char> {
    path.subrange(span.start, span.end)
}

/// The texts of some components.
pub open spec fn component_texts(path: Seq<char>, list: Seq<Span>) -> Seq<Seq<char>> {
    list.map_values(|span: Span| component_text(path, span))
}

/// Whether components lie within their path.
pub open spec fn within(path: Seq<char>, list: Seq<Span>) -> bool {
    forall|i: int|
        0 <= i < list.len() ==> 0 <= (#[trigger] list[i]).start <= list[i].end <= path.len()
}

/// Components from `at` on lie within the path, behind `at`, one after another.
proof fn components_from_within(path: Seq<char>, at: int)
    requires
        0 <= at,
    ensures
        within(path, components_from(path, at)),
        forall|i: int|
            0 <= i < components_from(path, at).len() ==> at <= (#[trigger] components_from(
                path,
                at,
            )[i]).start,
        forall|i: int, j: int|
            0 <= i < j < components_from(path, at).len() ==> (#[trigger] components_from(
                path,
                at,
            )[i]).end <= (#[trigger] components_from(path, at)[j]).start,
    decreases path.len() + 1 - at,
{
    if at < path.len() {
        let end = component_end(path, at);
        text::position_is_first(path.skip(at), '/');
        components_from_within(path, end + 1);
    }
}

/// Components lie within the path, one after another.
pub proof fn components_within(path: Seq<char>)
    ensures
        within(path, components(path)),
        forall|i: int, j: int|
            0 <= i < j < components(path).len() ==> (#[trigger] components(path)[i]).end <= (
            #[trigger] components(path)[j]).start,
{
    components_from_within(path, 0);
    if path.len() > 0 {
        let end = component_end(path, 0);
        let first = leading(path);
        text::position_is_first(path.skip(0), '/');
        reveal_strlit(".");
        reveal_strlit("");
        if first.len() > 0 {
            let all = components_from(path, 0);
            components_from_within(path, end + 1);
            if path[0] == '/' {
                assert(path.skip(0)[0] == '/');
                assert(end == 0);
                assert(path.subrange(0, 0) =~= ""@);
            } else {
                assert(path.take(end) =~= path.subrange(0, end));
                assert(path.take(end).len() == 1);
            }
            assert(counted(path, 0, end) =~= seq![]);
            assert(all =~= components_from(path, end + 1));
        }
    }
}

/// Takes a path apart.
pub fn pieces_of(path: &Vec<char>) -> (pieces: Vec<Piece>)
    ensures
        spans(pieces@) == components(path@),
        within(path@, spans(pieces@)),
{
    let mut pieces: Vec<Piece> = Vec::new();
    let length: usize = path.len();
    proof {
        components_within(path@);
        reveal_strlit("");
        reveal_strlit(".");
        reveal_strlit("..");
        text::position_is_first(path@.skip(0), '/');
        assert(path@.skip(0) =~= path@);
        assert(path@.subrange(0, length as int) =~= path@);
    }
    if length > 0 {
        let end = find(path, 0, length, '/');
        if path[0] == '/' {
            pieces.push(Piece { kind: Kind::Root, start: 0, end: 1 });
        } else if end == 1 && path[0] == '.' {
            pieces.push(Piece { kind: Kind::Current, start: 0, end: 1 });
            assert(path@.take(1) =~= "."@);
        } else {
            assert(path@.take(end as int) != "."@) by {
                if path@.take(end as int) == "."@ {
                    assert(path@.take(end as int).len() == 1);
                    assert(path@.take(end as int)[0] == '.');
                }
            }
        }
    }
    assert(spans(pieces@) =~= leading(path@));
    let mut at: usize = 0;
    assert(spans(pieces@) + components_from(path@, 0) =~= components(path@));
    while at < length
        invariant
            length == path@.len(),
            within(path@, components(path@)),
            spans(pieces@) + components_from(path@, at as int) == components(path@),
        decreases length - at,
    {
        let ghost before = spans(pieces@);
        proof {
            assert(path@.subrange(at as int, length as int) =~= path@.skip(at as int));
            reveal_strlit("");
            reveal_strlit(".");
            reveal_strlit("..");
        }
        let end = find(path, at, length, '/');
        let ghost name = path@.subrange(at as int, end as int);
        let ghost rest = components_from(path@, end + 1);
        if end == at {
            assert(name =~= ""@);
            assert(before + (counted(path@, at as int, end as int) + rest) =~= before + rest);
        } else if end - at == 1 && path[at] == '.' {
            assert(name =~= "."@);
            assert(before + (counted(path@, at as int, end as int) + rest) =~= before + rest);
        } else {
            let kind = if end - at == 2 && path[at] == '.' && path[at + 1] == '.' {
                assert(name =~= ".."@);
                Kind::Parent
            } else {
                assert(name != ".."@) by {
                    if name == ".."@ {
                        assert(name.len() == 2);
                        assert(name[0] == '.' && name[1] == '.');
                    }
                }
                Kind::Normal
            };
            assert(name != ""@ && name != "."@) by {
                assert(name.len() == end - at);
                if name == "."@ {
                    assert(name.len() == 1);
                    assert(name[0] == '.');
                }
            }
            pieces.push(Piece { kind, start: at, end });
            assert(spans(pieces@) =~= before.push(
                Span { kind, start: at as int, end: end as int },
            ));
            assert(before + (counted(path@, at as int, end as int) + rest) =~= spans(pieces@)
                + rest);
        }
        if end == length {
            assert(rest =~= seq![]);
            assert(spans(pieces@) + seq![] =~= spans(pieces@));
            return pieces;
        }
        at = end + 1;
    }
    assert(spans(pieces@) + seq![] =~= spans(pieces@));
    pieces
}

/// The last component, if it is a name.
pub open spec fn file_name(path: Seq<char>) -> Option<Seq<char>> {
    let all = components(path);
    if all.len() > 0 && all.last().kind == Kind::Normal {
        Some(component_text(path, all.last()))
    } else {
        None
    }
}

/// The last component of a path, if it is a name.
pub fn file_name_of(path: &str) -> (name: Option<String>)
    ensures
        match name {
            Some(found) => Some(found@),
            None => None,
        } == file_name(path@),
{
    let chars = chars_of(path);
    let pieces = pieces_of(&chars);
    let count: usize = pieces.len();
    let ghost all = components(path@);
    if count == 0 {
        return None;
    }
    let last = &pieces[count - 1];
    assert(all.last() == last@);
    assert(all[count - 1] == last@);
    match last.kind {
        Kind::Normal => Some(string_of(&chars, last.start, last.end)),
        _ => None,
    }
}

/// The components joined with slashes.
pub open spec fn slashed(path: Seq<char>) -> Seq<char> {
    text::joined(component_texts(path, components(path)), "/"@)
}

/// A path with its components joined with slashes.
pub fn with_slashes(path: &str) -> (joined: String)
    ensures
        joined@ == slashed(path@),
{
    let chars = chars_of(path);
    let pieces = pieces_of(&chars);
    let ghost all = components(path@);
    let mut names: Vec<String> = Vec::new();
    let mut i: usize = 0;
    while i < pieces.len()
        invariant
            i <= pieces@.len(),
            chars@ == path@,
            all == components(path@),
            spans(pieces@) == all,
            within(path@, all),
            text::texts(names@) == component_texts(path@, all).take(i as int),
        decreases pieces@.len() - i,
    {
        let ghost before = text::texts(names@);
        assert(all[i as int] == pieces@[i as int]@);
        names.push(string_of(&chars, pieces[i].start, pieces[i].end));
        assert(text::texts(names@) =~= before.push(component_text(path@, all[i as int])));
        assert(text::texts(names@) =~= component_texts(path@, all).take(i + 1));
        i += 1;
    }
    assert(component_texts(path@, all).take(i as int) =~= component_texts(path@, all));
    text::join(&names, "/")
}

/// Whether the components of `base` come first among those of `path`.
pub open spec fn below(path: Seq<char>, base: Seq<char>) -> bool {
    let outer = component_texts(base, components(base));
    let inner = component_texts(path, components(path));
    outer.len() <= inner.len() && inner.take(outer.len() as int) == outer
}

/// What of a path is left behind the components of `base`.
pub open spec fn stripped(path: Seq<char>, base: Seq<char>) -> Option<Seq<char>> {
    let all = components(path);
    let count = components(base).len();
    if !below(path, base) {
        None
    } else if count < all.len() {
        Some(path.subrange(all[count as int].start, all.last().end))
    } else {
        Some(seq![])
    }
}

/// What of a path is left behind the components of `base`.
pub fn strip_prefix(path: &str, base: &str) -> (rest: Option<String>)
    ensures
        match rest {
            Some(found) => Some(found@),
            None => None,
        } == stripped(path@, base@),
{
    let inner_chars = chars_of(path);
    let outer_chars = chars_of(base);
    let inner = pieces_of(&inner_chars);
    let outer = pieces_of(&outer_chars);
    let ghost a = components(path@);
    let ghost b = components(base@);
    let ghost inner_texts = component_texts(path@, a);
    let ghost outer_texts = component_texts(base@, b);
    if inner.len() < outer.len() {
        return None;
    }
    let mut i: usize = 0;
    while i < outer.len()
        invariant
            i <= outer@.len() <= inner@.len(),
            inner_chars@ == path@,
            outer_chars@ == base@,
            a == components(path@),
            b == components(base@),
            spans(inner@) == a,
            spans(outer@) == b,
            within(path@, a),
            within(base@, b),
            inner_texts == component_texts(path@, a),
            outer_texts == component_texts(base@, b),
            forall|k: int| 0 <= k < i ==> inner_texts[k] == outer_texts[k],
        decreases outer@.len() - i,
    {
        assert(a[i as int] == inner@[i as int]@);
        assert(b[i as int] == outer@[i as int]@);
        let left = string_of(&inner_chars, inner[i].start, inner[i].end);
        let right = string_of(&outer_chars, outer[i].start, outer[i].end);
        assert(inner_texts[i as int] == left@);
        assert(outer_texts[i as int] == right@);
        if !same(left.as_str(), right.as_str()) {
            assert(inner_texts.take(outer_texts.len() as int)[i as int] == left@);
            return None;
        }
        i += 1;
    }
    assert(inner_texts.take(outer_texts.len() as int) =~= outer_texts);
    if outer.len() < inner.len() {
        let ghost first = outer@.len() as int;
        let ghost last = inner@.len() - 1;
        proof {
            components_within(path@);
            assert(a[first] == inner@[first]@);
            assert(a[last] == inner@[last]@);
            assert(a.last() == a[last]);
            if first < last {
                assert(a[first].end <= a[last].start);
            }
        }
        Some(string_of(&inner_chars, inner[outer.len()].start, inner[inner.len() - 1].end))
    } else {
        assert(Seq::<char>::empty() =~= seq![]);
        Some(String::new())
    }
}

/// What a path has to end with for a name to be put behind it.
pub open spec fn as_directory(path: Seq<char>) -> Seq<char> {
    if path.len() > 0 && path.last() != '/' {
        path.push('/')
    } else {
        path
    }
}

/// A relative path put behind another.
pub open spec fn put_behind(base: Seq<char>, relative: Seq<char>) -> Seq<char> {
    as_directory(base) + relative
}

/// Puts a relative path behind another.
pub fn put_together(base: &str, relative: &str) -> (path: String)
    ensures
        path@ == put_behind(base@, relative@),
{
    let chars = chars_of(base);
    let mut path = base.to_string();
    if chars.len() > 0 && chars[chars.len() - 1] != '/' {
        path.push('/');
    }
    path.push_str(relative);
    path
}

// ---------------------------------------------------------------------------
// Laws
// ---------------------------------------------------------------------------

/// A component moved `by` further along.
pub open spec fn moved(list: Seq<Span>, by: int) -> Seq<Span> {
    list.map_values(|span: Span| Span { kind: span.kind, start: span.start + by, end: span.end + by })
}

/// The first slash of a text is the first slash of any text it starts.
proof fn position_in_front(front: Seq<char>, back: Seq<char>, c: char)
    ensures
        front.contains(c) ==> text::position(front + back, c) == text::position(front, c),
        !front.contains(c) ==> text::position(front + back, c) == front.len() + text::position(
            back,
            c,
        ),
    decreases front.len(),
{
    if front.len() == 0 {
        assert(front + back =~= back);
    } else {
        assert((front + back)[0] == front[0]);
        assert((front + back).drop_first() =~= front.drop_first() + back);
        position_in_front(front.drop_first(), back, c);
        if front[0] != c {
            if front.contains(c) {
                let i = choose|i: int| 0 <= i < front.len() && front[i] == c;
                assert(front.drop_first()[i - 1] == c);
            }
            if front.drop_first().contains(c) {
                let i = choose|i: int|
                    0 <= i < front.drop_first().len() && front.drop_first()[i] == c;
                assert(front[i + 1] == c);
            }
        } else {
            assert(front.contains(c));
        }
    }
}

/// What stands behind a directory has its own components.
proof fn components_behind(directory: Seq<char>, relative: Seq<char>, at: int)
    requires
        0 <= at,
    ensures
        components_from(directory + relative, directory.len() + at) == moved(
            components_from(relative, at),
            directory.len() as int,
        ),
    decreases relative.len() + 1 - at,
{
    let whole = directory + relative;
    let by = directory.len() as int;
    if at < relative.len() {
        let end = component_end(relative, at);
        text::position_is_first(relative.skip(at), '/');
        assert(whole.skip(by + at) =~= relative.skip(at));
        assert(component_end(whole, by + at) == by + end);
        assert(whole.subrange(by + at, by + end) =~= relative.subrange(at, end));
        components_behind(directory, relative, end + 1);
        assert(counted(whole, by + at, by + end) =~= moved(counted(relative, at, end), by));
        assert(components_from(whole, by + at) =~= moved(components_from(relative, at), by));
    } else {
        assert(components_from(whole, by + at) =~= seq![]);
        assert(moved(components_from(relative, at), by) =~= seq![]);
    }
}

/// A directory with a relative path behind it has the components of the directory
/// and then those of the relative path.
proof fn components_across(directory: Seq<char>, relative: Seq<char>, at: int)
    requires
        0 <= at <= directory.len(),
        directory.len() > 0,
        directory.last() == '/',
    ensures
        components_from(directory + relative, at) == components_from(directory, at) + moved(
            components_from(relative, 0),
            directory.len() as int,
        ),
    decreases directory.len() - at,
{
    let whole = directory + relative;
    let by = directory.len() as int;
    if at == directory.len() {
        components_behind(directory, relative, 0);
        assert(components_from(directory, at) =~= seq![]);
        assert(seq![] + moved(components_from(relative, 0), by) =~= moved(
            components_from(relative, 0),
            by,
        ));
    } else {
        let rest = directory.skip(at);
        assert(rest[rest.len() - 1] == '/');
        assert(rest.contains('/'));
        text::position_is_first(rest, '/');
        position_in_front(rest, relative, '/');
        assert(whole.skip(at) =~= rest + relative);
        let end = component_end(directory, at);
        assert(component_end(whole, at) == end);
        assert(whole.subrange(at, end) =~= directory.subrange(at, end));
        components_across(directory, relative, end + 1);
        assert(counted(whole, at, end) =~= counted(directory, at, end));
        assert(components_from(whole, at) =~= components_from(directory, at) + moved(
            components_from(relative, 0),
            by,
        ));
    }
}

/// A slash at the end of a path adds no component.
proof fn components_of_directory(path: Seq<char>, at: int)
    requires
        0 <= at <= path.len(),
    ensures
        components_from(path.push('/'), at) == components_from(path, at),
    decreases path.len() + 1 - at,
{
    let directory = path.push('/');
    if at == path.len() {
        let rest = directory.skip(at);
        assert(rest[0] == '/');
        assert(component_end(directory, at) == at);
        reveal_strlit("");
        assert(directory.subrange(at, at) =~= ""@);
        assert(components_from(directory, at + 1) =~= seq![]);
        assert(components_from(directory, at) =~= seq![]);
        assert(components_from(path, at) =~= seq![]);
    } else {
        let rest = path.skip(at);
        let slash = seq!['/'];
        text::position_is_first(rest, '/');
        text::position_is_first(slash, '/');
        position_in_front(rest, slash, '/');
        assert(directory.skip(at) =~= rest + slash);
        assert(slash[0] == '/');
        let end = component_end(path, at);
        assert(component_end(directory, at) == end);
        assert(directory.subrange(at, end) =~= path.subrange(at, end));
        if end < path.len() {
            components_of_directory(path, end + 1);
        } else {
            assert(components_from(directory, end + 1) =~= seq![]);
            assert(components_from(path, end + 1) =~= seq![]);
        }
        assert(counted(directory, at, end) =~= counted(path, at, end));
        assert(components_from(directory, at) =~= components_from(path, at));
    }
}

/// What a path starts with is what it starts with as a directory.
proof fn leading_of_directory(path: Seq<char>, relative: Seq<char>)
    requires
        path.len() > 0,
    ensures
        leading(as_directory(path) + relative) == leading(path),
{
    let directory = as_directory(path);
    let whole = directory + relative;
    assert(whole[0] == path[0]);
    if path[0] != '/' {
        text::position_is_first(path.skip(0), '/');
        assert(path.skip(0) =~= path);
        assert(whole.skip(0) =~= whole);
        let end = component_end(path, 0);
        if path.contains('/') {
            position_in_front(path, whole.skip(path.len() as int), '/');
            assert(whole =~= path + whole.skip(path.len() as int));
        } else {
            let back = seq!['/'] + relative;
            assert(back[0] == '/');
            assert(text::position(back, '/') == 0);
            if path.last() == '/' {
                assert(path[path.len() - 1] == '/');
            }
            assert(whole =~= path + back);
            position_in_front(path, back, '/');
        }
        assert(component_end(whole, 0) == end);
        assert(whole.take(end) =~= path.take(end));
    }
}

/// A relative path put behind another has the components of that one, and then its
/// own, without a `.` it starts with.
pub proof fn put_behind_is_below(base: Seq<char>, relative: Seq<char>)
    requires
        base.len() > 0,
    ensures
        components(put_behind(base, relative)) == components(base) + moved(
            components_from(relative, 0),
            as_directory(base).len() as int,
        ),
        below(put_behind(base, relative), base),
{
    let directory = as_directory(base);
    let whole = directory + relative;
    let inner = moved(components_from(relative, 0), directory.len() as int);
    leading_of_directory(base, relative);
    components_across(directory, relative, 0);
    if base.last() != '/' {
        components_of_directory(base, 0);
    }
    assert(components_from(directory, 0) == components_from(base, 0));
    assert(components(whole) =~= components(base) + inner);
    components_within(base);
    let outer_texts = component_texts(base, components(base));
    let all_texts = component_texts(whole, components(whole));
    assert forall|i: int| 0 <= i < outer_texts.len() implies all_texts[i] == outer_texts[i] by {
        let span = components(base)[i];
        assert(components(whole)[i] == span);
        assert(whole.subrange(span.start, span.end) =~= base.subrange(span.start, span.end));
    }
    assert(all_texts.take(outer_texts.len() as int) =~= outer_texts);
}

/// Whether a text is one step of a path: it holds something but no slash, and is no `.`.
pub open spec fn is_step(name: Seq<char>) -> bool {
    name.len() > 0 && !name.contains('/') && name != seq!['.']
}

/// Whether some texts are steps of a path.
pub open spec fn are_steps(names: Seq<Seq<char>>) -> bool {
    forall|i: int| 0 <= i < names.len() ==> is_step(#[trigger] names[i])
}

/// What kind of component a step is.
pub open spec fn step_kind(name: Seq<char>) -> Kind {
    if name == seq!['.', '.'] {
        Kind::Parent
    } else {
        Kind::Normal
    }
}

/// A step alone is the one component of its path.
proof fn one_step(name: Seq<char>)
    requires
        is_step(name),
    ensures
        leading(name) == Seq::<Span>::empty(),
        components_from(name, 0) == seq![
            Span { kind: step_kind(name), start: 0, end: name.len() as int },
        ],
{
    reveal_strlit("");
    reveal_strlit(".");
    reveal_strlit("..");
    text::position_is_first(name.skip(0), '/');
    assert(name.skip(0) =~= name);
    let end = component_end(name, 0);
    if end < name.len() {
        assert(name[end] == '/');
        assert(name.contains(name[end]));
    }
    assert(name.subrange(0, end) =~= name);
    assert(name.take(end) =~= name);
    assert("."@ =~= seq!['.']);
    assert(".."@ =~= seq!['.', '.']);
    assert(name.contains(name[0]));
    if name == ""@ {
        assert(name.len() == 0);
    }
    assert(components_from(name, end + 1) =~= seq![]);
    assert(components_from(name, 0) =~= seq![
        Span { kind: step_kind(name), start: 0, end: name.len() as int },
    ]);
}

/// A step behind a path is one component more.
proof fn one_step_more(base: Seq<char>, last: Seq<char>)
    requires
        base.len() > 0,
        base.last() != '/',
        is_step(last),
    ensures
        ({
            let path = as_directory(base) + last;
            let list = components_from(path, 0);
            let outer = components_from(base, 0);
            &&& leading(path) == leading(base)
            &&& list.len() == outer.len() + 1
            &&& list.drop_last() == outer
            &&& list.last().kind == step_kind(last)
            &&& list.last().end == path.len()
            &&& component_texts(path, list) == component_texts(base, outer).push(last)
        }),
{
    let directory = as_directory(base);
    let path = directory + last;
    let by = directory.len() as int;
    let list = components_from(path, 0);
    let outer = components_from(base, 0);
    one_step(last);
    leading_of_directory(base, last);
    components_across(directory, last, 0);
    components_of_directory(base, 0);
    components_from_within(base, 0);
    assert(components_from(directory, 0) == outer);
    assert(list.drop_last() =~= outer);
    let texts = component_texts(path, list);
    let parts = component_texts(base, outer).push(last);
    assert forall|i: int| 0 <= i < texts.len() implies texts[i] == parts[i] by {
        if i < outer.len() {
            assert(list[i] == outer[i]);
            assert(path.subrange(outer[i].start, outer[i].end) =~= base.subrange(
                outer[i].start,
                outer[i].end,
            ));
        } else {
            assert(list[i].start == by && list[i].end == by + last.len());
            assert(path.subrange(by, by + last.len()) =~= last);
        }
    }
    assert(texts =~= parts);
}

/// Steps with slashes between them are the components of their path, in order, from its
/// start to its end.
proof fn joined_steps(names: Seq<Seq<char>>)
    requires
        are_steps(names),
        names.len() > 0,
    ensures
        ({
            let path = text::joined(names, "/"@);
            let list = components_from(path, 0);
            &&& path.len() > 0
            &&& path.last() != '/'
            &&& leading(path) == Seq::<Span>::empty()
            &&& component_texts(path, list) == names
            &&& list.len() == names.len()
            &&& forall|i: int|
                0 <= i < list.len() ==> (#[trigger] list[i]).kind == step_kind(names[i])
            &&& list[0].start == 0
            &&& list.last().end == path.len()
        }),
    decreases names.len(),
{
    let path = text::joined(names, "/"@);
    let list = components_from(path, 0);
    let last = names.last();
    let front = names.drop_last();
    assert(is_step(names[names.len() - 1]));
    assert(last.contains(last[last.len() - 1]));
    one_step(last);
    if front.len() == 0 {
        assert(path =~= last);
        assert(path.subrange(0, path.len() as int) =~= last);
        assert(component_texts(path, list) =~= names);
    } else {
        assert forall|i: int| 0 <= i < front.len() implies is_step(#[trigger] front[i]) by {
            assert(front[i] == names[i]);
        }
        joined_steps(front);
        reveal_strlit("/");
        let base = text::joined(front, "/"@);
        assert(path =~= as_directory(base) + last);
        let outer = components_from(base, 0);
        one_step_more(base, last);
        assert(list.len() == names.len());
        assert forall|i: int| 0 <= i < list.len() implies (#[trigger] list[i]).kind == step_kind(
            names[i],
        ) && component_text(path, list[i]) == names[i] by {
            if i < front.len() {
                assert(list[i] == outer[i]);
                assert(outer[i].kind == step_kind(front[i]));
                assert(component_texts(base, outer)[i] == front[i]);
                assert(component_texts(path, list)[i] == component_texts(base, outer)[i]);
            } else {
                assert(component_texts(path, list)[i] == last);
            }
        }
        assert(component_texts(path, list) =~= names);
        assert(list[0] == outer[0]);
    }
}

/// A path made of steps with slashes between them comes apart into those steps, in
/// order, `..` as the way up and anything else as a name; nothing is lost when they are
/// joined again, and the last one is the file name unless it is the way up.
pub proof fn paths_come_apart_at_slashes(names: Seq<Seq<char>>)
    requires
        are_steps(names),
        names.len() > 0,
    ensures
        ({
            let path = text::joined(names, "/"@);
            let list = components(path);
            &&& component_texts(path, list) == names
            &&& forall|i: int|
                0 <= i < list.len() ==> (#[trigger] list[i]).kind == step_kind(names[i])
            &&& slashed(path) == path
            &&& file_name(path) == if names.last() == seq!['.', '.'] {
                None
            } else {
                Some(names.last())
            }
        }),
{
    let path = text::joined(names, "/"@);
    joined_steps(names);
    assert(components(path) =~= components_from(path, 0));
    let list = components(path);
    assert(component_texts(path, list)[list.len() - 1] == names.last());
    assert(list.last() == list[list.len() - 1]);
}

/// A path that starts with a slash comes apart into the root and the steps.
pub proof fn absolute_paths_start_at_the_root(names: Seq<Seq<char>>)
    requires
        are_steps(names),
        names.len() > 0,
    ensures
        ({
            let path = seq!['/'] + text::joined(names, "/"@);
            let list = components(path);
            &&& component_texts(path, list) == seq![seq!['/']] + names
            &&& list[0].kind == Kind::Root
            &&& forall|i: int|
                0 <= i < names.len() ==> (#[trigger] list[i + 1]).kind == step_kind(names[i])
        }),
{
    let relative = text::joined(names, "/"@);
    let root = seq!['/'];
    let path = root + relative;
    let inner = components_from(relative, 0);
    let list = components(path);
    joined_steps(names);
    components_across(root, relative, 0);
    root_has_no_steps();
    assert(components_from(path, 0) =~= moved(inner, 1));
    assert(path[0] == '/');
    texts_further_along(root, relative);
    let texts = component_texts(path, list);
    assert(path.subrange(0, 1) =~= root);
    assert(texts =~= seq![root] + component_texts(path, moved(inner, 1)));
    assert(texts =~= seq![root] + names);
    assert forall|i: int| 0 <= i < names.len() implies (#[trigger] list[i + 1]).kind == step_kind(
        names[i],
    ) by {
        assert(list[i + 1] == moved(inner, 1)[i]);
        assert(inner[i].kind == step_kind(names[i]));
    }
}

/// A slash alone has no steps.
proof fn root_has_no_steps()
    ensures
        components_from(seq!['/'], 0) == Seq::<Span>::empty(),
{
    let none = Seq::<char>::empty();
    components_of_directory(none, 0);
    assert(none.push('/') =~= seq!['/']);
    assert(components_from(none, 0) =~= seq![]);
}

/// What was put behind a path is what is left of it behind that path.
pub proof fn stripping_undoes_putting_behind(base: Seq<char>, names: Seq<Seq<char>>)
    requires
        base.len() > 0,
        are_steps(names),
        names.len() > 0,
    ensures
        stripped(put_behind(base, text::joined(names, "/"@)), base) == Some(
            text::joined(names, "/"@),
        ),
{
    let relative = text::joined(names, "/"@);
    let whole = put_behind(base, relative);
    let inner = components_from(relative, 0);
    let by = as_directory(base).len() as int;
    joined_steps(names);
    put_behind_is_below(base, relative);
    let all = components(whole);
    let count = components(base).len();
    assert(all[count as int] == moved(inner, by)[0]);
    assert(all.last() == moved(inner, by).last());
    assert(whole.subrange(by, by + relative.len()) =~= relative);
}

/// A path that does not start with the components of another is not stripped of them, and
/// one that is the other leaves nothing.
pub proof fn only_what_is_below_is_stripped(path: Seq<char>, base: Seq<char>)
    ensures
        stripped(path, base) is Some <==> components(base).len() <= components(path).len()
            && forall|i: int|
            0 <= i < components(base).len() ==> #[trigger] component_text(
                base,
                components(base)[i],
            ) == component_text(path, components(path)[i]),
        path == base ==> stripped(path, base) == Some(Seq::<char>::empty()),
{
    let outer = component_texts(base, components(base));
    let inner = component_texts(path, components(path));
    if below(path, base) {
        assert forall|i: int| 0 <= i < components(base).len() implies #[trigger] component_text(
            base,
            components(base)[i],
        ) == component_text(path, components(path)[i]) by {
            assert(outer[i] == inner.take(outer.len() as int)[i]);
        }
    }
    if components(base).len() <= components(path).len() && forall|i: int|
        0 <= i < components(base).len() ==> #[trigger] component_text(base, components(base)[i])
            == component_text(path, components(path)[i]) {
        assert forall|i: int| 0 <= i < outer.len() implies outer[i] == inner[i] by {
            assert(component_text(base, components(base)[i]) == outer[i]);
        }
        assert(inner.take(outer.len() as int) =~= outer);
    }
    if path == base {
        assert(inner.take(outer.len() as int) =~= outer);
    }
}

/// A relative path is put behind another with one slash between them, whether or not the
/// other ends with one, and alone where there is no other.
pub proof fn putting_behind_keeps_both(base: Seq<char>, relative: Seq<char>)
    ensures
        base.len() == 0 ==> put_behind(base, relative) == relative,
        base.len() > 0 && base.last() == '/' ==> put_behind(base, relative) == base + relative,
        base.len() > 0 && base.last() != '/' ==> put_behind(base, relative) == base + seq!['/']
            + relative,
{
    if base.len() == 0 {
        assert(put_behind(base, relative) =~= relative);
    } else if base.last() != '/' {
        assert(put_behind(base, relative) =~= base + seq!['/'] + relative);
    }
}

/// Empty components and a `.` count for nothing, wherever they stand behind a slash.
pub proof fn idle_components_count_for_nothing(base: Seq<char>, relative: Seq<char>)
    requires
        base.len() > 0,
        base.last() == '/',
    ensures
        component_texts(base + seq!['/'] + relative, components(base + seq!['/'] + relative))
            == component_texts(base + relative, components(base + relative)),
        component_texts(
            base + seq!['.', '/'] + relative,
            components(base + seq!['.', '/'] + relative),
        ) == component_texts(base + relative, components(base + relative)),
{
    let slash = seq!['/'];
    let dot = seq!['.', '/'];
    let none = Seq::<char>::empty();
    put_behind_is_below(base, relative);
    put_behind_is_below(base, slash + relative);
    put_behind_is_below(base, dot + relative);
    assert(base + slash + relative =~= base + (slash + relative));
    assert(base + dot + relative =~= base + (dot + relative));
    components_across(slash, relative, 0);
    components_across(dot, relative, 0);
    root_has_no_steps();
    let stop = seq!['.'];
    components_of_directory(stop, 0);
    assert(stop.push('/') =~= dot);
    a_dot_alone();
    let inner = components_from(relative, 0);
    same_texts_behind(base, none, relative);
    same_texts_behind(base, slash, relative);
    same_texts_behind(base, dot, relative);
    assert(none + relative =~= relative);
    assert(base + none + relative =~= base + relative);
    assert(components_from(slash + relative, 0) =~= moved(inner, 1));
    assert(components_from(dot + relative, 0) =~= moved(inner, 2));
    assert(moved(inner, 0) =~= inner);
}

/// Components that stand further along have the same texts.
proof fn same_texts_behind(base: Seq<char>, between: Seq<char>, relative: Seq<char>)
    ensures
        components(base + between + relative) == components(base) + moved(
            moved(components_from(relative, 0), between.len() as int),
            base.len() as int,
        ) ==> component_texts(base + between + relative, components(base + between + relative))
            == component_texts(base, components(base)) + component_texts(
            relative,
            components_from(relative, 0),
        ),
{
    let whole = base + between + relative;
    let outer = components(base);
    let inner = components_from(relative, 0);
    let by = (base.len() + between.len()) as int;
    components_within(base);
    components_from_within(relative, 0);
    if components(whole) == outer + moved(moved(inner, between.len() as int), base.len() as int) {
        let all = components(whole);
        let texts = component_texts(whole, all);
        let parts = component_texts(base, outer) + component_texts(relative, inner);
        assert forall|i: int| 0 <= i < texts.len() implies texts[i] == parts[i] by {
            if i < outer.len() {
                assert(all[i] == outer[i]);
                assert(whole.subrange(outer[i].start, outer[i].end) =~= base.subrange(
                    outer[i].start,
                    outer[i].end,
                ));
            } else {
                let span = inner[i - outer.len()];
                assert(all[i].start == span.start + by && all[i].end == span.end + by);
                assert(whole.subrange(span.start + by, span.end + by) =~= relative.subrange(
                    span.start,
                    span.end,
                ));
            }
        }
        assert(texts =~= parts);
    }
}

/// A path that starts with `./` has that as its first component, before its steps.
pub proof fn a_leading_dot_is_a_component(names: Seq<Seq<char>>)
    requires
        are_steps(names),
        names.len() > 0,
    ensures
        ({
            let path = seq!['.', '/'] + text::joined(names, "/"@);
            let list = components(path);
            &&& component_texts(path, list) == seq![seq!['.']] + names
            &&& list[0].kind == Kind::Current
            &&& forall|i: int|
                0 <= i < names.len() ==> (#[trigger] list[i + 1]).kind == step_kind(names[i])
        }),
{
    let relative = text::joined(names, "/"@);
    let stop = seq!['.'];
    let path = seq!['.', '/'] + relative;
    let inner = components_from(relative, 0);
    joined_steps(names);
    put_behind_is_below(stop, relative);
    assert(as_directory(stop) =~= seq!['.', '/']);
    a_dot_alone();
    let list = components(path);
    assert(list == components(stop) + moved(inner, 2));
    texts_further_along(seq!['.', '/'], relative);
    let texts = component_texts(path, list);
    let behind = component_texts(path, moved(inner, 2));
    assert(path.subrange(0, 1) =~= stop);
    assert(texts =~= seq![stop] + behind);
    assert forall|i: int| 0 <= i < names.len() implies (#[trigger] list[i + 1]).kind == step_kind(
        names[i],
    ) by {
        assert(list[i + 1] == moved(inner, 2)[i]);
        assert(inner[i].kind == step_kind(names[i]));
    }
}

/// A `.` alone is one component, and no step.
proof fn a_dot_alone()
    ensures
        components_from(seq!['.'], 0) == Seq::<Span>::empty(),
        components(seq!['.']) == seq![Span { kind: Kind::Current, start: 0, end: 1 }],
{
    let stop = seq!['.'];
    reveal_strlit(".");
    text::position_is_first(stop.skip(0), '/');
    assert(stop.skip(0) =~= stop);
    if component_end(stop, 0) < 1 {
        assert(stop[0] == '/');
    }
    assert(stop.take(1) =~= "."@);
    assert(stop.subrange(0, 1) =~= "."@);
    assert(components_from(stop, 2) =~= seq![]);
    assert(components_from(stop, 0) =~= seq![]);
    assert(components(stop) =~= seq![Span { kind: Kind::Current, start: 0, end: 1 }]);
}

/// The components of a path keep their texts behind another.
proof fn texts_further_along(front: Seq<char>, relative: Seq<char>)
    ensures
        component_texts(
            front + relative,
            moved(components_from(relative, 0), front.len() as int),
        ) == component_texts(relative, components_from(relative, 0)),
{
    let inner = components_from(relative, 0);
    let by = front.len() as int;
    let path = front + relative;
    components_from_within(relative, 0);
    let texts = component_texts(path, moved(inner, by));
    let own = component_texts(relative, inner);
    assert forall|i: int| 0 <= i < texts.len() implies texts[i] == own[i] by {
        let span = inner[i];
        assert(path.subrange(span.start + by, span.end + by) =~= relative.subrange(
            span.start,
            span.end,
        ));
    }
    assert(texts =~= own);
}

/// Taking a path apart, naming its file, joining its components and stripping it of
/// another all go by its components.
pub proof fn paths_are_handled_by_components(
    path: &str,
    base: &str,
    name: Option<String>,
    joined: String,
    rest: Option<String>,
    together: String,
)
    requires
        call_ensures(file_name_of, (path,), name),
        call_ensures(with_slashes, (path,), joined),
        call_ensures(strip_prefix, (path, base), rest),
        call_ensures(put_together, (base, path), together),
    ensures
        name is Some <==> components(path@).len() > 0 && components(path@).last().kind
            == Kind::Normal,
        name matches Some(found) ==> found@ == component_text(path@, components(path@).last()),
        joined@ == text::joined(component_texts(path@, components(path@)), seq!['/']),
        rest is Some <==> components(base@).len() <= components(path@).len() && forall|i: int|
            0 <= i < components(base@).len() ==> #[trigger] component_text(
                base@,
                components(base@)[i],
            ) == component_text(path@, components(path@)[i]),
        base@.len() > 0 && base@.last() != '/' ==> together@ == base@ + seq!['/'] + path@,
        base@.len() == 0 ==> together@ == path@,
        base@.len() > 0 && base@.last() == '/' ==> together@ == base@ + path@,
{
    reveal_strlit("/");
    assert("/"@ =~= seq!['/']);
    only_what_is_below_is_stripped(path@, base@);
    putting_behind_keeps_both(base@, path@);
}

} // verus!
