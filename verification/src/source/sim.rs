//! Filesystem-backed container reading.
//!
//! A [`Container`] is just a root directory. Discovery is what produces that root;
//! nothing in this module knows how it was found. The directory itself is read by
//! the caller, who reports what it saw; this module says what to make of it.

use vstd::prelude::*;
use crate::clock;
use crate::clock::format_local;
use crate::order;
use crate::path;
use crate::path::{file_name_of, pieces_of, put_together, strip_prefix, Kind};
use crate::text;
use crate::text::chars_of;

verus! {

/// What a directory entry is.
#[derive(Debug, Clone, Copy, PartialEq, Eq, Structural)]
pub enum EntryKind {
    /// A directory.
    Dir,
    /// A regular file.
    File,
    /// A symlink, which is reported but never followed.
    Symlink,
    /// A socket, fifo, or device node.
    Other,
    /// An entry that could not be read; see [`Entry::error`].
    Unreadable,
}

/// One entry in a container's tree.
#[derive(Debug)]
pub struct Entry {
    /// Path relative to the walk's starting directory.
    pub path: String,
    /// Depth below the starting directory; its immediate children are 1.
    pub depth: usize,
    /// What this entry is.
    pub kind: EntryKind,
    /// Size in bytes. Always 0 for directories.
    pub size: u64,
    /// Last modification time in whole seconds since the start of 1970, absent when
    /// the filesystem did not report one.
    pub modified: Option<i64>,
    /// Why this entry could not be read, when `kind` is [`EntryKind::Unreadable`].
    pub error: Option<String>,
}

/// What an [`Entry`] holds.
pub struct EntryModel {
    /// Path relative to the walk's starting directory.
    pub path: Seq<char>,
    /// Depth below the starting directory.
    pub depth: usize,
    /// What the entry is.
    pub kind: EntryKind,
    /// Size in bytes.
    pub size: u64,
    /// Last modification time in whole seconds since the start of 1970.
    pub modified: Option<i64>,
    /// Why the entry could not be read.
    pub error: Option<Seq<char>>,
}

impl View for Entry {
    type V = EntryModel;

    open spec fn view(&self) -> EntryModel {
        EntryModel {
            path: self.path@,
            depth: self.depth,
            kind: self.kind,
            size: self.size,
            modified: self.modified,
            error: match self.error {
                Some(error) => Some(error@),
                None => None,
            },
        }
    }
}

impl Entry {
    /// The final path component, as shown in a tree.
    pub fn name(&self) -> (name: String)
        ensures
            name@ == match path::file_name(self.path@) {
                Some(found) => found,
                None => self.path@,
            },
    {
        match file_name_of(self.path.as_str()) {
            Some(name) => name,
            None => self.path.clone(),
        }
    }
}

/// How to traverse a container.
#[derive(Debug, Clone, Copy)]
pub struct WalkOptions {
    /// Maximum depth below the starting directory; `None` walks the whole tree.
    pub max_depth: Option<usize>,
    /// Include entries whose name begins with a dot.
    pub all: bool,
}

impl Default for WalkOptions {
    /// The whole tree, without entries whose name begins with a dot.
    fn default() -> (options: Self)
        ensures
            options.max_depth is None,
            !options.all,
    {
        WalkOptions { max_depth: None, all: false }
    }
}

impl WalkOptions {
    /// Whether a walk goes down to this depth.
    pub open spec fn deep_enough(self, depth: usize) -> bool {
        self.max_depth matches Some(most) ==> depth <= most
    }

    /// Whether a walk lists the entry at this depth and at this path, taken relative
    /// to where the walk starts.
    pub open spec fn lists(self, depth: usize, path: Seq<char>) -> bool {
        self.deep_enough(depth) && (self.all || !within_hidden(path))
    }

    /// Whether a walk from `start` lists what was seen. A failure has no name to be
    /// hidden by.
    pub open spec fn keeps(self, start: Seq<char>, seen: Seen) -> bool {
        match seen {
            Seen::Entry { path, depth, .. } => self.lists(depth, relative_to(path@, start)),
            Seen::Failure { depth, .. } => self.deep_enough(depth),
        }
    }

    /// Whether a walk from `start` lists what was seen: an entry that lies no deeper
    /// than the walk goes, and neither has a name beginning with a dot nor lies in a
    /// directory below `start` that has, unless such names are included.
    pub fn listed(&self, start: &str, seen: &Seen) -> (yes: bool)
        ensures
            yes == self.keeps(start@, *seen),
    {
        match seen {
            Seen::Entry { path, depth, .. } => {
                let shown = match strip_prefix(path.as_str(), start) {
                    Some(rest) => rest,
                    None => path.clone(),
                };
                self.reaches(*depth) && (self.all || !is_within_hidden(shown.as_str()))
            },
            Seen::Failure { depth, .. } => self.reaches(*depth),
        }
    }

    /// Whether an entry of this name is part of the walk. A directory that is not
    /// takes everything below it along.
    pub fn shows(&self, name: &str) -> (shown: bool)
        ensures
            shown == (self.all || !hidden(name@)),
    {
        self.all || !is_hidden(name)
    }

    /// Whether an entry at this depth is part of the walk.
    pub fn reaches(&self, depth: usize) -> (yes: bool)
        ensures
            yes == self.deep_enough(depth),
    {
        match self.max_depth {
            Some(most) => depth <= most,
            None => true,
        }
    }
}

/// Whether a filename begins with a dot.
pub open spec fn hidden(name: Seq<char>) -> bool {
    name.len() > 0 && name[0] == '.'
}

/// Whether a filename begins with a dot.
pub fn is_hidden(name: &str) -> (yes: bool)
    ensures
        yes == hidden(name@),
{
    let chars = chars_of(name);
    chars.len() > 0 && chars[0] == '.'
}

/// Whether a component of a path begins with a dot.
pub open spec fn within_hidden(path: Seq<char>) -> bool {
    exists|i: int|
        0 <= i < path::components(path).len() && hidden(
            #[trigger] path::component_text(path, path::components(path)[i]),
        )
}

/// Whether a component of a path begins with a dot.
pub fn is_within_hidden(text: &str) -> (yes: bool)
    ensures
        yes == within_hidden(text@),
{
    let chars = chars_of(text);
    let pieces = pieces_of(&chars);
    let ghost all = path::components(text@);
    let mut i: usize = 0;
    while i < pieces.len()
        invariant
            i <= pieces@.len(),
            chars@ == text@,
            path::spans(pieces@) == all,
            all == path::components(text@),
            path::within(text@, all),
            forall|k: int| 0 <= k < i ==> !hidden(#[trigger] path::component_text(text@, all[k])),
        decreases pieces@.len() - i,
    {
        assert(all[i as int] == pieces@[i as int]@);
        let start: usize = pieces[i].start;
        let end: usize = pieces[i].end;
        let ghost name = path::component_text(text@, all[i as int]);
        assert(name.len() == end - start);
        if start < end && chars[start] == '.' {
            assert(name[0] == text@[start as int]);
            return true;
        }
        assert(start < end ==> name[0] == text@[start as int]);
        i += 1;
    }
    false
}

/// What is known of a file beside its type.
#[derive(Debug)]
pub struct Metadata {
    /// Size in bytes, as the filesystem reports it.
    pub len: u64,
    /// Last modification time in whole seconds since the start of 1970.
    pub modified: Option<i64>,
}

/// What a walk came by.
#[derive(Debug)]
pub enum Seen {
    /// An entry of a directory.
    Entry {
        /// The path of the entry.
        path: String,
        /// Depth below the starting directory.
        depth: usize,
        /// Whether it is a symlink.
        is_symlink: bool,
        /// Whether it is a directory.
        is_dir: bool,
        /// Whether it is a regular file.
        is_file: bool,
        /// What else is known of it, or why nothing is.
        metadata: Result<Metadata, String>,
    },
    /// A directory or an entry that could not be read.
    Failure {
        /// The path that could not be read, if it is known.
        place: Option<String>,
        /// Depth below the starting directory.
        depth: usize,
        /// Why it could not be read.
        message: String,
    },
}

/// What an entry is by its type.
pub open spec fn kind_of(is_symlink: bool, is_dir: bool, is_file: bool) -> EntryKind {
    if is_symlink {
        EntryKind::Symlink
    } else if is_dir {
        EntryKind::Dir
    } else if is_file {
        EntryKind::File
    } else {
        EntryKind::Other
    }
}

/// A path relative to `start`, or as it is where it does not lie below.
pub open spec fn relative_to(path: Seq<char>, start: Seq<char>) -> Seq<char> {
    match path::stripped(path, start) {
        Some(rest) => rest,
        None => path,
    }
}

/// The entry for what a walk from `start` came by.
pub open spec fn description(start: Seq<char>, seen: Seen) -> EntryModel {
    match seen {
        Seen::Entry { path, depth, is_symlink, is_dir, is_file, metadata } => match metadata {
            Ok(known) => EntryModel {
                path: relative_to(path@, start),
                depth,
                kind: kind_of(is_symlink, is_dir, is_file),
                size: if kind_of(is_symlink, is_dir, is_file) == EntryKind::Dir {
                    0
                } else {
                    known.len
                },
                modified: known.modified,
                error: None,
            },
            Err(message) => unreadable(relative_to(path@, start), depth, message@),
        },
        Seen::Failure { place, depth, message } => unreadable(
            match place {
                Some(known) => match path::stripped(known@, start) {
                    Some(rest) => rest,
                    None => seq![],
                },
                None => seq![],
            },
            depth,
            message@,
        ),
    }
}

/// The entry for something that could not be read.
pub open spec fn unreadable(path: Seq<char>, depth: usize, message: Seq<char>) -> EntryModel {
    EntryModel {
        path,
        depth,
        kind: EntryKind::Unreadable,
        size: 0,
        modified: None,
        error: Some(message),
    }
}

/// The entries of a walk from `start`, in the order that things were seen in.
pub open spec fn listing(start: Seq<char>, options: WalkOptions, seen: Seq<Seen>) -> Seq<
    EntryModel,
> {
    seen.filter(|one: Seen| options.keeps(start, one)).map_values(
        |one: Seen| description(start, one),
    )
}

/// Why a path within a container was refused.
#[derive(Debug)]
pub enum ResolveError {
    /// The path has a `..` component.
    Escapes(String),
    /// The path is absolute.
    Absolute(String),
}

impl ResolveError {
    /// What the error says.
    pub open spec fn said(self) -> Seq<char> {
        match self {
            ResolveError::Escapes(path) => "path `"@ + path@ + "` escapes the container"@,
            ResolveError::Absolute(path) => "path `"@ + path@
                + "` must be relative to the container"@,
        }
    }

    /// The error in words.
    pub fn message(&self) -> (text: String)
        ensures
            text@ == self.said(),
    {
        let mut text = "path `".to_string();
        match self {
            ResolveError::Escapes(path) => {
                text.push_str(path.as_str());
                text.push_str("` escapes the container");
            },
            ResolveError::Absolute(path) => {
                text.push_str(path.as_str());
                text.push_str("` must be relative to the container");
            },
        }
        text
    }
}

/// Why a container was not walked.
#[derive(Debug)]
pub enum WalkError {
    /// The starting path does not exist.
    Missing(String),
}

impl WalkError {
    /// What the error says.
    pub open spec fn said(self) -> Seq<char> {
        match self {
            WalkError::Missing(path) => "`"@ + path@ + "` does not exist in this container"@,
        }
    }

    /// The error in words.
    pub fn message(&self) -> (text: String)
        ensures
            text@ == self.said(),
    {
        match self {
            WalkError::Missing(path) => {
                let mut text = "`".to_string();
                text.push_str(path.as_str());
                text.push_str("` does not exist in this container");
                text
            },
        }
    }
}

/// Whether a path is absolute.
pub open spec fn absolute(path: Seq<char>) -> bool {
    path.len() > 0 && path[0] == '/'
}

/// Whether a path has a `..` component.
pub open spec fn climbs(path: Seq<char>) -> bool {
    exists|i: int|
        0 <= i < path::components(path).len() && (#[trigger] path::components(path)[i]).kind
            == Kind::Parent
}

/// A container on the local filesystem.
#[derive(Debug)]
pub struct Container {
    root: String,
}

impl View for Container {
    type V = Seq<char>;

    /// The container's root directory.
    closed spec fn view(&self) -> Seq<char> {
        self.root@
    }
}

impl Container {
    /// Wraps a container root directory.
    pub fn new(root: String) -> (container: Self)
        ensures
            container@ == root@,
    {
        Container { root }
    }

    /// The container's root directory.
    pub fn root(&self) -> (root: &str)
        ensures
            root@ == self@,
    {
        self.root.as_str()
    }

    /// Resolves a caller-supplied relative path against the container root.
    ///
    /// Rejects absolute paths and any `..` component, so a path argument cannot
    /// walk out of the container it names.
    pub fn resolve(&self, relative: Option<&str>) -> (resolved: Result<String, ResolveError>)
        ensures
            match relative {
                None => resolved matches Ok(path) && path@ == self@,
                Some(text) => if absolute(text@) {
                    resolved matches Err(ResolveError::Absolute(path)) && path@ == text@
                } else if climbs(text@) {
                    resolved matches Err(ResolveError::Escapes(path)) && path@ == text@
                } else {
                    resolved matches Ok(path) && path@ == path::put_behind(self@, text@)
                },
            },
    {
        match relative {
            None => Ok(self.root.clone()),
            Some(text) => {
                let chars = chars_of(text);
                let pieces = pieces_of(&chars);
                let ghost all = path::components(text@);
                proof {
                    kinds_of_components(text@);
                }
                let mut i: usize = 0;
                while i < pieces.len()
                    invariant
                        i <= pieces@.len(),
                        relative == Some(text),
                        path::spans(pieces@) == all,
                        all == path::components(text@),
                        forall|k: int|
                            0 <= k < all.len() ==> ((#[trigger] all[k]).kind == Kind::Root <==> (k
                                == 0 && absolute(text@))),
                        i > 0 ==> !absolute(text@),
                        forall|k: int| 0 <= k < i ==> (#[trigger] all[k]).kind != Kind::Parent,
                    decreases pieces@.len() - i,
                {
                    assert(all[i as int] == pieces@[i as int]@);
                    match pieces[i].kind {
                        Kind::Normal => {},
                        Kind::Current => {},
                        Kind::Parent => {
                            return Err(ResolveError::Escapes(text.to_string()));
                        },
                        Kind::Root => {
                            return Err(ResolveError::Absolute(text.to_string()));
                        },
                    }
                    i += 1;
                }
                Ok(put_together(self.root.as_str(), text))
            },
        }
    }

    /// What a walk beneath `start` lists, in the order it was seen in.
    ///
    /// Entries that could not be read become [`EntryKind::Unreadable`] rows rather
    /// than aborting the walk — a single permission-denied directory should not
    /// cost you the rest of the listing. Only a starting path that does not exist
    /// is an error.
    pub fn walk(
        &self,
        start: &str,
        options: &WalkOptions,
        exists: bool,
        seen: &Vec<Seen>,
    ) -> (walked: Result<Vec<Entry>, WalkError>)
        ensures
            walked is Ok <==> exists,
            walked matches Ok(entries) ==> order::views(entries@) == listing(
                start@,
                *options,
                seen@,
            ),
            walked matches Err(WalkError::Missing(path)) ==> path@ == relative_to(start@, self@),
    {
        if !exists {
            return Err(WalkError::Missing(self.display(start)));
        }
        let mut entries: Vec<Entry> = Vec::new();
        let mut i: usize = 0;
        proof {
            reveal(Seq::filter);
            assert(seen@.take(0).len() == 0);
            assert(order::views(entries@) =~= listing(start@, *options, seen@.take(0)));
        }
        while i < seen.len()
            invariant
                i <= seen@.len(),
                order::views(entries@) == listing(start@, *options, seen@.take(i as int)),
            decreases seen@.len() - i,
        {
            proof {
                listing_grows(start@, *options, seen@.take(i as int), seen@[i as int]);
                assert(seen@.take(i as int).push(seen@[i as int]) =~= seen@.take(i + 1));
            }
            if options.listed(start, &seen[i]) {
                let ghost before = entries@;
                let entry = Self::describe(start, &seen[i]);
                entries.push(entry);
                assert(order::views(entries@) =~= order::views(before).push(entry@));
            }
            i += 1;
        }
        assert(seen@.take(i as int) =~= seen@);
        Ok(entries)
    }

    /// Renders a path for messages, relative to the container root where possible.
    pub fn display(&self, path: &str) -> (shown: String)
        ensures
            shown@ == relative_to(path@, self@),
    {
        match strip_prefix(path, self.root.as_str()) {
            Some(rest) => rest,
            None => path.to_string(),
        }
    }

    /// Turns what a walk came by into an [`Entry`], recording failures inline.
    pub fn describe(start: &str, seen: &Seen) -> (entry: Entry)
        ensures
            entry@ == description(start@, *seen),
    {
        match seen {
            Seen::Entry { path, depth, is_symlink, is_dir, is_file, metadata } => {
                let shown = match strip_prefix(path.as_str(), start) {
                    Some(rest) => rest,
                    None => path.clone(),
                };
                let kind = if *is_symlink {
                    EntryKind::Symlink
                } else if *is_dir {
                    EntryKind::Dir
                } else if *is_file {
                    EntryKind::File
                } else {
                    EntryKind::Other
                };
                match metadata {
                    Ok(known) => Entry {
                        path: shown,
                        depth: *depth,
                        kind,
                        size: if kind == EntryKind::Dir {
                            0
                        } else {
                            known.len
                        },
                        modified: known.modified,
                        error: None,
                    },
                    Err(message) => Entry {
                        path: shown,
                        depth: *depth,
                        kind: EntryKind::Unreadable,
                        size: 0,
                        modified: None,
                        error: Some(message.clone()),
                    },
                }
            },
            Seen::Failure { place, depth, message } => {
                let shown = match place {
                    Some(known) => match strip_prefix(known.as_str(), start) {
                        Some(rest) => rest,
                        None => String::new(),
                    },
                    None => String::new(),
                };
                assert(Seq::<char>::empty() =~= seq![]);
                Entry {
                    path: shown,
                    depth: *depth,
                    kind: EntryKind::Unreadable,
                    size: 0,
                    modified: None,
                    error: Some(message.clone()),
                }
            },
        }
    }
}

/// A timestamp as RFC 3339, rather than a number that no consumer of `--json` would
/// want to handle.
pub fn serialize_timestamp(time: Option<i64>) -> (text: Option<String>)
    requires
        time matches Some(seconds) ==> clock::writable(seconds),
    ensures
        match (time, text) {
            (Some(seconds), Some(written)) => clock::written(seconds, written@),
            (None, None) => true,
            _ => false,
        },
{
    match time {
        Some(seconds) => Some(format_local(seconds)),
        None => None,
    }
}

// ---------------------------------------------------------------------------
// Laws
// ---------------------------------------------------------------------------

/// One thing more that was seen adds its entry at the end, or nothing.
proof fn listing_grows(start: Seq<char>, options: WalkOptions, seen: Seq<Seen>, one: Seen)
    ensures
        listing(start, options, seen.push(one)) == if options.keeps(start, one) {
            listing(start, options, seen).push(description(start, one))
        } else {
            listing(start, options, seen)
        },
{
    reveal(Seq::filter);
    assert(seen.push(one).drop_last() =~= seen);
    assert(listing(start, options, seen.push(one)) =~= if options.keeps(start, one) {
        listing(start, options, seen).push(description(start, one))
    } else {
        listing(start, options, seen)
    });
}

/// Where everything below `start` could be read, a walk lists what a walk of the
/// whole tree lists, in the same order, but for the entries that lie too deep or
/// have a component beginning with a dot. Only components below `start` count: a dot
/// in the name of `start` itself hides nothing.
pub proof fn a_walk_is_the_whole_walk_filtered(
    start: Seq<char>,
    options: WalkOptions,
    seen: Seq<Seen>,
)
    requires
        forall|i: int| 0 <= i < seen.len() ==> #[trigger] seen[i] is Entry,
    ensures
        listing(start, options, seen) == listing(
            start,
            WalkOptions { max_depth: None, all: true },
            seen,
        ).filter(|entry: EntryModel| options.lists(entry.depth, entry.path)),
        listing(start, WalkOptions { max_depth: None, all: true }, seen).len() == seen.len(),
    decreases seen.len(),
{
    let whole = WalkOptions { max_depth: None, all: true };
    let kept = |entry: EntryModel| options.lists(entry.depth, entry.path);
    reveal(Seq::filter);
    if seen.len() == 0 {
        assert(listing(start, whole, seen) =~= seq![]);
        assert(listing(start, options, seen) =~= listing(start, whole, seen).filter(kept));
    } else {
        let front = seen.drop_last();
        let last = seen.last();
        assert(seen[seen.len() - 1] is Entry);
        assert forall|i: int| 0 <= i < front.len() implies #[trigger] front[i] is Entry by {
            assert(front[i] == seen[i]);
        }
        a_walk_is_the_whole_walk_filtered(start, options, front);
        assert(front.push(last) =~= seen);
        listing_grows(start, options, front, last);
        listing_grows(start, whole, front, last);
        let all = listing(start, whole, front);
        assert(all.push(description(start, last)).drop_last() =~= all);
    }
}

/// What lies in a directory beginning with a dot is hidden along with it.
pub proof fn hidden_directories_hide_their_contents(path: Seq<char>, name: Seq<char>)
    requires
        path.len() > 0,
        !absolute(name),
        within_hidden(path),
    ensures
        within_hidden(path::put_behind(path, name)),
{
    path::put_behind_is_below(path, name);
    let i = choose|i: int|
        0 <= i < path::components(path).len() && hidden(
            #[trigger] path::component_text(path, path::components(path)[i]),
        );
    let whole = path::put_behind(path, name);
    assert(path::component_texts(path, path::components(path))[i] == path::component_text(
        path,
        path::components(path)[i],
    ));
    assert(path::component_texts(whole, path::components(whole))[i] == path::component_text(
        whole,
        path::components(whole)[i],
    ));
}

/// Behind its start, a path has only names and `..` as components.
proof fn kinds_from(path: Seq<char>, at: int)
    requires
        0 <= at,
    ensures
        forall|i: int|
            0 <= i < path::components_from(path, at).len() ==> {
                ||| (#[trigger] path::components_from(path, at)[i]).kind == Kind::Normal
                ||| path::components_from(path, at)[i].kind == Kind::Parent
            },
    decreases path.len() + 1 - at,
{
    if at < path.len() {
        let end = path::component_end(path, at);
        text::position_is_first(path.skip(at), '/');
        kinds_from(path, end + 1);
    }
}

/// The root is a component of absolute paths only, and only their first.
proof fn kinds_of_components(path: Seq<char>)
    ensures
        forall|i: int|
            0 <= i < path::components(path).len() ==> ((#[trigger] path::components(path)[i]).kind
                == Kind::Root <==> (i == 0 && absolute(path))),
        absolute(path) ==> path::components(path).len() > 0,
{
    kinds_from(path, 0);
}

/// A resolved path stays inside the container: the components of the root come
/// first, and behind them there are only names, with no `..` to climb back out.
pub proof fn resolved_stays_inside(root: Seq<char>, relative: Seq<char>)
    requires
        root.len() > 0,
        !absolute(relative),
        !climbs(relative),
    ensures
        path::below(path::put_behind(root, relative), root),
        forall|i: int|
            path::components(root).len() <= i < path::components(
                path::put_behind(root, relative),
            ).len() ==> (#[trigger] path::components(path::put_behind(root, relative))[i]).kind
                == Kind::Normal,
{
    path::put_behind_is_below(root, relative);
    kinds_from(relative, 0);
    let whole = path::put_behind(root, relative);
    let outer = path::components(root).len();
    let first = path::leading(relative).len();
    let inner = path::components_from(relative, 0);
    assert forall|i: int| outer <= i < path::components(whole).len() implies (
    #[trigger] path::components(whole)[i]).kind == Kind::Normal by {
        let k = i - outer;
        assert(path::components(relative)[first + k] == inner[k]);
        assert(path::components(whole)[i].kind == inner[k].kind);
    }
}

/// Without a path, a container resolves to its root. An absolute path is refused as one,
/// and a path of names that goes up somewhere is refused for that, each with the path as
/// it was given.
pub proof fn ways_out_are_refused(
    container: &Container,
    relative: &str,
    names: Seq<Seq<char>>,
    resolved: Result<String, ResolveError>,
    whole: Result<String, ResolveError>,
)
    requires
        call_ensures(Container::resolve, (container, Some(relative)), resolved),
        call_ensures(Container::resolve, (container, None::<&str>), whole),
        path::are_steps(names),
        names.len() > 0,
    ensures
        whole matches Ok(path) && path@ == container@,
        relative@.len() > 0 && relative@[0] == '/' ==> (resolved matches Err(
            ResolveError::Absolute(path),
        ) && path@ == relative@),
        relative@ == text::joined(names, "/"@) && names.contains(seq!['.', '.']) ==> (
        resolved matches Err(ResolveError::Escapes(path)) && path@ == relative@),
{
    if relative@ == text::joined(names, "/"@) {
        steps_are_relative(names);
        if names.contains(seq!['.', '.']) {
            let i = choose|i: int| 0 <= i < names.len() && names[i] == seq!['.', '.'];
            assert(path::components(relative@)[i].kind == Kind::Parent);
        }
    }
}

/// A path of steps is not absolute and goes up exactly where one of them is `..`.
proof fn steps_are_relative(names: Seq<Seq<char>>)
    requires
        path::are_steps(names),
        names.len() > 0,
    ensures
        ({
            let relative = text::joined(names, "/"@);
            let list = path::components(relative);
            &&& !absolute(relative)
            &&& list.len() == names.len()
            &&& forall|i: int|
                0 <= i < list.len() ==> {
                    &&& (#[trigger] list[i]).kind == path::step_kind(names[i])
                    &&& path::component_text(relative, list[i]) == names[i]
                }
        }),
{
    let relative = text::joined(names, "/"@);
    let list = path::components(relative);
    path::paths_come_apart_at_slashes(names);
    kinds_of_components(relative);
    let texts = path::component_texts(relative, list);
    assert(texts.len() == list.len());
    assert forall|i: int| 0 <= i < list.len() implies {
        &&& (#[trigger] list[i]).kind == path::step_kind(names[i])
        &&& path::component_text(relative, list[i]) == names[i]
    } by {
        assert(texts[i] == names[i]);
    }
    if absolute(relative) {
        assert(list[0].kind == Kind::Root);
        assert(list[0].kind == path::step_kind(names[0]));
    }
}

/// A path of names resolves to the root, a slash and the path, which displays as the path
/// that was asked for.
pub proof fn names_resolve_below_the_root(
    container: &Container,
    relative: &str,
    names: Seq<Seq<char>>,
    resolved: Result<String, ResolveError>,
)
    requires
        call_ensures(Container::resolve, (container, Some(relative)), resolved),
        path::are_steps(names),
        names.len() > 0,
        !names.contains(seq!['.', '.']),
        relative@ == text::joined(names, "/"@),
        container@.len() > 0,
    ensures
        resolved matches Ok(path) && {
            &&& container@.last() != '/' ==> path@ == container@ + seq!['/'] + relative@
            &&& container@.last() == '/' ==> path@ == container@ + relative@
            &&& relative_to(path@, container@) == relative@
        },
{
    steps_are_relative(names);
    if climbs(relative@) {
        let list = path::components(relative@);
        let i = choose|i: int| 0 <= i < list.len() && (#[trigger] list[i]).kind == Kind::Parent;
        assert(names[i] == seq!['.', '.']);
    }
    path::putting_behind_keeps_both(container@, relative@);
    path::stripping_undoes_putting_behind(container@, names);
}

/// An entry is listed exactly where it lies no deeper than the walk goes, and no name on
/// the way to it from where the walk starts begins with a dot, or such names are wanted.
pub proof fn dots_and_depth_decide(
    options: &WalkOptions,
    start: &str,
    seen: &Seen,
    names: Seq<Seq<char>>,
    listed: bool,
)
    requires
        call_ensures(WalkOptions::listed, (options, start, seen), listed),
        *seen is Entry,
        start@.len() > 0,
        path::are_steps(names),
        names.len() > 0,
        (*seen)->Entry_path@ == path::put_behind(start@, text::joined(names, "/"@)),
    ensures
        listed <==> {
            &&& options.max_depth is None || (*seen)->Entry_depth <= options.max_depth->0
            &&& options.all || forall|i: int|
                0 <= i < names.len() ==> (#[trigger] names[i])[0] != '.'
        },
{
    let relative = text::joined(names, "/"@);
    let list = path::components(relative);
    path::stripping_undoes_putting_behind(start@, names);
    steps_are_relative(names);
    if within_hidden(relative) {
        let i = choose|i: int|
            0 <= i < list.len() && hidden(#[trigger] path::component_text(relative, list[i]));
        assert(names[i][0] == '.');
    } else {
        assert forall|i: int| 0 <= i < names.len() implies (#[trigger] names[i])[0] != '.' by {
            assert(path::is_step(names[i]));
            assert(!hidden(path::component_text(relative, list[i])));
        }
    }
}

/// What could not be read is listed exactly where it lies no deeper than the walk goes.
pub proof fn depth_decides_on_failures(
    options: &WalkOptions,
    start: &str,
    seen: &Seen,
    listed: bool,
)
    requires
        call_ensures(WalkOptions::listed, (options, start, seen), listed),
        *seen is Failure,
    ensures
        listed <==> options.max_depth is None || (*seen)->Failure_depth <= options.max_depth->0,
{
}

/// An entry is described as what it is, by the names on the way to it from where the walk
/// starts: a link before anything else, then a directory, which counts for no bytes,
/// then a file with its size, and with its time. One of which nothing more is known is
/// described as unreadable, with the reason.
pub proof fn entries_are_described_as_they_are(
    start: &str,
    seen: &Seen,
    names: Seq<Seq<char>>,
    entry: Entry,
)
    requires
        call_ensures(Container::describe, (start, seen), entry),
        *seen is Entry,
        start@.len() > 0,
        path::are_steps(names),
        names.len() > 0,
        (*seen)->Entry_path@ == path::put_behind(start@, text::joined(names, "/"@)),
    ensures
        entry.path@ == text::joined(names, "/"@),
        entry.depth == (*seen)->Entry_depth,
        (*seen)->Entry_metadata matches Ok(known) ==> {
            &&& entry.kind == EntryKind::Symlink <==> (*seen)->is_symlink
            &&& entry.kind == EntryKind::Dir <==> !(*seen)->is_symlink && (*seen)->is_dir
            &&& entry.kind == EntryKind::File <==> !(*seen)->is_symlink && !(*seen)->is_dir
                && (*seen)->is_file
            &&& entry.kind != EntryKind::Unreadable
            &&& entry.size == if entry.kind == EntryKind::Dir {
                0
            } else {
                known.len
            }
            &&& entry.modified == known.modified
            &&& entry.error is None
        },
        (*seen)->Entry_metadata matches Err(message) ==> {
            &&& entry.kind == EntryKind::Unreadable
            &&& entry.size == 0
            &&& entry.modified is None
            &&& entry.error matches Some(error) && error@ == message@
        },
{
    path::stripping_undoes_putting_behind(start@, names);
    assert(entry@ == description(start@, *seen));
    assert(entry@.path == entry.path@ && entry@.kind == entry.kind && entry@.size == entry.size);
    assert(entry@.error == match entry.error {
        Some(error) => Some(error@),
        None => None,
    });
}

/// What could not be read is described as unreadable, at its place where it is known and
/// lies below the start, with the reason.
pub proof fn failures_are_described_with_the_reason(start: &str, seen: &Seen, entry: Entry)
    requires
        call_ensures(Container::describe, (start, seen), entry),
        *seen is Failure,
    ensures
        entry.depth == (*seen)->Failure_depth,
        entry.kind == EntryKind::Unreadable,
        entry.size == 0,
        entry.modified is None,
        entry.error matches Some(error) && error@ == (*seen)->message@,
        (*seen)->place is None ==> entry.path@.len() == 0,
        (*seen)->place matches Some(place) ==> (path::stripped(place@, start@) matches Some(rest)
            ==> entry.path@ == rest),
        (*seen)->place matches Some(place) ==> path::stripped(place@, start@) is None
            ==> entry.path@.len() == 0,
{
    assert(entry@ == description(start@, *seen));
    assert(entry@.path == entry.path@ && entry@.kind == entry.kind && entry@.size == entry.size);
    assert(entry@.error == match entry.error {
        Some(error) => Some(error@),
        None => None,
    });
}

/// What was seen in two parts is listed part after part.
pub proof fn walks_list_in_order(
    start: Seq<char>,
    options: WalkOptions,
    first: Seq<Seen>,
    second: Seq<Seen>,
)
    ensures
        listing(start, options, first + second) == listing(start, options, first) + listing(
            start,
            options,
            second,
        ),
    decreases second.len(),
{
    if second.len() == 0 {
        reveal(Seq::filter);
        assert(first + second =~= first);
        assert(listing(start, options, second) =~= seq![]);
        assert(listing(start, options, first) + seq![] =~= listing(start, options, first));
    } else {
        let front = second.drop_last();
        let last = second.last();
        walks_list_in_order(start, options, first, front);
        listing_grows(start, options, front, last);
        listing_grows(start, options, first + front, last);
        assert(front.push(last) =~= second);
        assert((first + front).push(last) =~= first + second);
        assert(listing(start, options, first + second) =~= listing(start, options, first)
            + listing(start, options, second));
    }
}

/// One thing seen is one entry, its description, or none.
pub proof fn one_thing_is_one_entry(
    start: &str,
    options: &WalkOptions,
    seen: &Seen,
    listed: bool,
    entry: Entry,
)
    requires
        call_ensures(WalkOptions::listed, (options, start, seen), listed),
        call_ensures(Container::describe, (start, seen), entry),
    ensures
        listing(start@, *options, seq![*seen]) == if listed {
            seq![entry@]
        } else {
            Seq::empty()
        },
{
    reveal(Seq::filter);
    let none = Seq::<Seen>::empty();
    listing_grows(start@, *options, none, *seen);
    assert(none.push(*seen) =~= seq![*seen]);
    assert(listing(start@, *options, none) =~= seq![]);
    assert(listing(start@, *options, seq![*seen]) =~= if listed {
        seq![entry@]
    } else {
        Seq::empty()
    });
}

/// A walk lists what was seen as it is described, in order, and fails only where its
/// start does not exist, which it names relative to the root.
pub proof fn a_walk_lists_what_was_seen(
    container: &Container,
    start: &str,
    options: &WalkOptions,
    exists: bool,
    seen: &Vec<Seen>,
    walked: Result<Vec<Entry>, WalkError>,
)
    requires
        call_ensures(Container::walk, (container, start, options, exists, seen), walked),
    ensures
        walked is Ok <==> exists,
        walked matches Ok(entries) ==> entries@.len() == listing(start@, *options, seen@).len()
            && forall|i: int|
            0 <= i < entries@.len() ==> (#[trigger] entries@[i])@ == listing(
                start@,
                *options,
                seen@,
            )[i],
        walked matches Err(WalkError::Missing(path)) ==> (path::stripped(start@, container@)
            matches Some(rest) ==> path@ == rest),
        walked matches Err(WalkError::Missing(path)) ==> path::stripped(start@, container@) is None
            ==> path@ == start@,
{
    if let Ok(entries) = walked {
        assert(order::views(entries@).len() == entries@.len());
        assert forall|i: int| 0 <= i < entries@.len() implies (#[trigger] entries@[i])@ == listing(
            start@,
            *options,
            seen@,
        )[i] by {
            assert(order::views(entries@)[i] == entries@[i]@);
        }
    }
}

/// An entry is shown by the last name of its path.
pub proof fn an_entry_has_its_last_name(entry: &Entry, names: Seq<Seq<char>>, name: String)
    requires
        call_ensures(Entry::name, (entry,), name),
        path::are_steps(names),
        names.len() > 0,
        names.last() != seq!['.', '.'],
        entry.path@ == text::joined(names, "/"@),
    ensures
        name@ == names.last(),
{
    path::paths_come_apart_at_slashes(names);
}

/// What the errors say holds the path they are about, and tells them apart.
pub proof fn errors_name_the_path(path: String)
    ensures
        text::mentions(ResolveError::Escapes(path).said(), path@),
        text::mentions(ResolveError::Absolute(path).said(), path@),
        text::mentions(WalkError::Missing(path).said(), path@),
        text::mentions(ResolveError::Escapes(path).said(), "escapes the container"@),
        text::mentions(
            ResolveError::Absolute(path).said(),
            "must be relative to the container"@,
        ),
        text::mentions(WalkError::Missing(path).said(), "does not exist in this container"@),
{
    reveal_strlit("` escapes the container");
    reveal_strlit("escapes the container");
    reveal_strlit("` must be relative to the container");
    reveal_strlit("must be relative to the container");
    reveal_strlit("` does not exist in this container");
    reveal_strlit("does not exist in this container");
    let none = Seq::<char>::empty();
    let mark = seq!['`', ' '];
    assert(ResolveError::Escapes(path).said() =~= ("path `"@ + path@ + mark)
        + "escapes the container"@ + none);
    assert(ResolveError::Absolute(path).said() =~= ("path `"@ + path@ + mark)
        + "must be relative to the container"@ + none);
    assert(WalkError::Missing(path).said() =~= ("`"@ + path@ + mark)
        + "does not exist in this container"@ + none);
}

/// A path is shown relative to the root, and an entry relative to the start, where it lies
/// below; a path that does not is shown as it is.
pub proof fn paths_are_shown_relative(
    container: &Container,
    path: &str,
    shown: String,
    start: &str,
    seen: &Seen,
    entry: Entry,
)
    requires
        call_ensures(Container::display, (container, path), shown),
        call_ensures(Container::describe, (start, seen), entry),
        *seen is Entry,
    ensures
        path::stripped(path@, container@) matches Some(rest) ==> shown@ == rest,
        path::stripped(path@, container@) is None ==> shown@ == path@,
        path::stripped((*seen)->Entry_path@, start@) matches Some(rest) ==> entry.path@ == rest,
        path::stripped((*seen)->Entry_path@, start@) is None ==> entry.path@
            == (*seen)->Entry_path@,
{
    assert(entry@.path == entry.path@);
}

} // verus!
