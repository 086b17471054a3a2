//! Containers on the filesystem.

use agpeek::path::{file_name_of, put_together, strip_prefix, with_slashes};
use agpeek::source::sim::{
    is_hidden, is_within_hidden, serialize_timestamp, Container, Entry, EntryKind, Metadata, ResolveError, Seen,
    WalkError, WalkOptions,
};
use std::path::{Component, Path};

fn fixture() -> Container {
    Container::new("/tmp/container".to_string())
}

fn seen(path: &str, depth: usize, is_dir: bool, len: u64) -> Seen {
    Seen::Entry {
        path: path.to_string(),
        depth,
        is_symlink: false,
        is_dir,
        is_file: !is_dir,
        metadata: Ok(Metadata {
            len,
            modified: Some(1),
        }),
    }
}

fn entry(path: &str) -> Entry {
    Entry {
        path: path.to_string(),
        depth: 1,
        kind: EntryKind::File,
        size: 0,
        modified: None,
        error: None,
    }
}

/// Paths of every shape that matters.
const PATHS: [&str; 26] = [
    "", "/", ".", "..", "./", "//", "/.", "/..", "a", "a/", "/a", "a/b", "a//b", "a/./b", "./a",
    ".//a", "a/.", "a/..", "../a", "a/../b", "...", ".a", "a/.b/", "/a//b/./c/", "./.", "x/y/z",
];

#[test]
fn resolve_defaults_to_the_container_root() {
    let container = fixture();
    assert_eq!(container.resolve(None).expect("resolves"), container.root());
}

#[test]
fn resolve_joins_a_relative_path() {
    let container = fixture();
    let resolved = container
        .resolve(Some("Library/Preferences"))
        .expect("resolves");
    assert_eq!(resolved, "/tmp/container/Library/Preferences");
}

#[test]
fn resolve_rejects_paths_that_escape_the_container() {
    let container = fixture();
    assert!(container.resolve(Some("../elsewhere")).is_err());
    assert!(container.resolve(Some("Library/../../elsewhere")).is_err());
}

#[test]
fn resolve_rejects_absolute_paths() {
    let container = fixture();
    assert!(container.resolve(Some("/etc/passwd")).is_err());
}

#[test]
fn resolve_says_what_is_wrong_with_a_path() {
    let container = fixture();
    match container.resolve(Some("a/../b")) {
        Err(error @ ResolveError::Escapes(_)) => {
            assert_eq!(error.message(), "path `a/../b` escapes the container")
        }
        other => panic!("expected an error, got {other:?}"),
    }
    match container.resolve(Some("/../b")) {
        Err(error @ ResolveError::Absolute(_)) => assert_eq!(
            error.message(),
            "path `/../b` must be relative to the container"
        ),
        other => panic!("expected an error, got {other:?}"),
    }
}

#[test]
fn resolve_agrees_with_the_standard_library() {
    for root in ["/tmp/container", "/", "rel", "dir/"] {
        let container = Container::new(root.to_string());
        for path in PATHS {
            let refused = Path::new(path).components().any(|component| {
                matches!(component, Component::ParentDir | Component::RootDir)
            });
            match container.resolve(Some(path)) {
                Ok(resolved) => {
                    assert!(!refused, "{path}");
                    assert_eq!(Path::new(&resolved).as_os_str(), Path::new(root).join(path).as_os_str());
                    assert!(Path::new(&resolved).starts_with(root), "{resolved}");
                }
                Err(_) => assert!(refused, "{path}"),
            }
        }
    }
}

#[test]
fn paths_come_apart_as_in_the_standard_library() {
    for path in PATHS {
        let expected = Path::new(path)
            .file_name()
            .map(|name| name.to_string_lossy().into_owned());
        assert_eq!(file_name_of(path), expected, "{path}");

        let joined: Vec<String> = Path::new(path)
            .components()
            .map(|component| component.as_os_str().to_string_lossy().into_owned())
            .collect();
        assert_eq!(with_slashes(path), joined.join("/"), "{path}");

        for base in PATHS {
            let expected = Path::new(path)
                .strip_prefix(base)
                .ok()
                .map(|rest| rest.display().to_string());
            assert_eq!(strip_prefix(path, base), expected, "{path} below {base}");
        }
    }
}

#[test]
fn names_are_put_behind_directories() {
    assert_eq!(put_together("/a", "b"), "/a/b");
    assert_eq!(put_together("/a/", "b"), "/a/b");
    assert_eq!(put_together("", "b"), "b");
    assert_eq!(put_together("a", ""), "a/");
}

#[test]
fn an_entry_goes_by_its_last_component() {
    assert_eq!(entry("Library/Preferences/x.plist").name(), "x.plist");
    assert_eq!(entry("dir/").name(), "dir");
    assert_eq!(entry("").name(), "");
    assert_eq!(entry("a/..").name(), "a/..");
}

#[test]
fn walk_lists_what_was_seen_relative_to_the_start() {
    let container = fixture();
    let entries = container
        .walk(
            "/tmp/container",
            &WalkOptions::default(),
            true,
            &vec![
                seen("/tmp/container/Library", 1, true, 4096),
                seen("/tmp/container/Library/note.txt", 2, false, 5),
                seen("/elsewhere", 1, false, 7),
            ],
        )
        .expect("walks");
    let rows: Vec<(&str, usize, EntryKind, u64)> = entries
        .iter()
        .map(|entry| (entry.path.as_str(), entry.depth, entry.kind, entry.size))
        .collect();
    assert_eq!(
        rows,
        vec![
            ("Library", 1, EntryKind::Dir, 0),
            ("Library/note.txt", 2, EntryKind::File, 5),
            ("/elsewhere", 1, EntryKind::File, 7),
        ]
    );
    assert!(entries.iter().all(|entry| entry.modified == Some(1)));
    assert!(entries.iter().all(|entry| entry.error.is_none()));
}

#[test]
fn walk_reports_failures_inline() {
    let container = fixture();
    let entries = container
        .walk(
            "/tmp/container",
            &WalkOptions::default(),
            true,
            &vec![
                Seen::Failure {
                    place: Some("/tmp/container/Locked".to_string()),
                    depth: 1,
                    message: "denied".to_string(),
                },
                Seen::Failure {
                    place: None,
                    depth: 2,
                    message: "lost".to_string(),
                },
                Seen::Failure {
                    place: Some("/elsewhere".to_string()),
                    depth: 3,
                    message: "odd".to_string(),
                },
                Seen::Entry {
                    path: "/tmp/container/x".to_string(),
                    depth: 1,
                    is_symlink: false,
                    is_dir: true,
                    is_file: false,
                    metadata: Err("stat failed".to_string()),
                },
            ],
        )
        .expect("walks");
    let rows: Vec<(&str, usize, Option<&str>)> = entries
        .iter()
        .map(|entry| (entry.path.as_str(), entry.depth, entry.error.as_deref()))
        .collect();
    assert_eq!(
        rows,
        vec![
            ("Locked", 1, Some("denied")),
            ("", 2, Some("lost")),
            ("", 3, Some("odd")),
            ("x", 1, Some("stat failed")),
        ]
    );
    assert!(entries
        .iter()
        .all(|entry| entry.kind == EntryKind::Unreadable && entry.size == 0));
}

#[test]
fn symlinks_and_special_files_keep_their_kind() {
    let kind = |is_symlink, is_dir, is_file| {
        Container::describe(
            "/",
            &Seen::Entry {
                path: "/x".to_string(),
                depth: 1,
                is_symlink,
                is_dir,
                is_file,
                metadata: Ok(Metadata {
                    len: 3,
                    modified: None,
                }),
            },
        )
        .kind
    };
    assert_eq!(kind(true, false, false), EntryKind::Symlink);
    assert_eq!(kind(false, true, false), EntryKind::Dir);
    assert_eq!(kind(false, false, true), EntryKind::File);
    assert_eq!(kind(false, false, false), EntryKind::Other);
}

#[test]
fn walk_rejects_a_missing_start_path() {
    let container = fixture();
    match container.walk("/tmp/container/nope", &WalkOptions::default(), false, &vec![]) {
        Err(error @ WalkError::Missing(_)) => {
            assert_eq!(error.message(), "`nope` does not exist in this container")
        }
        other => panic!("expected an error, got {other:?}"),
    }
    assert_eq!(container.display("/elsewhere"), "/elsewhere");
}

/// What a walk of the whole tree of a small container comes by, hidden files and all.
fn tree() -> Vec<Seen> {
    vec![
        seen("/tmp/container/.hidden", 1, false, 1),
        seen("/tmp/container/Library", 1, true, 4096),
        seen("/tmp/container/Library/Caches", 2, true, 4096),
        seen("/tmp/container/Library/Caches/Empty", 3, true, 4096),
        seen("/tmp/container/Library/Preferences", 2, true, 4096),
        seen(
            "/tmp/container/Library/Preferences/group.example.plist",
            3,
            false,
            10,
        ),
        seen("/tmp/container/note.txt", 1, false, 5),
    ]
}

fn walked(options: WalkOptions, seen: &Vec<Seen>) -> Vec<Entry> {
    fixture()
        .walk("/tmp/container", &options, true, seen)
        .expect("walks")
}

fn names(entries: &[Entry]) -> Vec<String> {
    entries.iter().map(Entry::name).collect()
}

#[test]
fn walk_lists_the_whole_tree_in_sorted_order() {
    let entries = walked(WalkOptions::default(), &tree());
    assert_eq!(
        names(&entries),
        vec![
            "Library",
            "Caches",
            "Empty",
            "Preferences",
            "group.example.plist",
            "note.txt",
        ]
    );
}

#[test]
fn walk_hides_dotfiles_unless_all_is_set() {
    let hidden = walked(WalkOptions::default(), &tree());
    assert!(!names(&hidden).contains(&".hidden".to_string()));
    assert!(!WalkOptions::default().shows(".hidden"));
    assert!(WalkOptions::default().shows("note.txt"));
    assert_eq!(WalkOptions::default().max_depth, None);

    let all = WalkOptions {
        all: true,
        ..WalkOptions::default()
    };
    let shown = walked(all, &tree());
    assert!(names(&shown).contains(&".hidden".to_string()));
    assert!(all.shows(".hidden"));
    assert!(is_hidden("."));
    assert!(!is_hidden("a.b"));
    assert!(!is_hidden(""));
}

#[test]
fn walk_honours_max_depth() {
    let entries = walked(
        WalkOptions {
            max_depth: Some(1),
            ..WalkOptions::default()
        },
        &tree(),
    );
    assert_eq!(names(&entries), vec!["Library", "note.txt"]);
}

#[test]
fn walk_records_sizes_and_kinds() {
    let entries = walked(WalkOptions::default(), &tree());

    let note = entries
        .iter()
        .find(|entry| entry.name() == "note.txt")
        .expect("note.txt is listed");
    assert_eq!(note.kind, EntryKind::File);
    assert_eq!(note.size, 5);
    assert!(note.modified.is_some());

    let library = entries
        .iter()
        .find(|entry| entry.name() == "Library")
        .expect("Library is listed");
    assert_eq!(library.kind, EntryKind::Dir);
    assert_eq!(library.size, 0, "directory sizes are not meaningful");
}

#[test]
fn walk_reports_symlinks_without_following_them() {
    let mut seen = tree();
    seen.push(Seen::Entry {
        path: "/tmp/container/escape".to_string(),
        depth: 1,
        is_symlink: true,
        is_dir: false,
        is_file: false,
        metadata: Ok(Metadata {
            len: 4,
            modified: Some(1),
        }),
    });
    let entries = walked(WalkOptions::default(), &seen);
    let link = entries
        .iter()
        .find(|entry| entry.name() == "escape")
        .expect("symlink is listed");
    assert_eq!(link.kind, EntryKind::Symlink);
    assert!(
        entries.iter().all(|entry| entry.depth <= 3),
        "walk stayed inside the container"
    );
}

#[test]
fn walk_reports_unreadable_directories_without_aborting() {
    let mut seen = tree();
    seen.insert(
        4,
        Seen::Failure {
            place: Some("/tmp/container/Library/Locked".to_string()),
            depth: 2,
            message: "denied".to_string(),
        },
    );
    let entries = walked(WalkOptions::default(), &seen);
    assert!(
        entries
            .iter()
            .any(|entry| entry.kind == EntryKind::Unreadable && entry.error.is_some()),
        "the locked directory is reported inline"
    );
    assert!(
        names(&entries).contains(&"note.txt".to_string()),
        "the rest of the tree is still listed"
    );
}

#[test]
fn a_hidden_directory_hides_its_contents() {
    let seen = vec![
        seen("/tmp/container/.git", 1, true, 0),
        seen("/tmp/container/.git/config", 2, false, 1),
        seen("/tmp/container/a", 1, true, 0),
        seen("/tmp/container/a/.b", 2, true, 0),
        seen("/tmp/container/a/.b/c", 3, true, 0),
        seen("/tmp/container/a/.b/c/d", 4, false, 1),
        seen("/tmp/container/a/b.c", 2, false, 1),
    ];
    let paths = |options: WalkOptions| -> Vec<String> {
        walked(options, &seen)
            .into_iter()
            .map(|entry| entry.path)
            .collect()
    };
    assert_eq!(paths(WalkOptions::default()), vec!["a", "a/b.c"]);
    let all = |max_depth| WalkOptions {
        max_depth,
        all: true,
    };
    assert_eq!(paths(all(None)).len(), seen.len());
    assert_eq!(
        paths(all(Some(2))),
        vec![".git", ".git/config", "a", "a/.b", "a/b.c"]
    );
    assert!(paths(all(Some(0))).is_empty());
    assert!(is_within_hidden("a/.b/c"));
    assert!(!is_within_hidden("a/b.c"));
}

#[test]
fn a_dot_in_the_name_of_the_start_hides_nothing() {
    let seen = vec![
        seen("/tmp/.container/.start/a", 1, false, 1),
        seen("/tmp/.container/.start/.b", 1, false, 1),
    ];
    let entries = Container::new("/tmp/.container".to_string())
        .walk(
            "/tmp/.container/.start",
            &WalkOptions::default(),
            true,
            &seen,
        )
        .expect("walks");
    assert_eq!(names(&entries), vec!["a"]);
}

#[test]
fn entries_serialise_timestamps_as_rfc_3339() {
    let modified = serialize_timestamp(Some(1_785_443_762)).expect("a string, not a struct");
    assert!(
        chrono::DateTime::parse_from_rfc3339(&modified).is_ok(),
        "got: {modified}"
    );
    let local = chrono::DateTime::from_timestamp(1_785_443_762, 0)
        .expect("a time")
        .with_timezone(&chrono::Local);
    assert_eq!(
        modified,
        local.to_rfc3339_opts(chrono::SecondsFormat::Secs, true)
    );
    assert_eq!(serialize_timestamp(None), None);
}

#[test]
fn a_walk_reaches_as_deep_as_it_is_told_to() {
    let limited = |most| WalkOptions {
        max_depth: most,
        all: false,
    };
    assert!(limited(None).reaches(1_000_000));
    assert!(limited(Some(2)).reaches(2));
    assert!(!limited(Some(2)).reaches(3));
    assert!(!limited(Some(0)).reaches(1));
}
