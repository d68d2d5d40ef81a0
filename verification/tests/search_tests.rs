use std::collections::HashMap;

use rusfind::DirEntry;
use rusfind::EntryKind;
use rusfind::Metadata;
use rusfind::SearchOptions;
use rusfind::Step;
use rusfind::bfs_search;

fn file_meta() -> Metadata {
    Metadata { kind: EntryKind::File, len: 14, mode: 0o644, modified_secs: 0, modified_nanos: 0 }
}

fn dir_meta() -> Metadata {
    Metadata {
        kind: EntryKind::Directory,
        len: 4096,
        mode: 0o755,
        modified_secs: 0,
        modified_nanos: 0,
    }
}

fn entry(path: &str, name: &str, kind: Option<EntryKind>) -> DirEntry {
    DirEntry {
        path: path.to_string(),
        file_name: name.to_string(),
        metadata: kind.map(|k| match k {
            EntryKind::File => file_meta(),
            EntryKind::Directory => dir_meta(),
            EntryKind::Other => Metadata { kind: EntryKind::Other, ..file_meta() },
        }),
    }
}

/// Runs a whole search over an in-memory tree: a map from a directory
/// path to its listing, where each child is (path, name, kind) and a
/// kind of `None` stands for metadata that could not be fetched. A
/// directory with no map entry lists as empty, as an unreadable
/// directory does.
fn run_search(
    root: &str,
    options: SearchOptions,
    tree: &HashMap<&str, Vec<(&str, &str, Option<EntryKind>)>>,
) -> Vec<String> {
    let mut engine = bfs_search(root.to_string(), options);
    let mut results: Vec<String> = Vec::new();
    loop {
        match engine.next_step() {
            Step::Matched(p) => results.push(p),
            Step::Expand(dir) => {
                let children: Vec<DirEntry> = match tree.get(dir.as_str()) {
                    Some(listing) => {
                        listing.iter().map(|(p, n, k)| entry(p, n, *k)).collect()
                    }
                    None => Vec::new(),
                };
                engine.process_directory(children);
            }
            Step::Done => break,
        }
    }
    results
}

fn opts(pattern: Option<&str>, kind: Option<&str>) -> SearchOptions {
    SearchOptions {
        name_pattern: pattern.map(|p| p.to_string()),
        file_type: kind.map(|k| k.to_string()),
    }
}

#[test]
fn empty_root_yields_empty_sequence() {
    let tree: HashMap<&str, Vec<(&str, &str, Option<EntryKind>)>> =
        HashMap::from([("/root", vec![])]);
    let results = run_search("/root", opts(None, None), &tree);
    assert!(results.is_empty());
}

#[test]
fn finds_files_by_pattern_and_kind() {
    let tree = HashMap::from([
        (
            "/root",
            vec![
                ("/root/file1.txt", "file1.txt", Some(EntryKind::File)),
                ("/root/subdir", "subdir", Some(EntryKind::Directory)),
            ],
        ),
        ("/root/subdir", vec![("/root/subdir/file2.rs", "file2.rs", Some(EntryKind::File))]),
    ]);
    let mut results = run_search("/root", opts(Some("file"), Some("f")), &tree);
    results.sort();
    assert_eq!(results, vec!["/root/file1.txt".to_string(), "/root/subdir/file2.rs".to_string()]);
}

#[test]
fn kind_only_search_yields_every_directory_below_root() {
    let tree = HashMap::from([
        (
            "/r",
            vec![
                ("/r/a", "a", Some(EntryKind::Directory)),
                ("/r/b", "b", Some(EntryKind::Directory)),
            ],
        ),
        ("/r/a", vec![("/r/a/c", "c", Some(EntryKind::Directory))]),
        ("/r/b", vec![]),
        ("/r/a/c", vec![]),
    ]);
    let mut results = run_search("/r", opts(None, Some("d")), &tree);
    results.sort();
    // Every directory below the root, the root itself not among them,
    // each exactly once.
    assert_eq!(results, vec!["/r/a".to_string(), "/r/a/c".to_string(), "/r/b".to_string()]);
}

#[test]
fn directory_matching_pattern_is_not_yielded_but_still_descended() {
    // A directory named "x" with pattern "x" and type filter 'f' is
    // not yielded, but its children are still visited.
    let tree = HashMap::from([
        ("/r", vec![("/r/x", "x", Some(EntryKind::Directory))]),
        ("/r/x", vec![("/r/x/x.txt", "x.txt", Some(EntryKind::File))]),
    ]);
    let results = run_search("/r", opts(Some("x"), Some("f")), &tree);
    assert_eq!(results, vec!["/r/x/x.txt".to_string()]);
}

#[test]
fn matching_directories_are_both_yielded_and_descended() {
    let tree = HashMap::from([
        ("/r", vec![("/r/src", "src", Some(EntryKind::Directory))]),
        ("/r/src", vec![("/r/src/srcdata", "srcdata", Some(EntryKind::File))]),
    ]);
    let mut results = run_search("/r", opts(Some("src"), None), &tree);
    results.sort();
    assert_eq!(results, vec!["/r/src".to_string(), "/r/src/srcdata".to_string()]);
}

#[test]
fn unreadable_subdirectory_does_not_hide_sibling_matches() {
    // "/r/locked" is listed as a child but cannot be read: its
    // expansion produces nothing (no map entry). Its sibling's match
    // is still discovered.
    let tree = HashMap::from([(
        "/r",
        vec![
            ("/r/locked", "locked", Some(EntryKind::Directory)),
            ("/r/open", "open", Some(EntryKind::Directory)),
        ],
    ), ("/r/open", vec![("/r/open/match.txt", "match.txt", Some(EntryKind::File))])]);
    let results = run_search("/r", opts(Some("match"), Some("f")), &tree);
    assert_eq!(results, vec!["/r/open/match.txt".to_string()]);
}

#[test]
fn unclassifiable_entries_are_skipped() {
    let tree = HashMap::from([(
        "/r",
        vec![("/r/ghost.txt", "ghost.txt", None), ("/r/real.txt", "real.txt", Some(EntryKind::File))],
    )]);
    let results = run_search("/r", opts(Some("txt"), None), &tree);
    assert_eq!(results, vec!["/r/real.txt".to_string()]);
}

#[test]
fn expansion_order_does_not_change_the_match_set() {
    let children: Vec<(&str, &str, Option<EntryKind>)> = vec![
        ("/r/a.log", "a.log", Some(EntryKind::File)),
        ("/r/b.log", "b.log", Some(EntryKind::File)),
        ("/r/c", "c", Some(EntryKind::Directory)),
        ("/r/d.txt", "d.txt", Some(EntryKind::File)),
        ("/r/e.log", "e.log", Some(EntryKind::Other)),
    ];
    let mut reversed = children.clone();
    reversed.reverse();
    let tree1 = HashMap::from([("/r", children)]);
    let tree2 = HashMap::from([("/r", reversed)]);
    let mut r1 = run_search("/r", opts(Some("log"), None), &tree1);
    let mut r2 = run_search("/r", opts(Some("log"), None), &tree2);
    r1.sort();
    r2.sort();
    assert_eq!(r1, r2);
    assert_eq!(r1, vec!["/r/a.log".to_string(), "/r/b.log".to_string(), "/r/e.log".to_string()]);
}

#[test]
fn every_listable_matching_descendant_appears_exactly_once() {
    let tree = HashMap::from([
        (
            "/r",
            vec![
                ("/r/one.txt", "one.txt", Some(EntryKind::File)),
                ("/r/sub", "sub", Some(EntryKind::Directory)),
            ],
        ),
        (
            "/r/sub",
            vec![
                ("/r/sub/two.txt", "two.txt", Some(EntryKind::File)),
                ("/r/sub/deep", "deep", Some(EntryKind::Directory)),
            ],
        ),
        ("/r/sub/deep", vec![("/r/sub/deep/three.txt", "three.txt", Some(EntryKind::File))]),
    ]);
    let mut results = run_search("/r", opts(Some(".txt"), Some("f")), &tree);
    results.sort();
    assert_eq!(
        results,
        vec![
            "/r/one.txt".to_string(),
            "/r/sub/deep/three.txt".to_string(),
            "/r/sub/two.txt".to_string(),
        ],
    );
}

#[test]
fn matching_is_case_insensitive() {
    let tree = HashMap::from([(
        "/r",
        vec![("/r/README.TXT", "README.TXT", Some(EntryKind::File))],
    )]);
    let results = run_search("/r", opts(Some("readme"), None), &tree);
    assert_eq!(results, vec!["/r/README.TXT".to_string()]);
    let results = run_search("/r", opts(Some("ReAdMe.txt"), None), &tree);
    assert_eq!(results, vec!["/r/README.TXT".to_string()]);
}

#[test]
fn unrecognized_kind_restriction_accepts_nothing() {
    let tree = HashMap::from([(
        "/r",
        vec![
            ("/r/a.txt", "a.txt", Some(EntryKind::File)),
            ("/r/b", "b", Some(EntryKind::Directory)),
        ],
    )]);
    let results = run_search("/r", opts(None, Some("x")), &tree);
    assert!(results.is_empty());
}

#[test]
fn buffered_matches_are_yielded_before_further_expansion() {
    let tree = HashMap::from([
        (
            "/r",
            vec![
                ("/r/hit1", "hit1", Some(EntryKind::File)),
                ("/r/sub", "sub", Some(EntryKind::Directory)),
            ],
        ),
        ("/r/sub", vec![("/r/sub/hit2", "hit2", Some(EntryKind::File))]),
    ]);
    // Breadth-first: the match in the root comes out before the
    // subdirectory's, because the root is expanded first and its
    // buffered match is drained before "/r/sub" is expanded.
    let results = run_search("/r", opts(Some("hit"), Some("f")), &tree);
    assert_eq!(results, vec!["/r/hit1".to_string(), "/r/sub/hit2".to_string()]);
}
