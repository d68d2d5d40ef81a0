use rusfind::EntryKind;
use rusfind::Metadata;
use rusfind::SearchOptions;
use rusfind::Tree;
use rusfind::TreeNode;
use rusfind::search_tree;

fn meta(kind: EntryKind) -> Option<Metadata> {
    Some(Metadata { kind, len: 1, mode: 0o644, modified_secs: 0, modified_nanos: 0 })
}

fn node(
    path: &str,
    name: &str,
    kind: Option<EntryKind>,
    parent: usize,
    children: Vec<usize>,
    listable: bool,
) -> TreeNode {
    TreeNode {
        path: path.to_string(),
        file_name: name.to_string(),
        metadata: kind.map(|k| meta(k).unwrap()),
        parent,
        children,
        listable,
    }
}

fn opts(pattern: Option<&str>, kind: Option<&str>) -> SearchOptions {
    SearchOptions {
        name_pattern: pattern.map(|p| p.to_string()),
        file_type: kind.map(|k| k.to_string()),
    }
}

#[test]
fn static_tree_search_finds_each_reachable_match_once() {
    // /r
    // ├── file1.txt
    // └── subdir
    //     └── file2.rs
    let tree = Tree {
        nodes: vec![
            node("/r", "r", Some(EntryKind::Directory), 0, vec![1, 2], true),
            node("/r/file1.txt", "file1.txt", Some(EntryKind::File), 0, vec![], true),
            node("/r/subdir", "subdir", Some(EntryKind::Directory), 0, vec![3], true),
            node("/r/subdir/file2.rs", "file2.rs", Some(EntryKind::File), 2, vec![], true),
        ],
    };
    let mut results = search_tree(&tree, opts(Some("file"), Some("f")));
    results.sort();
    assert_eq!(results, vec!["/r/file1.txt".to_string(), "/r/subdir/file2.rs".to_string()]);
}

#[test]
fn static_tree_unlistable_directory_cuts_off_its_descendants_only() {
    let tree = Tree {
        nodes: vec![
            node("/r", "r", Some(EntryKind::Directory), 0, vec![1, 2], true),
            node("/r/locked", "locked", Some(EntryKind::Directory), 0, vec![3], false),
            node("/r/open", "open", Some(EntryKind::Directory), 0, vec![4], true),
            node("/r/locked/hidden.txt", "hidden.txt", Some(EntryKind::File), 1, vec![], true),
            node("/r/open/found.txt", "found.txt", Some(EntryKind::File), 2, vec![], true),
        ],
    };
    let results = search_tree(&tree, opts(Some(".txt"), Some("f")));
    assert_eq!(results, vec!["/r/open/found.txt".to_string()]);
}

#[test]
fn static_tree_unlistable_root_yields_nothing() {
    let tree = Tree {
        nodes: vec![
            node("/r", "r", Some(EntryKind::Directory), 0, vec![1], false),
            node("/r/a.txt", "a.txt", Some(EntryKind::File), 0, vec![], true),
        ],
    };
    let results = search_tree(&tree, opts(None, None));
    assert!(results.is_empty());
}

#[test]
fn static_tree_empty_root_yields_nothing() {
    let tree = Tree {
        nodes: vec![node("/r", "r", Some(EntryKind::Directory), 0, vec![], true)],
    };
    let results = search_tree(&tree, opts(None, None));
    assert!(results.is_empty());
}

#[test]
fn static_tree_directories_only_search_yields_all_but_root() {
    let tree = Tree {
        nodes: vec![
            node("/r", "r", Some(EntryKind::Directory), 0, vec![1, 2], true),
            node("/r/a", "a", Some(EntryKind::Directory), 0, vec![3], true),
            node("/r/b", "b", Some(EntryKind::Directory), 0, vec![], true),
            node("/r/a/c", "c", Some(EntryKind::Directory), 1, vec![], true),
        ],
    };
    let mut results = search_tree(&tree, opts(None, Some("d")));
    results.sort();
    assert_eq!(results, vec!["/r/a".to_string(), "/r/a/c".to_string(), "/r/b".to_string()]);
}
