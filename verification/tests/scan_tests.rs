use mdworkspace::errors::WsError;
use mdworkspace::scan::get_tree;
use mdworkspace::tree::{FileNode, RawEntry};

fn file(name: &str) -> RawEntry {
    RawEntry::File { name: name.to_string() }
}

fn dir(name: &str, entries: Vec<RawEntry>) -> RawEntry {
    RawEntry::Dir { name: name.to_string(), entries }
}

fn unreadable(name: &str) -> RawEntry {
    RawEntry::Unreadable { name: name.to_string() }
}

fn node_eq(a: &FileNode, b: &FileNode) -> bool {
    match (a, b) {
        (
            FileNode::File { name: an, path: ap },
            FileNode::File { name: bn, path: bp },
        ) => an == bn && ap == bp,
        (
            FileNode::Dir { name: an, path: ap, children: ac },
            FileNode::Dir { name: bn, path: bp, children: bc },
        ) => {
            an == bn && ap == bp && ac.len() == bc.len()
                && ac.iter().zip(bc.iter()).all(|(x, y)| node_eq(x, y))
        }
        _ => false,
    }
}

#[test]
fn scan_order_concrete() {
    let snapshot = dir(
        "ws",
        vec![
            file("Zebra.md"),
            file("apple.md"),
            file("Banana.md"),
            dir("notes", vec![file("x.md")]),
        ],
    );
    let tree = get_tree("/ws", &snapshot).unwrap();
    let names: Vec<&str> = tree.iter().map(|n| n.name().as_str()).collect();
    assert_eq!(names, vec!["notes", "apple.md", "Banana.md", "Zebra.md"]);
    assert!(tree[0].is_dir());
    assert!(!tree[1].is_dir());
    assert!(!tree[2].is_dir());
    assert!(!tree[3].is_dir());
    assert_eq!(tree[0].path().as_str(), "/ws/notes");
    assert_eq!(tree[1].path().as_str(), "/ws/apple.md");
    match &tree[0] {
        FileNode::Dir { children, .. } => {
            assert_eq!(children.len(), 1);
            assert_eq!(children[0].name().as_str(), "x.md");
            assert_eq!(children[0].path().as_str(), "/ws/notes/x.md");
            assert!(!children[0].is_dir());
        }
        FileNode::File { .. } => panic!("notes must be a directory node"),
    }
}

#[test]
fn scan_is_deterministic() {
    let snapshot = dir(
        "ws",
        vec![
            file("b.md"),
            dir("sub", vec![file("inner.md"), dir("deeper", vec![])]),
            file("A.md"),
            unreadable("locked"),
        ],
    );
    let first = get_tree("/r", &snapshot).unwrap();
    let second = get_tree("/r", &snapshot).unwrap();
    assert_eq!(first.len(), second.len());
    for (a, b) in first.iter().zip(second.iter()) {
        assert!(node_eq(a, b));
    }
}

#[test]
fn hidden_entries_are_excluded_everywhere() {
    let snapshot = dir(
        "ws",
        vec![
            file(".hidden.md"),
            dir(".git", vec![file("config.md")]),
            dir("sub", vec![file(".inner.md"), file("kept.md")]),
            file("kept.md"),
        ],
    );
    let tree = get_tree("/ws", &snapshot).unwrap();
    let names: Vec<&str> = tree.iter().map(|n| n.name().as_str()).collect();
    assert_eq!(names, vec!["sub", "kept.md"]);
    match &tree[0] {
        FileNode::Dir { children, .. } => {
            let inner: Vec<&str> = children.iter().map(|n| n.name().as_str()).collect();
            assert_eq!(inner, vec!["kept.md"]);
        }
        FileNode::File { .. } => panic!("sub must be a directory node"),
    }
}

#[test]
fn only_md_files_appear_but_every_directory_does() {
    let snapshot = dir(
        "ws",
        vec![
            file("notes.txt"),
            file("readme"),
            file("UPPER.MD"),
            file("good.md"),
            dir("empty", vec![]),
            dir("no_markdown_below", vec![file("data.json")]),
        ],
    );
    let tree = get_tree("/ws", &snapshot).unwrap();
    let names: Vec<&str> = tree.iter().map(|n| n.name().as_str()).collect();
    assert_eq!(names, vec!["empty", "no_markdown_below", "good.md"]);
    match &tree[1] {
        FileNode::Dir { children, .. } => assert!(children.is_empty()),
        FileNode::File { .. } => panic!("expected a directory node"),
    }
}

#[test]
fn scan_empty_directory_yields_empty_sequence() {
    let snapshot = dir("ws", vec![]);
    let tree = get_tree("/ws", &snapshot).unwrap();
    assert!(tree.is_empty());
}

#[test]
fn get_tree_on_file_fails_with_invalid_directory() {
    let snapshot = file("note.md");
    let r = get_tree("/ws/note.md", &snapshot);
    assert!(matches!(r, Err(WsError::InvalidDirectory)));
}

#[test]
fn unreadable_directory_is_surfaced_as_empty() {
    let snapshot = dir("ws", vec![unreadable("locked"), file("a.md")]);
    let tree = get_tree("/ws", &snapshot).unwrap();
    assert_eq!(tree.len(), 2);
    assert_eq!(tree[0].name().as_str(), "locked");
    assert!(tree[0].is_dir());
    match &tree[0] {
        FileNode::Dir { children, .. } => assert!(children.is_empty()),
        FileNode::File { .. } => panic!("expected a directory node"),
    }
}

#[test]
fn unreadable_root_is_surfaced_as_empty() {
    let snapshot = unreadable("ws");
    let tree = get_tree("/ws", &snapshot).unwrap();
    assert!(tree.is_empty());
}

#[test]
fn directories_precede_files_and_names_fold_case() {
    let snapshot = dir(
        "ws",
        vec![
            file("delta.md"),
            dir("Zoo", vec![]),
            file("Echo.md"),
            dir("alpha", vec![]),
            file("charlie.md"),
        ],
    );
    let tree = get_tree("/ws", &snapshot).unwrap();
    let names: Vec<&str> = tree.iter().map(|n| n.name().as_str()).collect();
    assert_eq!(names, vec!["alpha", "Zoo", "charlie.md", "delta.md", "Echo.md"]);
}

#[test]
fn tree_equality_distinguishes_values() {
    let a = get_tree("/ws", &dir("ws", vec![file("a.md"), dir("s", vec![file("x.md")])])).unwrap();
    let b = get_tree("/ws", &dir("ws", vec![dir("s", vec![file("x.md")]), file("a.md")])).unwrap();
    // same entries in another OS order scan to the same tree
    assert!(mdworkspace::tree::siblings_equal(&a, &b));
    assert!(mdworkspace::tree::nodes_equal(&a[0], &b[0]));
    let c = get_tree("/ws", &dir("ws", vec![file("a.md"), dir("s", vec![file("y.md")])])).unwrap();
    // a change below a subdirectory changes the tree
    assert!(!mdworkspace::tree::siblings_equal(&a, &c));
    let d = get_tree("/other", &dir("ws", vec![file("a.md"), dir("s", vec![file("x.md")])]))
        .unwrap();
    // the same shape under another root differs in every path
    assert!(!mdworkspace::tree::siblings_equal(&a, &d));
}

#[test]
fn name_comparison_is_case_insensitive() {
    assert!(mdworkspace::order::str_le("Apple", "apple"));
    assert!(mdworkspace::order::str_le("apple", "Apple"));
    assert!(mdworkspace::order::str_le("apple", "Banana"));
    assert!(!mdworkspace::order::str_le("banana", "Apple"));
    assert!(mdworkspace::order::str_le("ab", "abc"));
    assert!(!mdworkspace::order::str_le("abc", "ab"));
    assert!(mdworkspace::order::str_le("", "anything"));
}

#[test]
fn extension_check_is_exact_and_case_sensitive() {
    assert!(mdworkspace::order::is_md_name("a.md"));
    assert!(mdworkspace::order::is_md_name("a.b.md"));
    assert!(!mdworkspace::order::is_md_name("a.MD"));
    assert!(!mdworkspace::order::is_md_name("a.mdx"));
    assert!(!mdworkspace::order::is_md_name("amd"));
    assert!(!mdworkspace::order::is_md_name("md"));
    assert!(mdworkspace::order::is_md_name(".md"));
    assert!(!mdworkspace::order::is_visible_name(".md"));
    assert!(!mdworkspace::order::is_visible_name(""));
    assert!(mdworkspace::order::is_visible_name("a.md"));
}
