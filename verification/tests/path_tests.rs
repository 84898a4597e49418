use mdworkspace::errors::WsError;
use mdworkspace::path::{join_path, resolve_destination, resolve_source, split_path};

#[test]
fn join_inserts_one_separator() {
    assert_eq!(join_path("/a", "b.md"), "/a/b.md");
    assert_eq!(join_path("/a/b", "notes"), "/a/b/notes");
    assert_eq!(join_path("", "top.md"), "/top.md");
}

#[test]
fn split_takes_the_last_separator() {
    let (parent, name) = split_path("/a/b/c.md").unwrap();
    assert_eq!(parent, "/a/b");
    assert_eq!(name, "c.md");
    let (parent, name) = split_path("/x").unwrap();
    assert_eq!(parent, "");
    assert_eq!(name, "x");
    let (parent, name) = split_path("/a/b/").unwrap();
    assert_eq!(parent, "/a/b");
    assert_eq!(name, "");
}

#[test]
fn split_without_separator_is_none() {
    assert!(split_path("plain.md").is_none());
    assert!(split_path("").is_none());
}

#[test]
fn source_must_fully_resolve() {
    let r = resolve_source(Some("/real/file.md".to_string()));
    assert_eq!(r.unwrap().as_str(), "/real/file.md");
    let r = resolve_source(None);
    assert!(matches!(r, Err(WsError::NotFound)));
}

#[test]
fn destination_needs_only_a_resolvable_parent() {
    let r = resolve_destination(Some("/real/dir".to_string()), "new.md");
    assert_eq!(r.unwrap().as_str(), "/real/dir/new.md");
    let r = resolve_destination(None, "new.md");
    assert!(matches!(r, Err(WsError::NotFound)));
    let r = resolve_destination(Some("/real/dir".to_string()), "");
    assert!(matches!(r, Err(WsError::NotFound)));
}

#[test]
fn error_labels_are_stable() {
    assert_eq!(WsError::Cancelled.label(), "cancelled");
    assert_eq!(WsError::NotFound.label(), "not found");
    assert_eq!(WsError::InvalidDirectory.label(), "invalid directory");
    assert_eq!(WsError::IoError("disk".to_string()).label(), "io error");
    assert_eq!(WsError::WatchSetupError.label(), "watch setup error");
}
