use fswatch_core::classify::classify;
use fswatch_core::events::{ChangeKind, RawEvent, RawKind};

fn no_ignores() -> Vec<String> {
    Vec::new()
}

fn ds_store_ignores() -> Vec<String> {
    vec![".DS_Store".to_string()]
}

#[test]
fn create_yields_created_message() {
    let e = RawEvent::single(RawKind::Create, "a.txt".to_string());
    let out = classify(&e, true, &no_ignores());
    assert_eq!(out.len(), 1);
    assert_eq!(out[0].kind, ChangeKind::Created);
    assert_eq!(out[0].path, "a.txt");
    assert_eq!(out[0].message, "A new file/folder was created at: a.txt");
}

#[test]
fn remove_yields_deleted_message() {
    let e = RawEvent::single(RawKind::Remove, "dir/b.txt".to_string());
    let out = classify(&e, false, &no_ignores());
    assert_eq!(out.len(), 1);
    assert_eq!(out[0].kind, ChangeKind::Deleted);
    assert_eq!(out[0].message, "A file/folder was deleted from: dir/b.txt");
}

#[test]
fn modify_existing_yields_modified() {
    let e = RawEvent::single(RawKind::Modify, "c.txt".to_string());
    let out = classify(&e, true, &no_ignores());
    assert_eq!(out.len(), 1);
    assert_eq!(out[0].kind, ChangeKind::Modified);
    assert_eq!(out[0].message, "A file/folder was modified at: c.txt");
}

#[test]
fn modify_missing_yields_deleted() {
    let e = RawEvent::single(RawKind::Modify, "c.txt".to_string());
    let out = classify(&e, false, &no_ignores());
    assert_eq!(out.len(), 1);
    assert_eq!(out[0].kind, ChangeKind::Deleted);
    assert_eq!(out[0].message, "A file/folder was deleted from: c.txt");
}

#[test]
fn rename_yields_deleted_then_created() {
    let e = RawEvent::rename("old.txt".to_string(), "new.txt".to_string());
    let out = classify(&e, true, &no_ignores());
    assert_eq!(out.len(), 2);
    assert_eq!(out[0].kind, ChangeKind::Deleted);
    assert_eq!(out[0].path, "old.txt");
    assert_eq!(out[0].message, "A file/folder was deleted from: old.txt");
    assert_eq!(out[1].kind, ChangeKind::Created);
    assert_eq!(out[1].path, "new.txt");
    assert_eq!(out[1].message, "A new file/folder was created at: new.txt");
}

#[test]
fn other_yields_nothing() {
    let e = RawEvent::single(RawKind::Other, "c.txt".to_string());
    let out = classify(&e, true, &no_ignores());
    assert!(out.is_empty());
}

#[test]
fn ignored_path_yields_nothing() {
    let e = RawEvent::single(RawKind::Modify, "some/dir/.DS_Store".to_string());
    let out = classify(&e, true, &ds_store_ignores());
    assert!(out.is_empty());
    let e2 = RawEvent::single(RawKind::Create, ".DS_Store".to_string());
    let out2 = classify(&e2, true, &ds_store_ignores());
    assert!(out2.is_empty());
}

#[test]
fn non_matching_suffix_is_not_ignored() {
    let e = RawEvent::single(RawKind::Create, "DS_Store.bak".to_string());
    let out = classify(&e, true, &ds_store_ignores());
    assert_eq!(out.len(), 1);
}

#[test]
fn rename_away_from_ignored_path_still_creates_new() {
    let e = RawEvent::rename("x/.DS_Store".to_string(), "x/kept.txt".to_string());
    let out = classify(&e, true, &ds_store_ignores());
    assert_eq!(out.len(), 1);
    assert_eq!(out[0].kind, ChangeKind::Created);
    assert_eq!(out[0].path, "x/kept.txt");
}

#[test]
fn custom_ignore_suffix_applies() {
    let ignores = vec![".tmp".to_string(), ".swp".to_string()];
    let e = RawEvent::single(RawKind::Create, "build/out.tmp".to_string());
    assert!(classify(&e, true, &ignores).is_empty());
    let e2 = RawEvent::single(RawKind::Create, "notes.swp".to_string());
    assert!(classify(&e2, true, &ignores).is_empty());
    let e3 = RawEvent::single(RawKind::Create, "notes.txt".to_string());
    assert_eq!(classify(&e3, true, &ignores).len(), 1);
}
