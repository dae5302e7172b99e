use fswatch_core::events::{is_ignored, str_ends_with, ChangeKind, render_message};
use fswatch_core::Config;

#[test]
fn suffix_matching() {
    assert!(str_ends_with("dir/.DS_Store", ".DS_Store"));
    assert!(str_ends_with(".DS_Store", ".DS_Store"));
    assert!(!str_ends_with("DS_Store", ".DS_Store"));
    assert!(!str_ends_with("a", "abc"));
    assert!(str_ends_with("anything", ""));
    assert!(!str_ends_with("dir/.ds_store", ".DS_Store"));
}

#[test]
fn ignore_list_checks_every_suffix() {
    let suffixes = vec![".tmp".to_string(), ".DS_Store".to_string()];
    assert!(is_ignored(&"x/.DS_Store".to_string(), &suffixes));
    assert!(is_ignored(&"x/a.tmp".to_string(), &suffixes));
    assert!(!is_ignored(&"x/a.txt".to_string(), &suffixes));
    assert!(!is_ignored(&"x/a.txt".to_string(), &Vec::new()));
}

#[test]
fn message_rendering() {
    let p = "some/path".to_string();
    assert_eq!(
        render_message(ChangeKind::Created, &p),
        "A new file/folder was created at: some/path"
    );
    assert_eq!(
        render_message(ChangeKind::Deleted, &p),
        "A file/folder was deleted from: some/path"
    );
    assert_eq!(
        render_message(ChangeKind::Modified, &p),
        "A file/folder was modified at: some/path"
    );
}

#[test]
fn standard_config_values() {
    let c = Config::standard();
    assert_eq!(c.ignore_suffixes, vec![".DS_Store".to_string()]);
    assert_eq!(c.dedup_window_ms, 10_000);
    assert_eq!(c.debounce_interval_ms, 2_000);
}
