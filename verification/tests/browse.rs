use std::path::PathBuf;

use editor_91to9::browse::{open_selected, visible_indices, Browser, OpenAction};
use editor_91to9::dir_info::Entry;

fn entry(name: &str, is_dir: bool) -> Entry {
    Entry {
        name: name.to_owned(),
        is_dir,
        size: 0,
        files: 0,
        dirs: 0,
    }
}

#[test]
fn visible_indices_toggle_hidden() {
    let entries = [
        entry("a.txt", false),
        entry(".b", false),
        entry("dir", true),
    ];
    assert_eq!(visible_indices(&entries, false, ""), vec![0, 2]);
    assert_eq!(visible_indices(&entries, true, ""), vec![0, 1, 2]);
}

#[test]
fn visible_indices_filter_is_case_insensitive_substring() {
    let entries = [
        entry("README.md", false),
        entry("src", true),
        entry("readme.txt", false),
    ];
    assert_eq!(visible_indices(&entries, false, "read"), vec![0, 2]);
    assert_eq!(visible_indices(&entries, false, "SRC"), vec![1]);
    assert_eq!(visible_indices(&entries, false, "zzz"), Vec::<usize>::new());
}

#[test]
fn visible_indices_hidden_and_filter_combine() {
    let entries = [
        entry(".git", true),
        entry("Cargo.toml", false),
        entry(".gitignore", false),
        entry("src", true),
    ];
    assert_eq!(visible_indices(&entries, false, "git"), Vec::<usize>::new());
    assert_eq!(visible_indices(&entries, true, "GIT"), vec![0, 2]);
    assert_eq!(visible_indices(&entries, true, ""), vec![0, 1, 2, 3]);
    assert_eq!(visible_indices(&[], true, ""), Vec::<usize>::new());
}

fn listing(names: &[&str]) -> Vec<Entry> {
    names.iter().map(|n| entry(n, false)).collect()
}

#[test]
fn browser_starts_empty() {
    let browser = Browser::new();
    assert!(browser.entries().is_empty());
    assert!(!browser.is_computing());
    assert_eq!(browser.message(), "");
    assert_eq!(browser.generation(), 0);
    assert_eq!(browser.dir().as_path(), std::path::Path::new(""));
}

#[test]
fn browser_set_message_changes_only_the_message() {
    let mut browser = Browser::new();
    browser.set_message("opening is not supported");
    assert_eq!(browser.message(), "opening is not supported");
    assert_eq!(browser.dir().as_path(), std::path::Path::new(""));
    assert!(browser.entries().is_empty());
    assert!(!browser.is_computing());
}

#[test]
fn browser_navigation_shows_listing_and_computes() {
    let mut browser = Browser::new();
    let generation = browser.navigated(PathBuf::from("/data"), listing(&["a", "b"]));
    assert_eq!(generation, 1);
    assert!(browser.is_computing());
    assert_eq!(browser.message(), "Computing sizes…");
    assert_eq!(browser.dir(), &PathBuf::from("/data"));
    assert_eq!(browser.entries(), listing(&["a", "b"]).as_slice());
}

#[test]
fn browser_applies_only_current_generation() {
    let mut browser = Browser::new();
    let first = browser.navigated(PathBuf::from("/one"), listing(&["a"]));
    let second = browser.navigated(PathBuf::from("/two"), listing(&["b"]));
    assert_ne!(first, second);
    browser.poll(Some((first, Some(listing(&["stale"])))));
    assert!(browser.is_computing());
    assert_eq!(browser.entries(), listing(&["b"]).as_slice());
    browser.poll(None);
    assert!(browser.is_computing());
    browser.poll(Some((second, Some(listing(&["b", "c"])))));
    assert!(!browser.is_computing());
    assert_eq!(browser.message(), "");
    assert_eq!(browser.entries(), listing(&["b", "c"]).as_slice());
    // Nothing more is applied once the scan is done.
    browser.poll(Some((second, Some(listing(&["late"])))));
    assert_eq!(browser.entries(), listing(&["b", "c"]).as_slice());
}

#[test]
fn browser_reports_failed_scan() {
    let mut browser = Browser::new();
    let generation = browser.navigated(PathBuf::from("/x"), listing(&["a"]));
    browser.poll(Some((generation, None)));
    assert!(!browser.is_computing());
    assert_eq!(browser.message(), "Could not compute directory size");
    assert_eq!(browser.entries(), listing(&["a"]).as_slice());
}

#[test]
fn browser_unreadable_target_keeps_state() {
    let mut browser = Browser::new();
    browser.navigated(PathBuf::from("/ok"), listing(&["a"]));
    browser.navigation_failed("/missing", "No such file or directory (os error 2)");
    assert!(browser.message().contains("Cannot read"));
    assert_eq!(
        browser.message(),
        "Cannot read `/missing`: No such file or directory (os error 2)"
    );
    assert!(browser.is_computing());
    assert_eq!(browser.dir(), &PathBuf::from("/ok"));
}

#[test]
fn browser_set_message_is_overwritten_by_navigation_state() {
    let mut browser = Browser::new();
    browser.set_message("opening is not supported");
    assert_eq!(browser.message(), "opening is not supported");
    browser.navigated(PathBuf::from("/r"), Vec::new());
    assert_eq!(browser.message(), "Computing sizes…");
}

#[test]
fn open_selected_enters_dirs_and_reports_files() {
    let entries = [entry("dir", true), entry("f.txt", false)];
    let indices = [1, 0];
    match open_selected(&entries, &indices, 1) {
        OpenAction::Enter(name) => assert_eq!(name, "dir"),
        _ => panic!("a directory is entered"),
    }
    match open_selected(&entries, &indices, 0) {
        OpenAction::NotSupported(message) => {
            assert_eq!(message, "`f.txt` is a file — opening is not supported yet")
        }
        _ => panic!("a file is reported"),
    }
    assert!(matches!(open_selected(&entries, &indices, 2), OpenAction::Nothing));
    assert!(matches!(open_selected(&entries, &[5], 0), OpenAction::Nothing));
}

#[test]
fn browser_computes_until_the_latest_scan_is_delivered() {
    let mut browser = Browser::new();
    browser.set_message("hello");
    browser.poll(Some((0, Some(listing(&["x"])))));
    assert!(!browser.is_computing());
    let first = browser.navigated(PathBuf::from("/one"), listing(&["a"]));
    browser.poll(Some((first, None)));
    assert!(!browser.is_computing());
    let second = browser.navigated(PathBuf::from("/two"), listing(&["b"]));
    browser.navigation_failed("/gone", "denied");
    browser.set_message("note");
    browser.poll(Some((first, Some(listing(&["old"])))));
    assert!(browser.is_computing());
    browser.poll(Some((second, Some(listing(&["b"])))));
    assert!(!browser.is_computing());
}
