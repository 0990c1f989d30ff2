//! Classification, filtering, ordering and error behaviour.

use dirls::entry::{build_entries, Entry, Kind, RawEntry};
use dirls::error::Error;
use dirls::order::sort_entries;

fn raw(name: &str, is_file: bool, is_dir: bool) -> RawEntry {
    RawEntry {
        name: Some(name.to_string()),
        is_file,
        is_dir,
        mode: 0o644,
        size: 0,
        uid: 0,
        gid: 0,
    }
}

fn file(name: &str) -> Entry {
    Entry { kind: Kind::File, name: name.to_string(), mode: 0o644, size: 0, uid: 0, gid: 0 }
}

fn dir(name: &str) -> Entry {
    Entry { kind: Kind::Directory, name: name.to_string(), mode: 0o755, size: 0, uid: 0, gid: 0 }
}

fn link(name: &str) -> Entry {
    Entry { kind: Kind::Symlink, name: name.to_string(), mode: 0o777, size: 0, uid: 0, gid: 0 }
}

fn names(entries: &[Entry]) -> Vec<String> {
    entries.iter().map(|e| e.name.clone()).collect()
}

#[test]
fn hidden_entries_are_excluded_without_all() {
    let raws = vec![raw(".hidden", true, false), raw("shown", true, false), raw(".git", false, true)];
    let entries = build_entries(raws, false).unwrap();
    assert_eq!(names(&entries), vec!["shown".to_string()]);
}

#[test]
fn all_excludes_nothing() {
    let raws = vec![raw(".hidden", true, false), raw("shown", true, false), raw(".git", false, true)];
    let entries = build_entries(raws, true).unwrap();
    assert_eq!(
        names(&entries),
        vec![".hidden".to_string(), "shown".to_string(), ".git".to_string()]
    );
}

#[test]
fn classification_follows_file_type() {
    let raws = vec![raw("f", true, false), raw("d", false, true), raw("s", false, false)];
    let entries = build_entries(raws, false).unwrap();
    assert!(matches!(entries[0].kind, Kind::File));
    assert!(matches!(entries[1].kind, Kind::Directory));
    assert!(matches!(entries[2].kind, Kind::Symlink));
}

#[test]
fn non_unicode_name_fails_whole_listing() {
    let raws = vec![
        raw("fine", true, false),
        RawEntry { name: None, is_file: true, is_dir: false, mode: 0, size: 0, uid: 0, gid: 0 },
        raw("after", true, false),
    ];
    let err = build_entries(raws, true).unwrap_err();
    assert!(matches!(err, Error::StringConversion));
    assert_eq!(err.message(), "File name includes invalid Unicode data");
    assert_eq!(err.code(), 1);
}

#[test]
fn sort_puts_kinds_in_order() {
    let mut entries = vec![file("f"), link("s"), dir("d")];
    sort_entries(&mut entries);
    assert_eq!(names(&entries), vec!["d".to_string(), "s".to_string(), "f".to_string()]);
}

#[test]
fn sort_is_case_insensitive_within_a_kind() {
    // Byte order would put "B" (0x42) before "a" (0x61); the listing
    // compares lowercase forms, so "a" comes first.
    let mut entries = vec![file("B"), file("a")];
    sort_entries(&mut entries);
    assert_eq!(names(&entries), vec!["a".to_string(), "B".to_string()]);
}

#[test]
fn sort_breaks_case_ties_by_exact_name() {
    let mut entries = vec![file("b"), file("B")];
    sort_entries(&mut entries);
    assert_eq!(names(&entries), vec!["B".to_string(), "b".to_string()]);
}

#[test]
fn sort_is_stable_for_equal_keys() {
    let mut entries = vec![
        Entry { kind: Kind::File, name: "x".to_string(), mode: 0o755, size: 1, uid: 0, gid: 0 },
        Entry { kind: Kind::File, name: "x".to_string(), mode: 0o644, size: 2, uid: 0, gid: 0 },
    ];
    sort_entries(&mut entries);
    assert_eq!(entries[0].size, 1);
    assert_eq!(entries[1].size, 2);
}

#[test]
fn io_error_carries_os_code() {
    let err = Error::Io { message: "No such file or directory".to_string(), os_code: Some(2) };
    assert_eq!(err.code(), 2);
    assert_eq!(err.message(), "No such file or directory");
    let err = Error::Io { message: "boom".to_string(), os_code: None };
    assert_eq!(err.code(), 1);
}

#[test]
fn display_string_labels_the_message() {
    let err = Error::StringConversion;
    let line = err.display_string();
    assert!(line.contains("Error"));
    assert!(line.ends_with(": File name includes invalid Unicode data"));
}
