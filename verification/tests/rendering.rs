//! Size formatting, grid layout, long format and flag parsing.

use dirls::entry::{Entry, Kind};
use dirls::error::Error;
use dirls::flags::{parse_args, parse_flags};
use dirls::grid::{render_entries_short, render_entries_short_plain, width_or_default};
use dirls::long::{render_entries_long_plain, LongEntry};
use dirls::size::format_size;

fn file(name: &str) -> Entry {
    Entry { kind: Kind::File, name: name.to_string(), mode: 0o644, size: 0, uid: 0, gid: 0 }
}

fn dir(name: &str) -> Entry {
    Entry { kind: Kind::Directory, name: name.to_string(), mode: 0o755, size: 0, uid: 0, gid: 0 }
}

fn long_entry(e: Entry, owner: &str, group: &str, target: Option<&str>) -> LongEntry {
    LongEntry::new(e, owner.to_string(), group.to_string(), target.map(|t| t.to_string()))
}

#[test]
fn sizes_use_base_1000_boundaries() {
    assert_eq!(format_size(0), "0B");
    assert_eq!(format_size(512), "512B");
    assert_eq!(format_size(999), "999B");
    assert_eq!(format_size(1000), "1.0K");
    assert_eq!(format_size(999999), "999.9K");
    assert_eq!(format_size(1000000), "1.0G");
    assert_eq!(format_size(999999999999), "999999.9G");
    assert_eq!(format_size(1000000000000), "1.0T");
}

#[test]
fn sizes_truncate_instead_of_rounding() {
    assert_eq!(format_size(1999), "1.9K");
    assert_eq!(format_size(1099), "1.0K");
    assert_eq!(format_size(2999999), "2.9G");
}

#[test]
fn grid_joins_one_line_when_it_fits() {
    let entries = vec![file("a"), file("bb"), file("ccc")];
    let lines = render_entries_short_plain(&entries, 80);
    assert_eq!(lines, vec!["a  bb  ccc".to_string()]);
}

#[test]
fn grid_wraps_into_padded_columns() {
    // Widths 4 each; one line would need 4+4+4 plus two separators of
    // two spaces = 20 columns. At width 13 a column is 4 + 2 wide, so
    // two entries go on each row; the last cell of a row is unpadded.
    let entries = vec![file("aaaa"), file("bbbb"), file("cccc"), file("dd")];
    let lines = render_entries_short_plain(&entries, 13);
    assert_eq!(lines, vec!["aaaa  bbbb".to_string(), "cccc  dd".to_string()]);
}

#[test]
fn grid_narrow_terminal_gets_one_entry_per_line() {
    let entries = vec![file("aaaa"), file("bb")];
    let lines = render_entries_short_plain(&entries, 3);
    assert_eq!(lines, vec!["aaaa".to_string(), "bb".to_string()]);
}

#[test]
fn grid_counts_the_directory_slash() {
    // The directory renders as "d/" and its display width is 2.
    let entries = vec![dir("d"), file("x")];
    let lines = render_entries_short_plain(&entries, 80);
    assert_eq!(lines, vec!["d/  x".to_string()]);
    // At width 4 a column is the widest cell (2) plus the gutter, so
    // only one entry fits per row.
    let lines = render_entries_short_plain(&entries, 4);
    assert_eq!(lines, vec!["d/".to_string(), "x".to_string()]);
}

#[test]
fn grid_of_empty_listing_is_empty() {
    let entries: Vec<Entry> = Vec::new();
    let lines = render_entries_short_plain(&entries, 80);
    assert!(lines.is_empty());
}

#[test]
fn styled_grid_of_plain_files_matches_plain_grid() {
    // Plain regular files take no styling at all, so the styled render
    // must agree with the unstyled one exactly.
    let entries = vec![file("a"), file("bb"), file("ccc")];
    assert_eq!(
        render_entries_short(&entries, 80),
        render_entries_short_plain(&entries, 80)
    );
    assert_eq!(
        render_entries_short(&entries, 5),
        render_entries_short_plain(&entries, 5)
    );
}

#[test]
fn long_format_pads_each_column_to_its_own_maximum() {
    let a = long_entry(
        Entry { kind: Kind::File, name: "f".to_string(), mode: 0o644, size: 1000, uid: 0, gid: 0 },
        "root",
        "g",
        None,
    );
    let b = long_entry(
        Entry { kind: Kind::File, name: "gg".to_string(), mode: 0o644, size: 5, uid: 0, gid: 0 },
        "a",
        "grp",
        None,
    );
    let lines = render_entries_long_plain(&vec![a, b]);
    assert_eq!(lines, vec!["root   g 1.0K f".to_string(), "   a grp   5B gg".to_string()]);
}

#[test]
fn long_format_shows_symlink_targets() {
    let s = long_entry(
        Entry { kind: Kind::Symlink, name: "s".to_string(), mode: 0o777, size: 3, uid: 0, gid: 0 },
        "u",
        "g",
        Some("target"),
    );
    let f = long_entry(
        Entry { kind: Kind::File, name: "f".to_string(), mode: 0o644, size: 3, uid: 0, gid: 0 },
        "u",
        "g",
        None,
    );
    let d = long_entry(
        Entry { kind: Kind::Directory, name: "d".to_string(), mode: 0o755, size: 3, uid: 0, gid: 0 },
        "u",
        "g",
        None,
    );
    let lines = render_entries_long_plain(&vec![s, f, d]);
    assert_eq!(lines[0], "u g 3B s -> target");
    assert_eq!(lines[1], "u g 3B f");
    assert_eq!(lines[2], "u g 3B d/");
    assert!(!lines[1].contains("->"));
    assert!(!lines[2].contains("->"));
}

#[test]
fn long_entry_formats_its_size() {
    let le = long_entry(
        Entry { kind: Kind::File, name: "f".to_string(), mode: 0o644, size: 1999, uid: 0, gid: 0 },
        "u",
        "g",
        None,
    );
    assert_eq!(le.size, "1.9K");
}

#[test]
fn undetermined_width_falls_back_to_80() {
    assert_eq!(width_or_default(None), 80);
    assert_eq!(width_or_default(Some(120)), 120);
    assert_eq!(width_or_default(Some(0)), 0);
}

#[test]
fn flags_parse_bundled_and_separate() {
    let none: Vec<String> = vec![];
    assert_eq!(parse_flags(&none).unwrap(), (false, false));
    let bundled = vec!["-al".to_string()];
    assert_eq!(parse_flags(&bundled).unwrap(), (true, true));
    let separate = vec!["-a".to_string(), "-l".to_string()];
    assert_eq!(parse_flags(&separate).unwrap(), (true, true));
    let only_a = vec!["-a".to_string()];
    assert_eq!(parse_flags(&only_a).unwrap(), (true, false));
}

#[test]
fn flags_stop_at_double_dash_or_path() {
    let args = vec!["-a".to_string(), "--".to_string(), "-l".to_string()];
    assert_eq!(parse_flags(&args).unwrap(), (true, false));
    let args = vec!["path".to_string(), "-l".to_string()];
    assert_eq!(parse_flags(&args).unwrap(), (false, false));
}

#[test]
fn unknown_flag_fails_with_its_name() {
    let args = vec!["-z".to_string()];
    let err = parse_flags(&args).unwrap_err();
    assert!(matches!(&err, Error::UnknownFlag(f) if f == "z"));
    assert_eq!(err.message(), "Unknown flag \"z\"");
    assert_eq!(err.code(), 1);
    let args = vec!["-alz".to_string()];
    let err = parse_flags(&args).unwrap_err();
    assert_eq!(err.message(), "Unknown flag \"z\"");
}

#[test]
fn path_argument_follows_the_flags() {
    let none: Vec<String> = vec![];
    assert!(parse_args(&none).is_none());
    let args = vec!["-a".to_string(), "p".to_string()];
    assert_eq!(parse_args(&args).unwrap(), "p");
    let args = vec!["-a".to_string(), "--".to_string(), "-l".to_string()];
    assert_eq!(parse_args(&args).unwrap(), "-l");
    let args = vec!["--".to_string()];
    assert!(parse_args(&args).is_none());
}
