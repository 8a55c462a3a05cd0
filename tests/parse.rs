use jut::{
    extract_delimited, parse_file_changes, parse_op_entries, parse_revision_records, trim_str,
};

#[test]
fn file_changes_from_summary() {
    let out = "M src/main.rs\nA  new file.txt\r\n\n  D gone.rs  \nX\n?? odd\n";
    let files = parse_file_changes(out);
    assert_eq!(files.len(), 3);
    assert_eq!(files[0].status, 'M');
    assert_eq!(files[0].path, "src/main.rs");
    assert_eq!(files[1].status, 'A');
    assert_eq!(files[1].path, " new file.txt");
    assert_eq!(files[2].status, 'D');
    assert_eq!(files[2].path, "gone.rs");
}

#[test]
fn file_changes_of_empty_output() {
    assert!(parse_file_changes("").is_empty());
}

#[test]
fn delimited_field_content() {
    assert_eq!(extract_delimited("DESC: fix the bug :DESC", "DESC:"), "fix the bug");
    assert_eq!(extract_delimited("xx DESC:line one\nline two:DESC yy", "DESC:"), "line one\nline two");
    assert_eq!(extract_delimited("DESC:no end marker  ", "DESC:"), "no end marker");
    assert_eq!(extract_delimited("  plain text ", "DESC:"), "plain text");
    assert_eq!(extract_delimited("AUTH:Jo Doe:AUTH", "AUTH:"), "Jo Doe");
}

#[test]
fn trim_uses_unicode_white_space() {
    assert_eq!(trim_str("\u{3000}\t x y \u{a0}\n"), "x y");
    assert_eq!(trim_str("   "), "");
}

fn record(fields: &[&str]) -> String {
    fields.join("\u{1f}")
}

#[test]
fn revision_records_are_parsed() {
    let r1 = record(&[
        "kmnopqrs", "0123abcd", "DESC:add feature:DESC", "feat, wip", "changed", "mutable",
        "zzzzyyyy,wwwwvvvv", "clean", "AUTH:Jo Doe:AUTH", "2024-05-01 10:00",
    ]);
    let r2 = record(&["tttttttt", "ffff0000", "DESC::DESC", "", "empty", "immutable", "", "conflict", "AUTH::AUTH", "t"]);
    let short = record(&["a", "b", "c"]);
    let out = format!("{r1}\u{1e}\n  \u{1e}{short}\u{1e}{r2}\u{1e}\n");
    let revs = parse_revision_records(&out);
    assert_eq!(revs.len(), 2);
    let a = &revs[0];
    assert_eq!(a.change_id, "kmnopqrs");
    assert_eq!(a.commit_id, "0123abcd");
    assert_eq!(a.short_id, "kmno");
    assert_eq!(a.description, "add feature");
    assert_eq!(a.bookmarks, vec!["feat".to_string(), "wip".to_string()]);
    assert!(!a.is_empty);
    assert!(!a.is_immutable);
    assert_eq!(a.parent_change_ids, vec!["zzzzyyyy".to_string(), "wwwwvvvv".to_string()]);
    assert!(!a.is_conflicted);
    assert_eq!(a.author, "Jo Doe");
    assert_eq!(a.timestamp, "2024-05-01 10:00");
    assert!(!a.is_working_copy);
    assert!(a.files.is_empty());
    let b = &revs[1];
    assert_eq!(b.description, "");
    assert!(b.bookmarks.is_empty());
    assert!(b.is_empty);
    assert!(b.is_immutable);
    assert!(b.parent_change_ids.is_empty());
    assert!(b.is_conflicted);
}

fn op(id: &str, desc: &str, time: &str) -> String {
    format!("{id}\u{1f}{desc}\u{1f}{time}\u{1e}")
}

#[test]
fn op_entries_skip_snapshots() {
    let out = format!(
        "{}{}{}{}",
        op("aaaa1111", "snapshot working copy", "t1"),
        op("aaaa2222", "commit abc", "t2"),
        op("bbbb3333", "import git refs", "t3"),
        op("cccc4444", "new empty commit", "t4"),
    );
    let entries = parse_op_entries(&out, 10, false);
    assert_eq!(entries.len(), 2);
    assert_eq!(entries[0].id, "aaaa2222");
    assert_eq!(entries[0].short_id, "aaaa");
    assert_eq!(entries[0].description, "commit abc");
    assert_eq!(entries[0].timestamp, "t2");
    assert!(!entries[0].snapshot);
    assert_eq!(entries[1].short_id, "cccc");
}

#[test]
fn op_entries_with_all_and_limit() {
    let out = format!(
        "{}{}{}",
        op("aaaa1111", "snapshot working copy", "t1"),
        op("aaaa2222", "commit abc", "t2"),
        op("bbbb3333", "snapshot", "t3"),
    );
    let all = parse_op_entries(&out, 10, true);
    assert_eq!(all.len(), 3);
    assert!(all[0].snapshot);
    assert!(all[2].snapshot);
    assert_eq!(all[0].short_id, "aaaa1");
    assert_eq!(all[1].short_id, "aaaa2");
    let two = parse_op_entries(&out, 2, true);
    assert_eq!(two.len(), 2);
    // among the listed ids only: "aaaa" tells them apart no more
    assert_eq!(two[0].short_id, "aaaa1");
    let none_asked = parse_op_entries(&out, 0, true);
    assert_eq!(none_asked.len(), 1);
}
