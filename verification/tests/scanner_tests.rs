use refer_lib::scanner::{ScanResult, Scanner};

/// One recorded directory entry: parent (relative), name, is_dir, size.
type Entry<'a> = (&'a str, &'a str, bool, Option<u64>);

/// Drive one scan over a fixed list of entries, popping the whole
/// directory stack as a real traversal would.
fn run_scan(filter: &str, entries: &[Entry]) -> ScanResult {
    let mut s = Scanner::new(filter.to_string());
    let root = s.next_dir();
    assert_eq!(root.as_deref(), Some(""));
    for (parent, name, is_dir, size) in entries {
        s.on_entry(parent, name, *is_dir, *size);
    }
    while s.next_dir().is_some() {}
    s.finish()
}

fn sorted(mut v: Vec<String>) -> Vec<String> {
    v.sort();
    v
}

#[test]
fn nonexistent_root_is_zero() {
    let r = ScanResult::zero();
    assert_eq!(r.total_size_bytes, 0);
    assert!(r.matched_entries.is_empty());
}

#[test]
fn empty_scan_is_zero() {
    let r = run_scan("refer", &[]);
    assert_eq!(r.total_size_bytes, 0);
    assert!(r.matched_entries.is_empty());
}

#[test]
fn size_total_independent_of_filter() {
    let entries: &[Entry] = &[("", "a.refer", false, Some(10)), ("", "b.txt", false, Some(20))];
    let r = run_scan("refer", entries);
    assert_eq!(r.total_size_bytes, 30);
    assert_eq!(r.matched_entries, vec!["a.refer".to_string()]);
}

#[test]
fn case_insensitive_extension_match() {
    let r = run_scan("refer", &[("", "c.REFER", false, Some(1))]);
    assert_eq!(r.matched_entries, vec!["c.REFER".to_string()]);
}

#[test]
fn nested_directories_counted_and_listed() {
    let mut s = Scanner::new("refer".to_string());
    assert_eq!(s.next_dir().as_deref(), Some(""));
    s.on_entry("", "top.refer", false, Some(1));
    s.on_entry("", "sub", true, None);
    assert_eq!(s.next_dir().as_deref(), Some("sub"));
    s.on_entry("sub", "dir", true, None);
    assert_eq!(s.next_dir().as_deref(), Some("sub/dir"));
    s.on_entry("sub/dir", "a.refer", false, Some(5));
    s.on_entry("sub/dir", "b.txt", false, Some(7));
    assert_eq!(s.next_dir(), None);
    let r = s.finish();
    assert_eq!(r.total_size_bytes, 13);
    assert_eq!(
        sorted(r.matched_entries),
        vec!["sub/dir/a.refer".to_string(), "top.refer".to_string()]
    );
}

#[test]
fn no_match_filter_still_counts_sizes() {
    let entries: &[Entry] = &[("", "a.refer", false, Some(10)), ("", "b.txt", false, Some(20))];
    let r = run_scan("xyz", entries);
    assert!(r.matched_entries.is_empty());
    assert_eq!(r.total_size_bytes, 30);
}

#[test]
fn repeated_scan_of_unchanged_tree_agrees() {
    let entries: &[Entry] = &[
        ("", "a.refer", false, Some(10)),
        ("", "sub", true, None),
        ("sub", "b.ReFeR", false, Some(20)),
        ("sub", "c.txt", false, Some(30)),
    ];
    let first = run_scan("refer", entries);
    let second = run_scan("refer", entries);
    assert_eq!(first.total_size_bytes, second.total_size_bytes);
    assert_eq!(sorted(first.matched_entries), sorted(second.matched_entries));
}

#[test]
fn reordered_entries_agree_as_a_set() {
    let forward: &[Entry] = &[
        ("", "a.refer", false, Some(10)),
        ("sub", "b.refer", false, Some(20)),
        ("sub", "c.txt", false, Some(30)),
    ];
    let backward: &[Entry] = &[
        ("sub", "c.txt", false, Some(30)),
        ("sub", "b.refer", false, Some(20)),
        ("", "a.refer", false, Some(10)),
    ];
    let f = run_scan("refer", forward);
    let b = run_scan("refer", backward);
    assert_eq!(f.total_size_bytes, b.total_size_bytes);
    assert_eq!(sorted(f.matched_entries), sorted(b.matched_entries));
}

#[test]
fn total_saturates_instead_of_wrapping() {
    let entries: &[Entry] = &[("", "big.bin", false, Some(u64::MAX)), ("", "one.bin", false, Some(1))];
    let r = run_scan("refer", entries);
    assert_eq!(r.total_size_bytes, u64::MAX);
}

#[test]
fn unreadable_size_is_skipped_but_name_still_matches() {
    let entries: &[Entry] = &[("", "x.refer", false, None)];
    let r = run_scan("refer", entries);
    assert_eq!(r.total_size_bytes, 0);
    assert_eq!(r.matched_entries, vec!["x.refer".to_string()]);
}

#[test]
fn directory_never_matches_and_adds_nothing() {
    let entries: &[Entry] = &[("", "d.refer", true, Some(4096))];
    let mut s = Scanner::new("refer".to_string());
    assert_eq!(s.next_dir().as_deref(), Some(""));
    for (parent, name, is_dir, size) in entries {
        s.on_entry(parent, name, *is_dir, *size);
    }
    assert_eq!(s.next_dir().as_deref(), Some("d.refer"));
    assert_eq!(s.next_dir(), None);
    let r = s.finish();
    assert_eq!(r.total_size_bytes, 0);
    assert!(r.matched_entries.is_empty());
}

#[test]
fn stack_pops_most_recent_directory_first() {
    let mut s = Scanner::new("refer".to_string());
    assert_eq!(s.next_dir().as_deref(), Some(""));
    s.on_entry("", "one", true, None);
    s.on_entry("", "two", true, None);
    assert_eq!(s.next_dir().as_deref(), Some("two"));
    assert_eq!(s.next_dir().as_deref(), Some("one"));
    assert_eq!(s.next_dir(), None);
}
