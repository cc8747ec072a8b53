use dirsync::{build_scan_table, rel_path_of, EntryType, RawEntry, ScanTable};

fn raw(path: &str, t: EntryType, size: u64) -> RawEntry {
    RawEntry { path: path.to_string(), entry_type: t, file_size: size }
}

#[test]
fn rel_paths_strip_the_root() {
    assert_eq!(rel_path_of("/data", "/data/a.txt").as_deref(), Some("a.txt"));
    assert_eq!(rel_path_of("/data", "/data/sub/b.txt").as_deref(), Some("sub/b.txt"));
    // The root itself has no relative path.
    assert_eq!(rel_path_of("/data", "/data"), None);
    assert_eq!(rel_path_of("/data", "/data/"), None);
    // A path elsewhere cannot be derived.
    assert_eq!(rel_path_of("/data", "/other/a.txt"), None);
    assert_eq!(rel_path_of("/data", "/datax/a.txt"), None);
}

#[test]
fn scan_keeps_entries_under_root_in_path_order() {
    let raws = vec![
        raw("/data/sub/b.txt", EntryType::File, 2097152),
        raw("/data", EntryType::Dir, 0),
        raw("/data/a.txt", EntryType::File, 5),
        raw("/data/sub", EntryType::Dir, 0),
        raw("/elsewhere/c.txt", EntryType::File, 9),
    ];
    let table = build_scan_table("/data", &raws, false);
    assert_eq!(table.len(), 3);
    assert_eq!(table.meta_at(0).rel_path(), "a.txt");
    assert_eq!(table.meta_at(1).rel_path(), "sub");
    assert_eq!(table.meta_at(2).rel_path(), "sub/b.txt");
    // Directory sizes are informational zeros; file sizes carry over.
    assert_eq!(table.meta_at(0).file_size(), 5);
    assert_eq!(table.meta_at(1).file_size(), 0);
    assert_eq!(table.meta_at(2).file_size(), 2097152);
    // Lookup finds the handle the walker reported.
    let i = table.lookup("sub/b.txt").unwrap();
    assert_eq!(table.handle_at(i), "/data/sub/b.txt");
    assert!(table.lookup("missing").is_none());
}

#[test]
fn scan_drops_symlinks_unless_asked() {
    let raws = vec![
        raw("/data/link", EntryType::SymLink, 0),
        raw("/data/a.txt", EntryType::File, 1),
    ];
    let without = build_scan_table("/data", &raws, false);
    assert_eq!(without.len(), 1);
    assert_eq!(without.meta_at(0).rel_path(), "a.txt");
    let with = build_scan_table("/data", &raws, true);
    assert_eq!(with.len(), 2);
    assert!(with.lookup("link").is_some());
}

#[test]
fn scan_keeps_the_first_of_duplicate_paths() {
    let raws = vec![
        raw("/data/a.txt", EntryType::File, 1),
        raw("/data/a.txt", EntryType::File, 2),
    ];
    let table = build_scan_table("/data", &raws, false);
    assert_eq!(table.len(), 1);
    assert_eq!(table.meta_at(0).file_size(), 1);
}

#[test]
fn scan_of_nothing_is_empty() {
    let table: ScanTable = build_scan_table("/data", &vec![], false);
    assert_eq!(table.len(), 0);
}
