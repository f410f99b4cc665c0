use file_search::db_cache::{DbCache, FileSystemEntry};

fn entry(path: &str, name: &str, is_dir: bool) -> FileSystemEntry {
    FileSystemEntry::new(path.to_string(), name.to_string(), is_dir)
}

fn names(results: &[FileSystemEntry]) -> Vec<String> {
    results.iter().map(|e| e.name.clone()).collect()
}

#[test]
fn duplicate_pairs_stored_once() {
    let mut db = DbCache::new();
    db.store(entry("C:\\a", "x.txt", false));
    db.store(entry("C:\\a", "x.txt", false));
    db.store(entry("C:\\a", "x.txt", true));
    db.flush();
    assert_eq!(db.count("x"), 1);
}

#[test]
fn same_name_different_path_kept() {
    let mut db = DbCache::new();
    db.store(entry("C:\\a", "x.txt", false));
    db.store(entry("C:\\b", "x.txt", false));
    db.flush();
    assert_eq!(db.count("x"), 2);
}

#[test]
fn buffered_entries_invisible_until_flush() {
    let mut db = DbCache::new();
    db.store(entry("C:\\a", "x.txt", false));
    assert!(!db.db_exists());
    assert_eq!(db.count("x"), 0);
    db.flush();
    assert!(db.db_exists());
    assert_eq!(db.count("x"), 1);
}

#[test]
fn automatic_flush_at_buffer_size() {
    let mut db = DbCache::new();
    for i in 0..100 {
        db.store(entry(&format!("C:\\d\\{}", i), &format!("f{}.txt", i), false));
    }
    assert!(db.db_exists());
    assert_eq!(db.count("f"), 100);
}

#[test]
fn close_flushes_remaining_entries() {
    let mut db = DbCache::new();
    db.store(entry("C:\\a", "one.txt", false));
    db.store(entry("C:\\b", "two.txt", false));
    db.store(entry("C:\\c", "three.txt", false));
    db.close();
    let page = 0u32;
    let found = db.search("", &page);
    assert_eq!(found.len(), 3);
}

#[test]
fn ordering_puts_executables_first() {
    let mut db = DbCache::new();
    db.store(entry("C:\\1", "b.txt", false));
    db.store(entry("C:\\2", "a.exe", false));
    db.store(entry("C:\\3", "c.exe", false));
    db.flush();
    let page = 0u32;
    let found = db.search("", &page);
    assert_eq!(names(&found), vec!["a.exe", "c.exe", "b.txt"]);
}

#[test]
fn ordering_ignores_case_of_exe_suffix() {
    let mut db = DbCache::new();
    db.store(entry("C:\\1", "apple.txt", false));
    db.store(entry("C:\\2", "zip.EXE", false));
    db.flush();
    let page = 0u32;
    let found = db.search("", &page);
    assert_eq!(names(&found), vec!["zip.EXE", "apple.txt"]);
}

#[test]
fn query_matches_case_insensitively() {
    let mut db = DbCache::new();
    db.store(entry("C:\\docs", "README.txt", false));
    db.flush();
    assert_eq!(db.count("readme"), 1);
    let page = 0u32;
    let found = db.search("readme", &page);
    assert_eq!(found.len(), 1);
    assert_eq!(found[0].name, "README.txt");
}

#[test]
fn non_matching_rows_are_not_returned() {
    let mut db = DbCache::new();
    db.store(entry("C:\\a", "alpha.txt", false));
    db.store(entry("C:\\b", "beta.txt", false));
    db.flush();
    assert_eq!(db.count("alpha"), 1);
    assert_eq!(db.count("gamma"), 0);
    let page = 0u32;
    assert!(db.search("gamma", &page).is_empty());
}

#[test]
fn pages_are_disjoint_contiguous_slices() {
    let mut db = DbCache::new();
    for i in 0..20 {
        db.store(entry(
            &format!("C:\\d\\file{:02}.txt", i),
            &format!("file{:02}.txt", i),
            false,
        ));
    }
    db.flush();
    let p0 = 0u32;
    let p1 = 1u32;
    let p2 = 2u32;
    let first = db.search("file", &p0);
    let second = db.search("file", &p1);
    let third = db.search("file", &p2);
    assert_eq!(first.len(), 15);
    assert_eq!(second.len(), 5);
    assert_eq!(third.len(), 0);
    let mut all = names(&first);
    all.extend(names(&second));
    let expected: Vec<String> = (0..20).map(|i| format!("file{:02}.txt", i)).collect();
    assert_eq!(all, expected);
    assert_eq!(db.count("file") as usize, first.len() + second.len() + third.len());
}

#[test]
fn remapping_same_entries_changes_nothing() {
    let batch: Vec<FileSystemEntry> = (0..7)
        .map(|i| entry(&format!("C:\\d\\{}", i), &format!("f{}.txt", i), false))
        .collect();
    let mut db = DbCache::new();
    db.store_all(batch.clone());
    db.flush();
    assert_eq!(db.count("f"), 7);
    db.store_all(batch);
    db.flush();
    assert_eq!(db.count("f"), 7);
}

#[test]
fn page_beyond_the_results_is_empty() {
    let mut db = DbCache::new();
    db.store(entry("C:\\a", "a.txt", false));
    db.store(entry("C:\\b", "b.txt", false));
    db.flush();
    let far = 5u32;
    assert!(db.search("", &far).is_empty());
}

#[test]
fn equal_names_are_ordered_by_path() {
    let mut db = DbCache::new();
    db.store(entry("D:\\late", "same.txt", false));
    db.store(entry("A:\\early", "same.txt", false));
    db.flush();
    let page = 0u32;
    let found = db.search("same", &page);
    assert_eq!(found.len(), 2);
    assert_eq!(found[0].path, "A:\\early");
    assert_eq!(found[1].path, "D:\\late");
}

#[test]
fn empty_query_matches_everything() {
    let mut db = DbCache::new();
    db.store(entry("C:\\a", "x.bin", false));
    db.store(entry("C:\\b", "y", true));
    db.flush();
    assert_eq!(db.count(""), 2);
}
