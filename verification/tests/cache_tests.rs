use file_search::cache::ResultCache;
use file_search::disk_parser::SearchResult;

fn result(filename: &str, filepath: &str, filetype: &str) -> SearchResult {
    SearchResult::new(
        filename.to_string(),
        filepath.to_string(),
        filetype.to_string(),
    )
}

#[test]
fn set_then_get_returns_exactly_what_was_set() {
    let mut cache = ResultCache::new();
    cache.set(
        "foo".to_string(),
        vec![result("a.txt", "C:\\a.txt", "file"), result("b", "C:\\b", "folder")],
    );
    let got = cache.get("foo".to_string()).expect("entry was just set");
    assert_eq!(got.len(), 2);
    assert_eq!(got[0].filename, "a.txt");
    assert_eq!(got[0].filepath, "C:\\a.txt");
    assert_eq!(got[0].filetype, "file");
    assert_eq!(got[1].filename, "b");
    assert_eq!(got[1].filetype, "folder");
}

#[test]
fn missing_key_returns_none() {
    let cache = ResultCache::new();
    assert!(cache.get("nothing".to_string()).is_none());
}

#[test]
fn set_replaces_earlier_entry_for_same_query() {
    let mut cache = ResultCache::new();
    cache.set("q".to_string(), vec![result("old.txt", "C:\\old.txt", "file")]);
    cache.set("q".to_string(), vec![result("new.txt", "C:\\new.txt", "file")]);
    let got = cache.get("q".to_string()).expect("entry present");
    assert_eq!(got.len(), 1);
    assert_eq!(got[0].filename, "new.txt");
}

#[test]
fn other_entries_survive_a_set() {
    let mut cache = ResultCache::new();
    cache.set("one".to_string(), vec![result("1.txt", "C:\\1.txt", "file")]);
    cache.set("two".to_string(), vec![result("2.txt", "C:\\2.txt", "file")]);
    let got = cache.get("one".to_string()).expect("still present");
    assert_eq!(got[0].filename, "1.txt");
}

#[test]
fn snapshot_survives_a_simulated_restart() {
    let mut cache = ResultCache::new();
    cache.set("foo".to_string(), vec![result("r.txt", "C:\\r.txt", "file")]);
    cache.set("bar".to_string(), vec![]);
    let snapshot = cache.entries().clone();
    let reloaded = ResultCache::from_entries(snapshot);
    let got = reloaded.get("foo".to_string()).expect("reloaded entry");
    assert_eq!(got.len(), 1);
    assert_eq!(got[0].filename, "r.txt");
    assert_eq!(got[0].filepath, "C:\\r.txt");
    let empty = reloaded.get("bar".to_string()).expect("reloaded empty list");
    assert!(empty.is_empty());
    assert!(reloaded.get("baz".to_string()).is_none());
}
