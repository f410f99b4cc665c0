use file_search::cache::ResultCache;
use file_search::configuration::SearchConfig;
use file_search::db_cache::FileSystemEntry;
use file_search::disk_parser::{DiskParser, SearchResult, SearchWalk};

fn entry(path: &str, name: &str, is_dir: bool) -> FileSystemEntry {
    FileSystemEntry::new(path.to_string(), name.to_string(), is_dir)
}

#[test]
fn walk_matches_and_descends() {
    let config = SearchConfig::new(
        vec!["Temp".to_string()],
        Some(vec!["C:\\".to_string()]),
    );
    let parser = DiskParser::new(config, ResultCache::new());
    let mut walk = parser
        .begin_search("doc".to_string())
        .expect("include roots are configured");
    let root = walk.next_dir().expect("one root to visit");
    assert_eq!(root, "C:\\");
    walk.feed_listing(vec![
        entry("C:\\Docs", "Docs", true),
        entry("C:\\Temp", "Documents", true),
        entry("C:\\mydoc.txt", "mydoc.txt", false),
        entry("C:\\other.txt", "other.txt", false),
    ]);
    let next = walk.next_dir().expect("subdirectory queued");
    assert_eq!(next, "C:\\Docs");
    assert!(walk.next_dir().is_none());
    let results = walk.into_results();
    assert_eq!(results.len(), 2);
    assert_eq!(results[0].filename, "Docs");
    assert_eq!(results[0].filepath, "C:\\Docs");
    assert_eq!(results[0].filetype, "folder");
    assert_eq!(results[1].filename, "mydoc.txt");
    assert_eq!(results[1].filetype, "file");
}

#[test]
fn excluded_paths_never_reach_the_results() {
    let config = SearchConfig::new(vec!["Temp".to_string()], None);
    let walk_config = SearchConfig::new(vec!["Temp".to_string()], None);
    let parser = DiskParser::new(config, ResultCache::new());
    assert!(parser.begin_search("t".to_string()).is_none());
    let mut walk = SearchWalk::new(
        "temp".to_string(),
        walk_config,
        vec!["C:\\".to_string(), "C:\\Temp".to_string()],
    );
    let first = walk.next_dir().expect("non-excluded root remains");
    assert_eq!(first, "C:\\");
    walk.feed_listing(vec![
        entry("C:\\aTempb.txt", "aTempb.txt", false),
        entry("C:\\template.txt", "template.txt", false),
    ]);
    assert!(walk.next_dir().is_none());
    let results = walk.into_results();
    assert_eq!(results.len(), 1);
    assert_eq!(results[0].filename, "template.txt");
}

#[test]
fn walk_visits_newest_directory_first() {
    let config = SearchConfig::new(vec![], None);
    let mut walk = SearchWalk::new("zzz".to_string(), config, vec!["r".to_string()]);
    let root = walk.next_dir().expect("root");
    assert_eq!(root, "r");
    walk.feed_listing(vec![entry("r\\a", "a", true), entry("r\\b", "b", true)]);
    assert_eq!(walk.next_dir().expect("last pushed first"), "r\\b");
    assert_eq!(walk.next_dir().expect("then the earlier one"), "r\\a");
    assert!(walk.next_dir().is_none());
}

#[test]
fn finish_search_populates_the_cache() {
    let config = SearchConfig::new(vec![], None);
    let mut parser = DiskParser::new(config, ResultCache::new());
    let results = vec![SearchResult::new(
        "hit.txt".to_string(),
        "C:\\hit.txt".to_string(),
        "file".to_string(),
    )];
    parser.finish_search("hit".to_string(), results);
    let cached = parser.cached("hit".to_string()).expect("cache was filled");
    assert_eq!(cached.len(), 1);
    assert_eq!(cached[0].filename, "hit.txt");
    assert!(parser.cached("miss".to_string()).is_none());
}
