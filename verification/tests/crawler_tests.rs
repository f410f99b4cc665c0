use file_search::configuration::SearchConfig;
use file_search::db_cache::{DbCache, FileSystemEntry};
use file_search::disk_mapper::DiskMapper;

fn entry(path: &str, name: &str, is_dir: bool) -> FileSystemEntry {
    FileSystemEntry::new(path.to_string(), name.to_string(), is_dir)
}

#[test]
fn crawl_emits_children_and_skips_excluded_subtrees() {
    let config = SearchConfig::new(vec!["$Recycle".to_string()], None);
    let mut mapper = DiskMapper::new(config, DbCache::new());
    assert!(!mapper.is_mapped());

    let mut crawler = mapper.begin_crawl(vec![entry("C:\\", "C:\\", true)]);
    let disk = crawler.next_dir().expect("the root disk");
    assert_eq!(disk.path, "C:\\");

    let emitted = crawler.feed_listing(vec![
        entry("C:\\Users", "Users", true),
        entry("C:\\$Recycle.Bin", "$Recycle.Bin", true),
        entry("C:\\pagefile.sys", "pagefile.sys", false),
    ]);
    assert_eq!(emitted.len(), 2);
    assert_eq!(emitted[0].name, "Users");
    assert_eq!(emitted[1].name, "pagefile.sys");
    mapper.absorb(emitted);

    let users = crawler.next_dir().expect("Users queued, recycle bin not");
    assert_eq!(users.path, "C:\\Users");
    let emitted = crawler.feed_listing(vec![entry("C:\\Users\\me", "me", true)]);
    assert_eq!(emitted.len(), 1);
    mapper.absorb(emitted);
    assert!(crawler.next_dir().is_some());

    mapper.finish_crawl();
    assert!(mapper.is_mapped());
    let db = mapper.into_index();
    assert_eq!(db.count(""), 3);
    assert_eq!(db.count("$Recycle"), 0);
}

#[test]
fn excluded_roots_are_never_entered() {
    let config = SearchConfig::new(vec!["D:".to_string()], None);
    let mapper = DiskMapper::new(config, DbCache::new());
    let mut crawler = mapper.begin_crawl(vec![
        entry("C:\\", "C:\\", true),
        entry("D:\\", "D:\\", true),
    ]);
    let first = crawler.next_dir().expect("only the clean disk");
    assert_eq!(first.path, "C:\\");
    assert!(crawler.next_dir().is_none());
}
