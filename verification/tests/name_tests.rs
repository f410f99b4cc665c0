use file_search::search_result::SearchResult;
use file_search::text::{contains_ignore_case, contains_str, ends_with_exe, lex_cmp};

#[test]
fn file_name_is_what_follows_the_last_backslash() {
    let r = SearchResult::new("C:\\Users\\me\\notes.txt".to_string(), "file".to_string());
    assert_eq!(r.get_file_name(), "notes.txt");
}

#[test]
fn file_name_of_plain_name_is_the_name_itself() {
    let r = SearchResult::new("notes.txt".to_string(), "file".to_string());
    assert_eq!(r.get_file_name(), "notes.txt");
}

#[test]
fn file_name_after_trailing_backslash_is_empty() {
    let r = SearchResult::new("C:\\Users\\".to_string(), "folder".to_string());
    assert_eq!(r.get_file_name(), "");
}

#[test]
fn substring_match_ignores_ascii_case() {
    assert!(contains_ignore_case("README.txt", "readme"));
    assert!(contains_ignore_case("readme.txt", "EAD"));
    assert!(!contains_ignore_case("README.txt", "license"));
    assert!(contains_ignore_case("anything", ""));
}

#[test]
fn plain_substring_match_is_case_sensitive() {
    assert!(contains_str("C:\\Windows\\Temp", "Temp"));
    assert!(!contains_str("C:\\Windows\\temp", "Temp"));
}

#[test]
fn exe_suffix_is_recognized_in_any_case() {
    assert!(ends_with_exe("setup.exe"));
    assert!(ends_with_exe("SETUP.EXE"));
    assert!(!ends_with_exe("setup.exes"));
    assert!(!ends_with_exe("exe"));
    assert!(!ends_with_exe("setupexe"));
}

#[test]
fn lexicographic_comparison_orders_by_code_point() {
    assert_eq!(lex_cmp("a", "b"), -1);
    assert_eq!(lex_cmp("b", "a"), 1);
    assert_eq!(lex_cmp("abc", "abc"), 0);
    assert_eq!(lex_cmp("ab", "abc"), -1);
    assert_eq!(lex_cmp("abc", "ab"), 1);
    assert_eq!(lex_cmp("", ""), 0);
    assert_eq!(lex_cmp("A", "a"), -1);
}
