//! A local file-search engine: a crawler discovers filesystem entries,
//! a persistent index deduplicates and stores them and answers paginated
//! substring queries, and a query-result cache remembers past searches.

pub mod cache;
pub mod configuration;
pub mod db_cache;
pub mod disk_mapper;
pub mod disk_parser;
pub mod search_result;
pub mod text;
