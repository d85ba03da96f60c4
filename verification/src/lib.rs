//! A small search engine over crawled Wikipedia pages: tokenizing, an
//! inverted index of term counts, query planning, phrase counting, crawl
//! bookkeeping, HTML text extraction and the state of the result viewer.
pub mod text;
pub mod indexer;
pub mod term_index;
pub mod search_plan;
pub mod cleaner;
pub mod crawler;
pub mod models;
pub mod results;
pub mod paths;
pub mod config;
