//! Verified core of an HTML test-log browser: filename grammar, HTML-table
//! log extraction, chunked-download planning, an entry store with stable
//! pagination and filtering, and automatic bookmark synthesis.

pub mod bookmark_utils;
pub mod clock;
pub mod database;
pub mod fetch_plan;
pub mod filtering;
pub mod grouping;
pub mod history;
pub mod http_log_fetcher;
pub mod ingest;
pub mod laws;
pub mod log_parser;
pub mod progress;
pub mod sorting;
pub mod text;
