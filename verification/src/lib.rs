//! A small clipboard-history library: a bounded, front-deduplicated,
//! most-recent-first store of text snapshots, the polling step that feeds
//! it, and the text format in which it is persisted.

pub mod codec;
pub mod history;
pub mod monitor;
pub mod text;

pub use history::HistoryStore;
pub use history::StoreError;
