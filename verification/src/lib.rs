//! A log-structured key-value store: record, block and table formats, the
//! write-ahead log, the manifest, the memtable, compaction and the read path,
//! each with its contract.
pub mod api;
pub mod bytes;
pub mod command;
pub mod config;
pub mod cursor;
pub mod error;
pub mod order;
pub mod repl;
pub mod storage;
pub mod testing;
pub mod text;
