//! The storage engine.
pub mod checksum;
pub mod keyed;
pub mod record;
pub mod constant;
pub mod header;
pub mod writemanager;
pub mod block;
pub mod keymap;
pub mod bloom;
pub mod footer;
pub mod index;
pub mod log_format;
pub mod memtable;
pub mod sstable_codec;
pub mod readmanager;
pub mod manifest_codec;
pub mod manifest_state;
pub mod compactionmanager;
pub mod recovermanager;
pub mod log_header;
pub mod wal;
pub mod timed_table;
pub mod clock;
pub mod flush;
pub mod sstable;
pub mod compaction;
pub mod signal;
pub mod levelstore;
pub mod watcher;
pub mod kv;
pub mod config;
pub mod raft;
pub mod kv2;
pub mod durable;
pub mod history;
pub mod upkeep;
