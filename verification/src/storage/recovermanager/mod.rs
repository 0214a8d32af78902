//! The write-ahead log: its segments, its records and their recovery.
pub mod log_dir;
pub mod log_store;
pub mod raft;
pub mod segment;
pub mod wal;
