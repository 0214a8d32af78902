//! The records of the write path.
pub use crate::storage::record::MemtableRecord;
