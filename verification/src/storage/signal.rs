//! What the plain store hands to its background work.
use vstd::prelude::*;
use crate::storage::memtable::PlainMemtable;

verus! {

/// A memtable that has to be flushed.
pub struct FlushSignal {
    /// The memtable.
    pub value: PlainMemtable,
    /// The file that it was logged in.
    pub wal_path: String,
    /// The number of the table.
    pub file_id: u64,
}

/// Tables that have to be merged.
pub struct CompactionSignal {
    /// The files of the tables.
    pub files_to_compact: Vec<String>,
    /// Their level.
    pub compaction_level: u32,
    /// The number of the merged table.
    pub file_id: u64,
}

} // verus!
