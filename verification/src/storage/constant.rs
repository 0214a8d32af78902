//! Sizes and marks of the storage formats.
use vstd::prelude::*;

verus! {

/// The number of memtable bytes above which the memtable is flushed.
pub const MEMTABLE_SIZE_THRESHOLD: u64 = 409600;

/// The number of bytes that a block holds at most.
pub const SSTABLE_BLOCK_SIZE: usize = 4096;

/// The number of bytes of a log header.
pub const WAL_HEADER_SIZE: u64 = 36;

/// The mark at the start of a log file: `WALMGIC` and a zero byte.
pub const WAL_MAGIC: [u8; 8] = [87, 65, 76, 77, 71, 73, 67, 0];

/// The version of the log format.
pub const WAL_VERSION: u64 = 1;

/// The number of files that a level holds at most.
pub const MAXIMUM_LEVEL_FILES: usize = 2;

} // verus!
