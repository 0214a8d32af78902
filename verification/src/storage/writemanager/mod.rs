//! The write path: memtable, blocks and checkpoints.
pub mod block;
pub mod record;
pub mod pack;
pub mod latest;
pub mod write;
