//! Compaction: merging the tables of a level into the next one.
pub mod compaction;
pub mod merge;
pub mod path;
pub mod span;
