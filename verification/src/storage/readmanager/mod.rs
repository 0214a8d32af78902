//! The read path.
pub mod range;
pub mod read;
pub mod table;
