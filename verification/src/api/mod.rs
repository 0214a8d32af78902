//! The interface of the stores.
pub mod api;
