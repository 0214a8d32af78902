//! The part of the consensus layer that does not depend on the network.
pub mod log_store;
pub mod network;
pub mod node;
pub mod state_machine;
pub use node::RaftNodeConfig;
