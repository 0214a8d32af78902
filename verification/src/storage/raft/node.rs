//! Settings of a node.
use vstd::prelude::*;

verus! {

/// Settings of a node of a cluster.
#[derive(Debug)]
pub struct RaftNodeConfig {
    /// The number of the node.
    pub node_id: u64,
    /// The other nodes: number and `host:port`.
    pub peers: Vec<(u64, String)>,
    /// The address on which the node can be reached.
    pub http_bind: String,
    /// The directory of its log and its vote.
    pub raft_dir: String,
}

} // verus!
