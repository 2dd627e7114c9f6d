//! The transport between the nodes of a Raft group.

use vstd::prelude::*;

verus! {

/// The transport of one node.
#[derive(Debug, Clone)]
pub struct RaftNetwork {
    pub node_id: u64,
}

impl RaftNetwork {
    pub fn new(node_id: u64) -> (r: RaftNetwork)
        ensures
            r.node_id == node_id,
    {
        RaftNetwork { node_id }
    }
}

} // verus!
