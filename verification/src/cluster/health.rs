//! Readiness of the local node.

use vstd::prelude::*;

verus! {

/// Whether the local node is ready, and why not.
#[derive(Debug, Clone)]
pub struct HealthStatus {
    pub ready: bool,
    pub detail: String,
}

impl HealthStatus {
    /// A node that is ready.
    pub fn ready() -> (r: HealthStatus)
        ensures
            r.ready,
            r.detail@ == "ready"@,
    {
        HealthStatus { ready: true, detail: "ready".to_owned() }
    }

    /// A node that is not ready, for the given reason.
    pub fn not_ready(reason: &str) -> (r: HealthStatus)
        ensures
            !r.ready,
            r.detail@ == reason@,
    {
        HealthStatus { ready: false, detail: reason.to_owned() }
    }
}

/// What the readiness of the local node rests on.
#[derive(Debug, Clone, Copy)]
pub struct NodeState {
    /// The stores of all local groups are open.
    pub groups_open: bool,
    /// Gossip has started.
    pub gossip_started: bool,
    /// The internal transport has started.
    pub transport_started: bool,
    /// The node has joined the cluster.
    pub joined: bool,
    /// The leader of the system group is known.
    pub sys_leader_known: bool,
    /// Enough groups have a leader and a quorum.
    pub enough_groups_led: bool,
}

/// Why a node is not ready: the first condition that does not hold.
pub open spec fn unready(node: NodeState) -> Option<Seq<char>> {
    if !node.groups_open {
        Some("local groups are not open"@)
    } else if !node.gossip_started {
        Some("gossip has not started"@)
    } else if !node.transport_started {
        Some("internal raft transport has not started"@)
    } else if !node.joined {
        Some("node has not joined the cluster"@)
    } else if !node.sys_leader_known {
        Some("system group has no known leader"@)
    } else if !node.enough_groups_led {
        Some("too few groups have a leader and a quorum"@)
    } else {
        None
    }
}

/// Whether the local node is ready to serve: if all of its conditions hold.
pub fn check_ready(node: &NodeState) -> (r: HealthStatus)
    ensures
        r.ready == (node.groups_open && node.gossip_started && node.transport_started && node.joined
            && node.sys_leader_known && node.enough_groups_led),
        r.detail@ == (match unready(*node) {
            Some(reason) => reason,
            None => "ready"@,
        }),
{
    if !node.groups_open {
        HealthStatus::not_ready("local groups are not open")
    } else if !node.gossip_started {
        HealthStatus::not_ready("gossip has not started")
    } else if !node.transport_started {
        HealthStatus::not_ready("internal raft transport has not started")
    } else if !node.joined {
        HealthStatus::not_ready("node has not joined the cluster")
    } else if !node.sys_leader_known {
        HealthStatus::not_ready("system group has no known leader")
    } else if !node.enough_groups_led {
        HealthStatus::not_ready("too few groups have a leader and a quorum")
    } else {
        HealthStatus::ready()
    }
}

} // verus!
