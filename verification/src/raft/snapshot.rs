//! Snapshots of a Raft group.

use vstd::prelude::*;

verus! {

/// What a snapshot of a group holds: the last log entry that it takes in.
#[derive(Debug, Clone, Copy, PartialEq, Eq, Structural)]
pub struct SnapshotData {
    pub last_applied: Option<u64>,
}

/// A snapshot that can be installed on a follower.
#[derive(Debug, Clone, Copy, PartialEq, Eq, Structural)]
pub struct Snapshot {
    pub group_id: u64,
    pub data: SnapshotData,
}

} // verus!
