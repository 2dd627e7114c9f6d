//! Changes of the membership of a Raft group.

use vstd::prelude::*;

verus! {

/// The membership of one Raft group.
#[derive(Debug, Clone)]
pub struct MembershipManager {
    pub group_id: u64,
}

impl MembershipManager {
    pub fn new(group_id: u64) -> (r: MembershipManager)
        ensures
            r.group_id == group_id,
    {
        MembershipManager { group_id }
    }
}

} // verus!
