//! The store of one Raft group.

use vstd::prelude::*;
use crate::db::Db;

verus! {

/// The contents of the store of one Raft group.
#[derive(Debug)]
pub struct Store {
    pub db: Db,
}

impl Store {
    pub fn new(db: Db) -> (r: Store)
        ensures
            r.db == db,
    {
        Store { db }
    }
}

/// A node of a Raft group, with its store.
#[derive(Debug)]
pub struct RaftNode {
    pub group_id: u64,
    pub db: Db,
}

impl RaftNode {
    pub fn new(group_id: u64, db: Db) -> (r: RaftNode)
        ensures
            r.group_id == group_id,
            r.db == db,
    {
        RaftNode { group_id, db }
    }
}

} // verus!
