//! Replication: the commands, the state machine that applies them, and the pieces
//! of a Raft group.

pub mod command;
pub mod gc_laws;
pub mod log_store;
pub mod membership;
pub mod network;
pub mod snapshot;
pub mod state_machine;
