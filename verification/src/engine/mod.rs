//! The lock engine: hierarchical read and write locks with leases, fencing,
//! preemption claims and deadlock detection, over a store transaction.

pub mod command_laws;
pub mod conflict;
pub mod deadlock_laws;
pub mod dump;
pub mod edge;
pub mod effect_laws;
pub mod index_laws;
pub mod laws;
pub mod lease_laws;
pub mod ops;
pub mod order_laws;
pub mod outcome_laws;
pub mod path;
pub mod places;
pub mod query;
pub mod query_laws;
pub mod record_laws;
pub mod refusal_laws;
pub mod steps;
pub mod success_laws;
pub mod tenure_laws;
pub mod types;

pub use conflict::is_owner_alive_inner;
pub use dump::dump_locks_inner;
pub use ops::{
    acquire_inner, clear_wait_edge_inner, force_release_inner, release_all_inner, release_inner,
    renew_inner, set_claim_inner, set_wait_edge_inner,
};
pub use path::get_ancestors;
pub use query::{
    assert_fencing_inner, detect_cycle_inner, inspect_path_inner, is_blocking_inner,
    list_owner_locks_inner,
};
pub use types::{
    AcquireArgs, AcquireOutcome, AssertOutcome, CycleOutcome, LockDumpEntry, LockDumpPage, LockReq,
    Mode, OwnedLock, PathInfo, Reason, RelReq, RenewOutcome, State, WaitEdgeMetadata,
    REASON_PREEMPT_CLAIMED,
};
