//! The lock engine, driven through the state machine.

use pathlockd::db::{Cell, Db};
use pathlockd::engine::{
    AcquireArgs, AcquireOutcome, AssertOutcome, CycleOutcome, LockReq, Mode, RelReq, RenewOutcome,
    State, WaitEdgeMetadata,
};
use pathlockd::raft::command::{ApplyResponse, Command, Op};
use pathlockd::raft::state_machine;
use pathlockd::raft::state_machine::RocksDbStoreTxn;
use pathlockd::store_keys;
use pathlockd::store_keys::Cf;
use pathlockd::store_rocksdb::{RocksDbTxn, StoreError, StoreTxn, StoredRecord};

const NOW: u64 = 1_700_000_000_000;

fn apply(db: &mut Db, cmd: Command) -> ApplyResponse {
    state_machine::apply(db, &cmd).unwrap()
}

fn wr(path: &str) -> LockReq {
    LockReq { path: path.to_string(), mode: Mode::Write, state: State::New }
}

fn wr_held(path: &str) -> LockReq {
    LockReq { path: path.to_string(), mode: Mode::Write, state: State::Held }
}

fn rd(path: &str) -> LockReq {
    LockReq { path: path.to_string(), mode: Mode::Read, state: State::New }
}

fn rd_held(path: &str) -> LockReq {
    LockReq { path: path.to_string(), mode: Mode::Read, state: State::Held }
}

fn rel(path: &str, mode: Mode) -> RelReq {
    RelReq { path: path.to_string(), mode }
}

fn acquire_args(owner: &str, ttl_ms: u64, fence_token: i64, reqs: Vec<LockReq>) -> AcquireArgs {
    AcquireArgs { owner_id: owner.to_string(), ttl_ms, requests: reqs, fencing_token: fence_token, release_requests: vec![] }
}

#[test]
fn acquire_root_write_succeeds() {
    let mut db = Db::new();
    let now = NOW;
    let cmd = Command {
        request_id: None,
        now_ms: now,
        op: Op::Acquire(acquire_args("alice", 30_000, 1, vec![wr("h:/")])),
    };
    let resp = apply(&mut db, cmd);
    assert!(matches!(resp, ApplyResponse::Acquire(AcquireOutcome::Granted)));
}

#[test]
fn acquire_rejects_ancestor_write_block() {
    let mut db = Db::new();
    let now = NOW;

    // Alice locks root
    let cmd = Command {
        request_id: None, now_ms: now,
        op: Op::Acquire(acquire_args("alice", 60_000, 1, vec![wr("h:/")])),
    };
    assert!(matches!(apply(&mut db, cmd), ApplyResponse::Acquire(AcquireOutcome::Granted)));

    // Bob tries to lock a descendant
    let cmd = Command {
        request_id: None, now_ms: now + 1,
        op: Op::Acquire(acquire_args("bob", 30_000, 2, vec![wr("h:/a")])),
    };
    match apply(&mut db, cmd) {
        ApplyResponse::Acquire(AcquireOutcome::Conflict { path, owner, reason }) => {
            assert_eq!(path, "h:/");
            assert_eq!(owner, "alice");
            assert_eq!(reason, "ancestor_locked");
        }
        other => panic!("expected Conflict, got {:?}", other),
    }
}

#[test]
fn descendant_write_rejects_ancestor_write_acquire() {
    let mut db = Db::new();
    let now = NOW;

    // Alice locks a descendant
    apply(&mut db, Command {
        request_id: None, now_ms: now,
        op: Op::Acquire(acquire_args("alice", 60_000, 1, vec![wr("h:/a/b")])),
    });

    // Bob tries to lock ancestor
    let resp = apply(&mut db, Command {
        request_id: None, now_ms: now + 1,
        op: Op::Acquire(acquire_args("bob", 30_000, 2, vec![wr("h:/a")])),
    });
    match resp {
        ApplyResponse::Acquire(AcquireOutcome::Conflict { path, owner, reason }) => {
            assert_eq!(owner, "alice");
            assert!(reason.contains("descendant"));
            assert!(path.starts_with("h:/a"));
        }
        other => panic!("expected Conflict, got {:?}", other),
    }
}

#[test]
fn read_write_share_if_same_path() {
    let mut db = Db::new();
    let now = NOW;

    // Alice gets a read lock
    apply(&mut db, Command {
        request_id: None, now_ms: now,
        op: Op::Acquire(acquire_args("alice", 60_000, 0, vec![rd("h:/a")])),
    });

    // Bob gets a read lock on same path
    let resp = apply(&mut db, Command {
        request_id: None, now_ms: now + 1,
        op: Op::Acquire(acquire_args("bob", 60_000, 0, vec![rd("h:/a")])),
    });
    assert!(matches!(resp, ApplyResponse::Acquire(AcquireOutcome::Granted)));

    // Carol tries a write → conflict (read_locked)
    let resp = apply(&mut db, Command {
        request_id: None, now_ms: now + 2,
        op: Op::Acquire(acquire_args("carol", 30_000, 3, vec![wr("h:/a")])),
    });
    match resp {
        ApplyResponse::Acquire(AcquireOutcome::Conflict { reason, .. }) => {
            assert_eq!(reason, "read_locked");
        }
        other => panic!("expected Conflict, got {:?}", other),
    }
}

#[test]
fn reads_are_point_only() {
    let mut db = Db::new();
    let now = NOW;

    // Alice writes descendant
    apply(&mut db, Command {
        request_id: None, now_ms: now,
        op: Op::Acquire(acquire_args("alice", 60_000, 1, vec![wr("h:/a/b/c")])),
    });

    // Bob reads ancestor → succeeds (point-only read)
    let resp = apply(&mut db, Command {
        request_id: None, now_ms: now + 1,
        op: Op::Acquire(acquire_args("bob", 30_000, 0, vec![rd("h:/a")])),
    });
    assert!(matches!(resp, ApplyResponse::Acquire(AcquireOutcome::Granted)));
}

#[test]
fn ancestor_write_blocked_by_descendant_read() {
    let mut db = Db::new();
    let now = NOW;

    // Alice holds a read lock on a descendant.
    apply(&mut db, Command {
        request_id: None, now_ms: now,
        op: Op::Acquire(acquire_args("alice", 60_000, 0, vec![rd("h:/a/b/c")])),
    });

    // Bob tries to write-lock an ancestor → must conflict on the descendant read.
    let resp = apply(&mut db, Command {
        request_id: None, now_ms: now + 1,
        op: Op::Acquire(acquire_args("bob", 30_000, 1, vec![wr("h:/a")])),
    });
    match resp {
        ApplyResponse::Acquire(AcquireOutcome::Conflict { path, owner, reason }) => {
            assert_eq!(path, "h:/a/b/c");
            assert_eq!(owner, "alice");
            assert_eq!(reason, "descendant_read_locked");
        }
        other => panic!("expected descendant_read_locked conflict, got {other:?}"),
    }

    // After Alice releases, Bob's ancestor write succeeds.
    apply(&mut db, Command {
        request_id: None, now_ms: now + 2,
        op: Op::Release { owner: "alice".into(), reqs: vec![rel("h:/a/b/c", Mode::Read)], del_wait: false },
    });
    let resp = apply(&mut db, Command {
        request_id: None, now_ms: now + 3,
        op: Op::Acquire(acquire_args("bob", 30_000, 1, vec![wr("h:/a")])),
    });
    assert!(matches!(resp, ApplyResponse::Acquire(AcquireOutcome::Granted)));
}

#[test]
fn combined_acquire_and_release_keeps_owner_alive() {
    // An owner whose prior lease has lapsed issues one op that acquires a new
    // lock while inline-releasing the (now expired) old one. The acquired lock's
    // ALIVE marker must survive.
    let mut db = Db::new();
    let now = NOW;

    // Alice holds /old with a 1ms TTL — expires almost immediately.
    apply(&mut db, Command {
        request_id: None, now_ms: now,
        op: Op::Acquire(acquire_args("alice", 1, 1, vec![wr("h:/old")])),
    });

    // After expiry, acquire /new and inline-release /old in a single op.
    let args = AcquireArgs {
        owner_id: "alice".into(), ttl_ms: 30_000, fencing_token: 2,
        requests: vec![wr("h:/new")],
        release_requests: vec![rel("h:/old", Mode::Write)],
    };
    let resp = apply(&mut db, Command { request_id: None, now_ms: now + 2, op: Op::Acquire(args) });
    assert!(matches!(resp, ApplyResponse::Acquire(AcquireOutcome::Granted)));

    // Alice must still be alive and own /new.
    let mut txn = pathlockd::store_rocksdb::RocksDbTxn::new(&db, now + 3);
    assert!(pathlockd::engine::is_owner_alive_inner(&mut txn, "alice").unwrap(), "owner lost liveness after combined acquire/release");
    let info = pathlockd::engine::inspect_path_inner(&mut txn, "h:/new").unwrap();
    assert_eq!(info.write_owner.as_deref(), Some("alice"));
}

#[test]
fn release_unlocks_path() {
    let mut db = Db::new();
    let now = NOW;

    // Alice locks root
    apply(&mut db, Command {
        request_id: None, now_ms: now,
        op: Op::Acquire(acquire_args("alice", 60_000, 1, vec![wr("h:/a")])),
    });

    // Alice releases
    apply(&mut db, Command {
        request_id: None, now_ms: now + 1,
        op: Op::Release { owner: "alice".into(), reqs: vec![rel("h:/a", Mode::Write)], del_wait: false },
    });

    // Bob can now acquire
    let resp = apply(&mut db, Command {
        request_id: None, now_ms: now + 2,
        op: Op::Acquire(acquire_args("bob", 30_000, 2, vec![wr("h:/a")])),
    });
    assert!(matches!(resp, ApplyResponse::Acquire(AcquireOutcome::Granted)));
}

#[test]
fn release_all_clears_everything() {
    let mut db = Db::new();
    let now = NOW;

    // Alice acquires two locks
    let args = AcquireArgs {
        owner_id: "alice".into(),
        ttl_ms: 60_000,
        fencing_token: 1,
        requests: vec![wr("h:/a"), rd("h:/b")],
        release_requests: vec![],
    };
    apply(&mut db, Command { request_id: None, now_ms: now, op: Op::Acquire(args) });

    // Release all
    apply(&mut db, Command {
        request_id: None, now_ms: now + 1,
        op: Op::ReleaseAll { owner: "alice".into(), del_wait: true },
    });

    // Bob can acquire both
    for path in &["h:/a", "h:/b"] {
        let args = acquire_args("bob", 30_000, 2, vec![wr(path)]);
        let resp = apply(&mut db, Command { request_id: None, now_ms: now + 2, op: Op::Acquire(args) });
        assert!(matches!(resp, ApplyResponse::Acquire(AcquireOutcome::Granted)), "failed on {path}");
    }
}

#[test]
fn renew_extends_lease() {
    let mut db = Db::new();
    let now = NOW;

    // Alice acquires
    apply(&mut db, Command {
        request_id: None, now_ms: now,
        op: Op::Acquire(acquire_args("alice", 5_000, 1, vec![wr("h:/a")])),
    });

    // After 4s, renew succeeds
    let resp = apply(&mut db, Command {
        request_id: None, now_ms: now + 4_000,
        op: Op::Renew { owner: "alice".into(), ttl_ms: 30_000 },
    });
    assert!(matches!(resp, ApplyResponse::Renew(RenewOutcome::Renewed)));

    // Alice still holds after original lease would have expired
    let args = AcquireArgs {
        owner_id: "alice".into(), ttl_ms: 10_000, fencing_token: 2,
        requests: vec![wr_held("h:/a")],
        release_requests: vec![],
    };
    let resp = apply(&mut db, Command {
        request_id: None, now_ms: now + 6_000,
        op: Op::Acquire(args),
    });
    assert!(matches!(resp, ApplyResponse::Acquire(AcquireOutcome::Granted)));
}

#[test]
fn renew_lost_when_owner_expired() {
    let mut db = Db::new();
    let now = NOW;

    // Alice acquires with 5s TTL
    apply(&mut db, Command {
        request_id: None, now_ms: now,
        op: Op::Acquire(acquire_args("alice", 5_000, 1, vec![wr("h:/a")])),
    });

    // After 10s, renew returns Lost
    let resp = apply(&mut db, Command {
        request_id: None, now_ms: now + 10_000,
        op: Op::Renew { owner: "alice".into(), ttl_ms: 30_000 },
    });
    assert!(matches!(resp, ApplyResponse::Renew(RenewOutcome::Lost { .. })));
}

#[test]
fn force_release_clears_owner() {
    let mut db = Db::new();
    let now = NOW;

    // Alice locks
    apply(&mut db, Command {
        request_id: None, now_ms: now,
        op: Op::Acquire(acquire_args("alice", 60_000, 1, vec![wr("h:/a")])),
    });

    // Force-release alice
    apply(&mut db, Command {
        request_id: None, now_ms: now + 1,
        op: Op::ForceRelease { victim: "alice".into() },
    });

    // Bob can now acquire
    let resp = apply(&mut db, Command {
        request_id: None, now_ms: now + 2,
        op: Op::Acquire(acquire_args("bob", 30_000, 2, vec![wr("h:/a")])),
    });
    assert!(matches!(resp, ApplyResponse::Acquire(AcquireOutcome::Granted)));
}

#[test]
fn assert_fencing_validates_ownership() {
    let mut db = Db::new();
    let now = NOW;

    // Alice acquires write
    apply(&mut db, Command {
        request_id: None, now_ms: now,
        op: Op::Acquire(acquire_args("alice", 60_000, 1, vec![wr("h:/a")])),
    });

    // Read-only check via StoreTxn
    let mut txn = pathlockd::store_rocksdb::RocksDbTxn::new(&db, now + 1);
    let outcome = pathlockd::engine::assert_fencing_inner(&mut txn, "alice", 1, &vec!["h:/a".to_string()]).unwrap();
    assert_eq!(outcome, AssertOutcome::Held);

    // Wrong owner
    let outcome = pathlockd::engine::assert_fencing_inner(&mut txn, "bob", 1, &vec!["h:/a".to_string()]).unwrap();
    assert_eq!(outcome, AssertOutcome::Fail { path: "h:/a".to_string(), reason: "stale_owner".to_string() });
}

#[test]
fn fencing_token_rejects_stale_token() {
    let mut db = Db::new();
    let now = NOW;

    // Alice acquires with token 10
    apply(&mut db, Command {
        request_id: None, now_ms: now,
        op: Op::Acquire(acquire_args("alice", 60_000, 10, vec![wr("h:/a")])),
    });

    // Alice tries to re-acquire with token 5 → stale
    let args = AcquireArgs {
        owner_id: "alice".into(), ttl_ms: 60_000, fencing_token: 5,
        requests: vec![wr_held("h:/a")],
        release_requests: vec![],
    };
    let resp = apply(&mut db, Command { request_id: None, now_ms: now + 1, op: Op::Acquire(args) });
    match resp {
        ApplyResponse::Acquire(AcquireOutcome::Conflict { reason, .. }) => {
            assert_eq!(reason, "stale_fencing_token");
        }
        other => panic!("expected Conflict, got {:?}", other),
    }
}

#[test]
fn incr_fencing_token_is_monotonic() {
    let mut db = Db::new();
    let now = NOW;

    let t1 = match apply(&mut db, Command { request_id: None, now_ms: now, op: Op::IncrFence }) {
        ApplyResponse::IncrFence(t) => t,
        other => panic!("expected IncrFence, got {:?}", other),
    };
    let t2 = match apply(&mut db, Command { request_id: None, now_ms: now + 1, op: Op::IncrFence }) {
        ApplyResponse::IncrFence(t) => t,
        other => panic!("expected IncrFence, got {:?}", other),
    };
    assert!(t2 > t1);
}

#[test]
fn dead_owner_pruning_unblocks_contender() {
    let mut db = Db::new();
    let now = NOW;
    // Alice locks with 1ms TTL → expires immediately at now + 1
    apply(&mut db, Command {
        request_id: None, now_ms: now,
        op: Op::Acquire(acquire_args("alice", 1, 1, vec![wr("h:/a")])),
    });

    // After TTL lapses, Bob acquires → engine prunes dead Alice and succeeds
    let resp = apply(&mut db, Command {
        request_id: None, now_ms: now + 2,
        op: Op::Acquire(acquire_args("bob", 30_000, 2, vec![wr("h:/a")])),
    });
    assert!(matches!(resp, ApplyResponse::Acquire(AcquireOutcome::Granted)));
}

#[test]
fn set_claim_blocks_other_owners() {
    let mut db = Db::new();
    let now = NOW;

    // Make Alice alive so her claim is valid
    apply(&mut db, Command {
        request_id: None, now_ms: now,
        op: Op::Acquire(acquire_args("alice", 60_000, 1, vec![wr("h:/unrelated")])),
    });

    // Alice plants a claim on h:/a
    apply(&mut db, Command {
        request_id: None, now_ms: now,
        op: Op::SetClaim { path: "h:/a".into(), claimant: "alice".into(), ttl_ms: 5_000 },
    });

    // Bob tries to acquire → conflict (preempt_claimed)
    let resp = apply(&mut db, Command {
        request_id: None, now_ms: now + 1,
        op: Op::Acquire(acquire_args("bob", 30_000, 2, vec![wr("h:/a")])),
    });
    match resp {
        ApplyResponse::Acquire(AcquireOutcome::Conflict { reason, .. }) => {
            assert_eq!(reason, "preempt_claimed");
        }
        other => panic!("expected Conflict, got {:?}", other),
    }

    // Alice acquires over her own claim → succeeds (claim consumed)
    let resp = apply(&mut db, Command {
        request_id: None, now_ms: now + 2,
        op: Op::Acquire(acquire_args("alice", 30_000, 3, vec![wr("h:/a")])),
    });
    assert!(matches!(resp, ApplyResponse::Acquire(AcquireOutcome::Granted)));
}

#[test]
fn wait_edge_cycle_detection() {
    let mut db = Db::new();
    let now = NOW;

    // Give both a and b alive keys so the cycle walk succeeds
    apply(&mut db, Command {
        request_id: None, now_ms: now,
        op: Op::Acquire(acquire_args("a", 60_000, 1, vec![wr("h:/x")])),
    });
    apply(&mut db, Command {
        request_id: None, now_ms: now,
        op: Op::Acquire(acquire_args("b", 60_000, 2, vec![wr("h:/y")])),
    });

    // Owner A waits on B
    let meta = WaitEdgeMetadata { conflict_path: "h:/x".into(), reason: "write_locked".into() };
    apply(&mut db, Command {
        request_id: None, now_ms: now,
        op: Op::SetWaitEdge {
            owner: "a".into(),
            edge: pathlockd::raft::command::WaitEdge { conflict_owner: "b".into(), metadata: Some(meta.clone()) },
            ttl_ms: 60_000,
        },
    });

    // Owner B waits on A (cycle)
    apply(&mut db, Command {
        request_id: None, now_ms: now,
        op: Op::SetWaitEdge {
            owner: "b".into(),
            edge: pathlockd::raft::command::WaitEdge { conflict_owner: "a".into(), metadata: Some(meta) },
            ttl_ms: 60_000,
        },
    });

    // With alive owners, verify the wait edges via is_blocking
    let mut txn = pathlockd::store_rocksdb::RocksDbTxn::new(&db, now + 1);
    assert!(pathlockd::engine::is_blocking_inner(
        &mut txn, "h:/x", "a", "write_locked"
    ).unwrap());
    let mut txn = pathlockd::store_rocksdb::RocksDbTxn::new(&db, now + 1);
    assert!(pathlockd::engine::is_blocking_inner(
        &mut txn, "h:/y", "b", "write_locked"
    ).unwrap());
}

#[test]
fn gc_sweep_cleans_expiry_entries() {
    let mut db = Db::new();
    let now = NOW;

    // Acquire with short TTL
    apply(&mut db, Command {
        request_id: None, now_ms: now,
        op: Op::Acquire(acquire_args("alice", 100, 1, vec![wr("h:/a")])),
    });

    // GC sweep after TTL
    apply(&mut db, Command {
        request_id: None, now_ms: now + 200,
        op: Op::GcSweep { now_ms: now + 200, batch: 1024 },
    });

    // Alice's lock should now be treated as expired (lazy expiry)
    let mut txn = pathlockd::store_rocksdb::RocksDbTxn::new(&db, now + 201);
    let alive = pathlockd::engine::is_owner_alive_inner(&mut txn, "alice").unwrap();
    assert!(!alive, "owner should be expired after TTL + GC");
}

#[test]
fn inline_release_shadows_acquired_paths() {
    let mut db = Db::new();
    let now = NOW;

    // Alice locks /a and /a/b
    let args = AcquireArgs {
        owner_id: "alice".into(), ttl_ms: 60_000, fencing_token: 1,
        requests: vec![wr("h:/a"), wr("h:/a/b")],
        release_requests: vec![],
    };
    apply(&mut db, Command { request_id: None, now_ms: now, op: Op::Acquire(args) });

    // Alice does an acquire with only release_requests: releases /a/b atomically
    // while keeping /a. This tests that inline-release within acquire works.
    let args = AcquireArgs {
        owner_id: "alice".into(), ttl_ms: 60_000, fencing_token: 1,
        requests: vec![],
        release_requests: vec![rel("h:/a/b", Mode::Write)],
    };
    let resp = apply(&mut db, Command { request_id: None, now_ms: now + 1, op: Op::Acquire(args) });
    assert!(matches!(resp, ApplyResponse::Acquire(AcquireOutcome::Granted)));

    // Bob cannot acquire /a/b because ancestor /a is still locked by Alice
    let resp = apply(&mut db, Command {
        request_id: None, now_ms: now + 2,
        op: Op::Acquire(acquire_args("bob", 30_000, 2, vec![wr("h:/a/b")])),
    });
    assert!(matches!(resp, ApplyResponse::Acquire(AcquireOutcome::Conflict { .. })));

    // Alice now releases /a too
    apply(&mut db, Command {
        request_id: None, now_ms: now + 3,
        op: Op::Release { owner: "alice".into(), reqs: vec![rel("h:/a", Mode::Write)], del_wait: false },
    });

    // Now Bob can acquire /a/b
    let resp = apply(&mut db, Command {
        request_id: None, now_ms: now + 4,
        op: Op::Acquire(acquire_args("bob", 30_000, 3, vec![wr("h:/a/b")])),
    });
    assert!(matches!(resp, ApplyResponse::Acquire(AcquireOutcome::Granted)), "Bob should acquire after Alice releases ancestor");
}

#[test]
fn disjoint_handlers_dont_conflict() {
    let mut db = Db::new();
    let now = NOW;

    // Alice locks google_drive:/
    apply(&mut db, Command {
        request_id: None, now_ms: now,
        op: Op::Acquire(acquire_args("alice", 60_000, 1, vec![wr("google_drive:/")])),
    });

    // Bob locks s3:/ — different domain, no conflict
    let resp = apply(&mut db, Command {
        request_id: None, now_ms: now + 1,
        op: Op::Acquire(acquire_args("bob", 30_000, 2, vec![wr("s3:/")])),
    });
    assert!(matches!(resp, ApplyResponse::Acquire(AcquireOutcome::Granted)));
}

#[test]
fn multi_domain_acquire_is_rejected() {
    // This is tested at the router level, not the state machine.
    // The state machine accepts it (it doesn't check domains).
    // The router checks domains before routing.
    let mut db = Db::new();
    let now = NOW;

    // But the state machine itself should process multi-domain requests fine
    // (the router enforces single-domain)
    let args = AcquireArgs {
        owner_id: "alice".into(), ttl_ms: 60_000, fencing_token: 1,
        requests: vec![wr("h:/a")],
        release_requests: vec![],
    };
    let resp = apply(&mut db, Command { request_id: None, now_ms: now, op: Op::Acquire(args) });
    assert!(matches!(resp, ApplyResponse::Acquire(AcquireOutcome::Granted)));
}

#[test]
fn is_blocking_detects_write_block() {
    let mut db = Db::new();
    let now = NOW;

    // Alice locks
    apply(&mut db, Command {
        request_id: None, now_ms: now,
        op: Op::Acquire(acquire_args("alice", 60_000, 1, vec![wr("h:/a")])),
    });

    let mut txn = pathlockd::store_rocksdb::RocksDbTxn::new(&db, now + 1);
    assert!(pathlockd::engine::is_blocking_inner(&mut txn, "h:/a", "alice", "write_locked").unwrap());
    assert!(!pathlockd::engine::is_blocking_inner(&mut txn, "h:/a", "bob", "write_locked").unwrap());
}

#[test]
fn is_blocking_detects_read_block() {
    let mut db = Db::new();
    let now = NOW;

    // Alice gets a read lock
    apply(&mut db, Command {
        request_id: None, now_ms: now,
        op: Op::Acquire(acquire_args("alice", 60_000, 0, vec![rd("h:/a")])),
    });

    let mut txn = pathlockd::store_rocksdb::RocksDbTxn::new(&db, now + 1);
    assert!(pathlockd::engine::is_blocking_inner(&mut txn, "h:/a", "alice", "read_locked").unwrap());
}

#[test]
fn renew_lost_does_not_extend_liveness() {
    let mut db = Db::new();
    let now = NOW;

    // Alice locks with 1ms → expires immediately
    apply(&mut db, Command {
        request_id: None, now_ms: now,
        op: Op::Acquire(acquire_args("alice", 1, 1, vec![wr("h:/a")])),
    });

    // Renew returns Lost after TTL
    let resp = apply(&mut db, Command {
        request_id: None, now_ms: now + 2,
        op: Op::Renew { owner: "alice".into(), ttl_ms: 30_000 },
    });
    assert!(matches!(resp, ApplyResponse::Renew(RenewOutcome::Lost { .. })));

    // Bob can acquire
    let resp = apply(&mut db, Command {
        request_id: None, now_ms: now + 3,
        op: Op::Acquire(acquire_args("bob", 30_000, 2, vec![wr("h:/a")])),
    });
    assert!(matches!(resp, ApplyResponse::Acquire(AcquireOutcome::Granted)));
}

#[test]
fn expired_read_owner_is_pruned() {
    let mut db = Db::new();
    let now = NOW;

    // Alice gets a read lock with 1ms TTL
    apply(&mut db, Command {
        request_id: None, now_ms: now,
        op: Op::Acquire(acquire_args("alice", 1, 0, vec![rd("h:/a")])),
    });

    // After expiry, Bob gets a write → dead read owner pruned
    let resp = apply(&mut db, Command {
        request_id: None, now_ms: now + 2,
        op: Op::Acquire(acquire_args("bob", 30_000, 1, vec![wr("h:/a")])),
    });
    assert!(matches!(resp, ApplyResponse::Acquire(AcquireOutcome::Granted)));
}

// ---------------------------------------------------------------------------
// Writes block reads on the same path and below
// ---------------------------------------------------------------------------

#[test]
fn read_blocked_by_ancestor_write() {
    let mut db = Db::new();
    let now = NOW;

    // Alice writes ancestor
    apply(&mut db, Command {
        request_id: None, now_ms: now,
        op: Op::Acquire(acquire_args("alice", 60_000, 1, vec![wr("h:/a")])),
    });

    // Bob tries to read a descendant → ancestor write blocks it
    let resp = apply(&mut db, Command {
        request_id: None, now_ms: now + 1,
        op: Op::Acquire(acquire_args("bob", 30_000, 0, vec![rd("h:/a/b")])),
    });
    match resp {
        ApplyResponse::Acquire(AcquireOutcome::Conflict { path, owner, reason }) => {
            assert_eq!(path, "h:/a");
            assert_eq!(owner, "alice");
            assert_eq!(reason, "ancestor_locked");
        }
        other => panic!("expected ancestor_locked, got {:?}", other),
    }
}

#[test]
fn read_blocked_by_self_write() {
    let mut db = Db::new();
    let now = NOW;

    // Alice writes a path
    apply(&mut db, Command {
        request_id: None, now_ms: now,
        op: Op::Acquire(acquire_args("alice", 60_000, 1, vec![wr("h:/a")])),
    });

    // Bob tries to read the same path → write_locked
    let resp = apply(&mut db, Command {
        request_id: None, now_ms: now + 1,
        op: Op::Acquire(acquire_args("bob", 30_000, 0, vec![rd("h:/a")])),
    });
    match resp {
        ApplyResponse::Acquire(AcquireOutcome::Conflict { path, owner, reason }) => {
            assert_eq!(path, "h:/a");
            assert_eq!(owner, "alice");
            assert_eq!(reason, "write_locked");
        }
        other => panic!("expected write_locked, got {:?}", other),
    }
}

// ---------------------------------------------------------------------------
// Fencing
// ---------------------------------------------------------------------------

#[test]
fn new_write_stale_fencing_token_is_rejected() {
    let mut db = Db::new();
    let now = NOW;

    // Alice acquires with token 10, 1ms TTL
    apply(&mut db, Command {
        request_id: None, now_ms: now,
        op: Op::Acquire(acquire_args("alice", 1, 10, vec![wr("h:/a")])),
    });

    // After Alice's TTL lapses, Bob acquires with token 20 and 1ms TTL.
    // Both owners and their locks expire, but the fence (24h TTL) outlives them.
    apply(&mut db, Command {
        request_id: None, now_ms: now + 2,
        op: Op::Acquire(acquire_args("bob", 1, 20, vec![wr("h:/a")])),
    });

    // After both locks expire, Alice returns with stale token 10.
    // The write lock is gone, but the fence (set to 20 by Bob) outlasts it.
    let resp = apply(&mut db, Command {
        request_id: None, now_ms: now + 4,
        op: Op::Acquire(acquire_args("alice", 60_000, 10, vec![wr("h:/a")])),
    });
    match resp {
        ApplyResponse::Acquire(AcquireOutcome::Conflict { reason, .. }) => {
            assert_eq!(reason, "stale_fencing_token");
        }
        other => panic!("expected stale_fencing_token, got {:?}", other),
    }
}

// ---------------------------------------------------------------------------
// Same-owner idempotency
// ---------------------------------------------------------------------------

#[test]
fn same_owner_reacquire_is_idempotent() {
    let mut db = Db::new();
    let now = NOW;

    // Alice locks
    apply(&mut db, Command {
        request_id: None, now_ms: now,
        op: Op::Acquire(acquire_args("alice", 60_000, 1, vec![wr("h:/a")])),
    });

    // Alice re-acquires same lock (as new, not held) — idempotent, no conflict
    let resp = apply(&mut db, Command {
        request_id: None, now_ms: now + 1,
        op: Op::Acquire(acquire_args("alice", 60_000, 2, vec![wr("h:/a")])),
    });
    assert!(matches!(resp, ApplyResponse::Acquire(AcquireOutcome::Granted)));
}

#[test]
fn same_owner_read_and_write_same_path() {
    let mut db = Db::new();
    let now = NOW;

    // Alice writes
    apply(&mut db, Command {
        request_id: None, now_ms: now,
        op: Op::Acquire(acquire_args("alice", 60_000, 1, vec![wr("h:/a")])),
    });

    // Alice also reads — same owner, no conflict
    let resp = apply(&mut db, Command {
        request_id: None, now_ms: now + 1,
        op: Op::Acquire(acquire_args("alice", 60_000, 0, vec![rd("h:/a")])),
    });
    assert!(matches!(resp, ApplyResponse::Acquire(AcquireOutcome::Granted)));
}

// ---------------------------------------------------------------------------
// Held-state validation
// ---------------------------------------------------------------------------

#[test]
fn held_read_missing_returns_lost() {
    let mut db = Db::new();
    let now = NOW;

    // Make Alice alive so the initial alive check passes
    apply(&mut db, Command {
        request_id: None, now_ms: now,
        op: Op::Acquire(acquire_args("alice", 60_000, 0, vec![rd("h:/unrelated")])),
    });

    // Alice claims to hold a read on a path she never acquired
    let resp = apply(&mut db, Command {
        request_id: None, now_ms: now + 1,
        op: Op::Acquire(AcquireArgs {
            owner_id: "alice".into(), ttl_ms: 60_000, fencing_token: 0,
            requests: vec![rd_held("h:/a")],
            release_requests: vec![],
        }),
    });
    match resp {
        ApplyResponse::Acquire(AcquireOutcome::Lost { path, reason }) => {
            assert_eq!(path, "h:/a");
            assert_eq!(reason, "missing_read");
        }
        other => panic!("expected Lost missing_read, got {:?}", other),
    }
}

#[test]
fn held_write_with_wrong_owner_returns_lost() {
    let mut db = Db::new();
    let now = NOW;

    // Alice acquires
    apply(&mut db, Command {
        request_id: None, now_ms: now,
        op: Op::Acquire(acquire_args("alice", 60_000, 1, vec![wr("h:/a")])),
    });

    // Make Bob alive so the initial alive check passes
    apply(&mut db, Command {
        request_id: None, now_ms: now + 1,
        op: Op::Acquire(acquire_args("bob", 60_000, 2, vec![wr("h:/unrelated")])),
    });

    // Bob claims to hold Alice's lock
    let resp = apply(&mut db, Command {
        request_id: None, now_ms: now + 2,
        op: Op::Acquire(AcquireArgs {
            owner_id: "bob".into(), ttl_ms: 60_000, fencing_token: 3,
            requests: vec![wr_held("h:/a")],
            release_requests: vec![],
        }),
    });
    match resp {
        ApplyResponse::Acquire(AcquireOutcome::Lost { path, reason }) => {
            assert_eq!(path, "h:/a");
            assert_eq!(reason, "missing_write");
        }
        other => panic!("expected Lost missing_write, got {:?}", other),
    }
}

// ---------------------------------------------------------------------------
// Combined held + new acquire
// ---------------------------------------------------------------------------

#[test]
fn combined_held_and_new_in_same_op() {
    let mut db = Db::new();
    let now = NOW;

    // Alice holds /a
    apply(&mut db, Command {
        request_id: None, now_ms: now,
        op: Op::Acquire(acquire_args("alice", 60_000, 1, vec![wr("h:/a")])),
    });

    // Alice extends /a (held) and acquires /b (new) in one op
    let args = AcquireArgs {
        owner_id: "alice".into(), ttl_ms: 60_000, fencing_token: 2,
        requests: vec![wr_held("h:/a"), wr("h:/b")],
        release_requests: vec![],
    };
    let resp = apply(&mut db, Command { request_id: None, now_ms: now + 1, op: Op::Acquire(args) });
    assert!(matches!(resp, ApplyResponse::Acquire(AcquireOutcome::Granted)));

    // Alice now holds both
    let mut txn = pathlockd::store_rocksdb::RocksDbTxn::new(&db, now + 2);
    let info_a = pathlockd::engine::inspect_path_inner(&mut txn, "h:/a").unwrap();
    let info_b = pathlockd::engine::inspect_path_inner(&mut txn, "h:/b").unwrap();
    assert_eq!(info_a.write_owner.as_deref(), Some("alice"));
    assert_eq!(info_b.write_owner.as_deref(), Some("alice"));
}

// ---------------------------------------------------------------------------
// Cycle detection — edge cases
// ---------------------------------------------------------------------------

#[test]
fn detect_cycle_no_cycle_chain() {
    let mut db = Db::new();
    let now = NOW;

    // a waits on b, b waits on c — no cycle
    apply(&mut db, Command {
        request_id: None, now_ms: now,
        op: Op::Acquire(acquire_args("a", 60_000, 1, vec![wr("h:/x")])),
    });
    apply(&mut db, Command {
        request_id: None, now_ms: now,
        op: Op::Acquire(acquire_args("b", 60_000, 2, vec![wr("h:/y")])),
    });
    apply(&mut db, Command {
        request_id: None, now_ms: now,
        op: Op::Acquire(acquire_args("c", 60_000, 3, vec![wr("h:/z")])),
    });

    let meta = WaitEdgeMetadata { conflict_path: "h:/x".into(), reason: "write_locked".into() };
    apply(&mut db, Command {
        request_id: None, now_ms: now,
        op: Op::SetWaitEdge {
            owner: "a".into(),
            edge: pathlockd::raft::command::WaitEdge { conflict_owner: "b".into(), metadata: Some(meta.clone()) },
            ttl_ms: 60_000,
        },
    });
    apply(&mut db, Command {
        request_id: None, now_ms: now,
        op: Op::SetWaitEdge {
            owner: "b".into(),
            edge: pathlockd::raft::command::WaitEdge { conflict_owner: "c".into(), metadata: Some(meta) },
            ttl_ms: 60_000,
        },
    });

    let mut txn = pathlockd::store_rocksdb::RocksDbTxn::new(&db, now + 1);
    let outcome = pathlockd::engine::detect_cycle_inner(&mut txn, "a", 10).unwrap();
    assert_eq!(outcome, CycleOutcome::Clear);
}

#[test]
fn detect_cycle_truncated_at_max_depth() {
    let mut db = Db::new();
    let now = NOW;

    // Build a long chain a→b→c→d, each owner holds the path they block on
    // a waits for b on h:/x, b waits for c on h:/y, c waits for d on h:/z
    apply(&mut db, Command {
        request_id: None, now_ms: now,
        op: Op::Acquire(acquire_args("a", 60_000, 1, vec![wr("h:/w")])),
    });
    apply(&mut db, Command {
        request_id: None, now_ms: now,
        op: Op::Acquire(acquire_args("b", 60_000, 2, vec![wr("h:/x")])),
    });
    apply(&mut db, Command {
        request_id: None, now_ms: now,
        op: Op::Acquire(acquire_args("c", 60_000, 3, vec![wr("h:/y")])),
    });
    apply(&mut db, Command {
        request_id: None, now_ms: now,
        op: Op::Acquire(acquire_args("d", 60_000, 4, vec![wr("h:/z")])),
    });

    // a waits on b (b holds h:/x)
    apply(&mut db, Command {
        request_id: None, now_ms: now,
        op: Op::SetWaitEdge {
            owner: "a".into(),
            edge: pathlockd::raft::command::WaitEdge {
                conflict_owner: "b".into(),
                metadata: Some(WaitEdgeMetadata { conflict_path: "h:/x".into(), reason: "write_locked".into() }),
            },
            ttl_ms: 60_000,
        },
    });
    // b waits on c (c holds h:/y)
    apply(&mut db, Command {
        request_id: None, now_ms: now,
        op: Op::SetWaitEdge {
            owner: "b".into(),
            edge: pathlockd::raft::command::WaitEdge {
                conflict_owner: "c".into(),
                metadata: Some(WaitEdgeMetadata { conflict_path: "h:/y".into(), reason: "write_locked".into() }),
            },
            ttl_ms: 60_000,
        },
    });
    // c waits on d (d holds h:/z)
    apply(&mut db, Command {
        request_id: None, now_ms: now,
        op: Op::SetWaitEdge {
            owner: "c".into(),
            edge: pathlockd::raft::command::WaitEdge {
                conflict_owner: "d".into(),
                metadata: Some(WaitEdgeMetadata { conflict_path: "h:/z".into(), reason: "write_locked".into() }),
            },
            ttl_ms: 60_000,
        },
    });

    // Walk with max_depth=2 → truncated at b→c (3 nodes visited but depth 2)
    let mut txn = pathlockd::store_rocksdb::RocksDbTxn::new(&db, now + 1);
    let outcome = pathlockd::engine::detect_cycle_inner(&mut txn, "a", 2).unwrap();
    match outcome {
        CycleOutcome::Truncated(chain) => {
            assert_eq!(chain.len(), 3);
            assert_eq!(chain[0], "a");
            assert_eq!(chain[1], "b");
            assert_eq!(chain[2], "c");
        }
        other => panic!("expected Truncated, got {:?}", other),
    }
}

#[test]
fn detect_cycle_stale_edge_dead_blocker() {
    let mut db = Db::new();
    let now = NOW;

    // a is alive, b is alive (but only briefly with 1ms TTL)
    apply(&mut db, Command {
        request_id: None, now_ms: now,
        op: Op::Acquire(acquire_args("a", 60_000, 1, vec![wr("h:/x")])),
    });
    apply(&mut db, Command {
        request_id: None, now_ms: now,
        op: Op::Acquire(acquire_args("b", 1, 2, vec![wr("h:/y")])),
    });

    // a waits on b
    let meta = WaitEdgeMetadata { conflict_path: "h:/y".into(), reason: "write_locked".into() };
    apply(&mut db, Command {
        request_id: None, now_ms: now,
        op: Op::SetWaitEdge {
            owner: "a".into(),
            edge: pathlockd::raft::command::WaitEdge { conflict_owner: "b".into(), metadata: Some(meta) },
            ttl_ms: 60_000,
        },
    });

    // b is dead now, cycle walk should prune the stale edge
    let mut txn = pathlockd::store_rocksdb::RocksDbTxn::new(&db, now + 2);
    let outcome = pathlockd::engine::detect_cycle_inner(&mut txn, "a", 10).unwrap();
    // Edge pruned, b is dead → no cycle
    assert_eq!(outcome, CycleOutcome::Clear);

    // Also verify b is no longer alive
    let mut txn = pathlockd::store_rocksdb::RocksDbTxn::new(&db, now + 3);
    assert!(!pathlockd::engine::is_owner_alive_inner(&mut txn, "b").unwrap());
}

// ---------------------------------------------------------------------------
// is_blocking — full coverage
// ---------------------------------------------------------------------------

#[test]
fn is_blocking_descendant_read_locked() {
    let mut db = Db::new();
    let now = NOW;

    // Alice reads a descendant
    apply(&mut db, Command {
        request_id: None, now_ms: now,
        op: Op::Acquire(acquire_args("alice", 60_000, 0, vec![rd("h:/a/b/c")])),
    });

    let mut txn = pathlockd::store_rocksdb::RocksDbTxn::new(&db, now + 1);
    assert!(pathlockd::engine::is_blocking_inner(
        &mut txn, "h:/a/b/c", "alice", "descendant_read_locked"
    ).unwrap());
}

#[test]
fn is_blocking_rejects_wrong_owner() {
    let mut db = Db::new();
    let now = NOW;

    apply(&mut db, Command {
        request_id: None, now_ms: now,
        op: Op::Acquire(acquire_args("alice", 60_000, 1, vec![wr("h:/a")])),
    });

    let mut txn = pathlockd::store_rocksdb::RocksDbTxn::new(&db, now + 1);
    assert!(!pathlockd::engine::is_blocking_inner(
        &mut txn, "h:/a", "bob", "write_locked"
    ).unwrap());
}

#[test]
fn is_blocking_dead_owner_prunes_read() {
    let mut db = Db::new();
    let now = NOW;

    // Alice reads with 1ms TTL
    apply(&mut db, Command {
        request_id: None, now_ms: now,
        op: Op::Acquire(acquire_args("alice", 1, 0, vec![rd("h:/a")])),
    });

    // After TTL, is_blocking should return false (owner dead, pruned)
    let mut txn = pathlockd::store_rocksdb::RocksDbTxn::new(&db, now + 2);
    assert!(!pathlockd::engine::is_blocking_inner(
        &mut txn, "h:/a", "alice", "read_locked"
    ).unwrap());

    // Also check that the read entry is now gone (pruned)
    let info = pathlockd::engine::inspect_path_inner(&mut txn, "h:/a").unwrap();
    assert!(info.read_owners.is_empty());
}

// ---------------------------------------------------------------------------
// Preemption claims — extended
// ---------------------------------------------------------------------------

#[test]
fn claim_on_ancestor_blocks_descendant_acquire() {
    let mut db = Db::new();
    let now = NOW;

    // Make Alice alive
    apply(&mut db, Command {
        request_id: None, now_ms: now,
        op: Op::Acquire(acquire_args("alice", 60_000, 1, vec![wr("h:/unrelated")])),
    });

    // Alice claims ancestor
    apply(&mut db, Command {
        request_id: None, now_ms: now,
        op: Op::SetClaim { path: "h:/a".into(), claimant: "alice".into(), ttl_ms: 5_000 },
    });

    // Bob acquires a descendant → ancestor claim blocks
    let resp = apply(&mut db, Command {
        request_id: None, now_ms: now + 1,
        op: Op::Acquire(acquire_args("bob", 30_000, 2, vec![wr("h:/a/b")])),
    });
    match resp {
        ApplyResponse::Acquire(AcquireOutcome::Conflict { reason, .. }) => {
            assert_eq!(reason, "preempt_claimed");
        }
        other => panic!("expected preempt_claimed, got {:?}", other),
    }
}

#[test]
fn claim_on_descendant_blocks_ancestor_write_acquire() {
    let mut db = Db::new();
    let now = NOW;

    // Make Alice alive
    apply(&mut db, Command {
        request_id: None, now_ms: now,
        op: Op::Acquire(acquire_args("alice", 60_000, 1, vec![wr("h:/unrelated")])),
    });

    // Alice claims a descendant
    apply(&mut db, Command {
        request_id: None, now_ms: now,
        op: Op::SetClaim { path: "h:/a/b".into(), claimant: "alice".into(), ttl_ms: 5_000 },
    });

    // Bob acquires ancestor in write mode → descendant claim blocks
    let resp = apply(&mut db, Command {
        request_id: None, now_ms: now + 1,
        op: Op::Acquire(acquire_args("bob", 30_000, 2, vec![wr("h:/a")])),
    });
    match resp {
        ApplyResponse::Acquire(AcquireOutcome::Conflict { reason, .. }) => {
            assert_eq!(reason, "preempt_claimed");
        }
        other => panic!("expected preempt_claimed, got {:?}", other),
    }
}

#[test]
fn same_owner_claim_consumed_on_acquire() {
    let mut db = Db::new();
    let now = NOW;

    // Alice is alive
    apply(&mut db, Command {
        request_id: None, now_ms: now,
        op: Op::Acquire(acquire_args("alice", 60_000, 1, vec![wr("h:/unrelated")])),
    });

    // Alice claims /a
    apply(&mut db, Command {
        request_id: None, now_ms: now,
        op: Op::SetClaim { path: "h:/a".into(), claimant: "alice".into(), ttl_ms: 5_000 },
    });

    // Alice acquires /a → claim consumed
    let resp = apply(&mut db, Command {
        request_id: None, now_ms: now + 1,
        op: Op::Acquire(acquire_args("alice", 60_000, 2, vec![wr("h:/a")])),
    });
    assert!(matches!(resp, ApplyResponse::Acquire(AcquireOutcome::Granted)));

    // Verify claim is gone
    let mut txn = pathlockd::store_rocksdb::RocksDbTxn::new(&db, now + 2);
    let info = pathlockd::engine::inspect_path_inner(&mut txn, "h:/a").unwrap();
    assert!(info.claim_owner.is_none());
}

#[test]
fn dead_claim_does_not_block() {
    let mut db = Db::new();
    let now = NOW;

    // Make Alice alive
    apply(&mut db, Command {
        request_id: None, now_ms: now,
        op: Op::Acquire(acquire_args("alice", 1, 1, vec![wr("h:/unrelated")])),
    });

    // Alice claims with 1ms TTL
    apply(&mut db, Command {
        request_id: None, now_ms: now,
        op: Op::SetClaim { path: "h:/a".into(), claimant: "alice".into(), ttl_ms: 1 },
    });

    // After TTL, the claim is dead and Alice is dead → Bob acquires
    let resp = apply(&mut db, Command {
        request_id: None, now_ms: now + 2,
        op: Op::Acquire(acquire_args("bob", 60_000, 2, vec![wr("h:/a")])),
    });
    assert!(matches!(resp, ApplyResponse::Acquire(AcquireOutcome::Granted)));
}

// ---------------------------------------------------------------------------
// Multiple readers / reader lifecycle
// ---------------------------------------------------------------------------

#[test]
fn multiple_readers_on_same_path() {
    let mut db = Db::new();
    let now = NOW;

    // Alice reads
    apply(&mut db, Command {
        request_id: None, now_ms: now,
        op: Op::Acquire(acquire_args("alice", 60_000, 0, vec![rd("h:/a")])),
    });

    // Bob reads same path → ok (shared read)
    let resp = apply(&mut db, Command {
        request_id: None, now_ms: now + 1,
        op: Op::Acquire(acquire_args("bob", 60_000, 0, vec![rd("h:/a")])),
    });
    assert!(matches!(resp, ApplyResponse::Acquire(AcquireOutcome::Granted)));

    // Carol reads same path → ok
    let resp = apply(&mut db, Command {
        request_id: None, now_ms: now + 2,
        op: Op::Acquire(acquire_args("carol", 60_000, 0, vec![rd("h:/a")])),
    });
    assert!(matches!(resp, ApplyResponse::Acquire(AcquireOutcome::Granted)));

    // All three appear in inspect
    let mut txn = pathlockd::store_rocksdb::RocksDbTxn::new(&db, now + 3);
    let info = pathlockd::engine::inspect_path_inner(&mut txn, "h:/a").unwrap();
    assert_eq!(info.read_owners.len(), 3);
}

#[test]
fn release_one_reader_preserves_others() {
    let mut db = Db::new();
    let now = NOW;

    apply(&mut db, Command {
        request_id: None, now_ms: now,
        op: Op::Acquire(acquire_args("alice", 60_000, 0, vec![rd("h:/a")])),
    });
    apply(&mut db, Command {
        request_id: None, now_ms: now + 1,
        op: Op::Acquire(acquire_args("bob", 60_000, 0, vec![rd("h:/a")])),
    });

    // Alice releases her read
    apply(&mut db, Command {
        request_id: None, now_ms: now + 2,
        op: Op::Release { owner: "alice".into(), reqs: vec![rel("h:/a", Mode::Read)], del_wait: false },
    });

    // Bob still holds his read → Carol cannot write
    let resp = apply(&mut db, Command {
        request_id: None, now_ms: now + 3,
        op: Op::Acquire(acquire_args("carol", 30_000, 1, vec![wr("h:/a")])),
    });
    match resp {
        ApplyResponse::Acquire(AcquireOutcome::Conflict { reason, .. }) => {
            assert_eq!(reason, "read_locked");
        }
        other => panic!("expected read_locked, got {:?}", other),
    }
}

// ---------------------------------------------------------------------------
// Force release edge cases
// ---------------------------------------------------------------------------

#[test]
fn force_release_unknown_owner_is_noop() {
    let mut db = Db::new();
    let now = NOW;

    // Bob acquires a lock
    apply(&mut db, Command {
        request_id: None, now_ms: now,
        op: Op::Acquire(acquire_args("bob", 60_000, 1, vec![wr("h:/a")])),
    });

    // Force release a non-existent owner → no effect, Bob still holds
    apply(&mut db, Command {
        request_id: None, now_ms: now + 1,
        op: Op::ForceRelease { victim: "ghost".into() },
    });

    // Bob still holds
    let mut txn = pathlockd::store_rocksdb::RocksDbTxn::new(&db, now + 2);
    let info = pathlockd::engine::inspect_path_inner(&mut txn, "h:/a").unwrap();
    assert_eq!(info.write_owner.as_deref(), Some("bob"));
}

// An acquire that also releases says nothing of its owner's end (see
// `combined_acquire_and_release_keeps_owner_alive`); a release does.

fn alive(db: &Db, owner: &str, now: u64) -> bool {
    let mut txn = RocksDbTxn::new(db, now);
    pathlockd::engine::is_owner_alive_inner(&mut txn, owner).unwrap()
}

fn release(db: &mut Db, owner: &str, reqs: Vec<RelReq>, now: u64) {
    apply(db, Command {
        request_id: None, now_ms: now,
        op: Op::Release { owner: owner.into(), reqs, del_wait: false },
    });
}

#[test]
fn an_owner_lives_no_longer_than_its_last_lock() {
    let mut db = Db::new();
    apply(&mut db, Command {
        request_id: None, now_ms: NOW,
        op: Op::Acquire(acquire_args("alice", 60_000, 1, vec![wr("h:/a"), rd("h:/b"), wr("h:/c")])),
    });
    release(&mut db, "alice", vec![rel("h:/a", Mode::Write)], NOW + 1);
    assert!(alive(&db, "alice", NOW + 1));
    // A lock that it does not hold leaves the others.
    release(&mut db, "alice", vec![rel("h:/b", Mode::Write), rel("h:/z", Mode::Read)], NOW + 2);
    assert!(alive(&db, "alice", NOW + 2));
    release(&mut db, "alice", vec![], NOW + 2);
    assert!(alive(&db, "alice", NOW + 2));
    release(&mut db, "alice", vec![rel("h:/c", Mode::Write), rel("h:/b", Mode::Read)], NOW + 3);
    assert!(!alive(&db, "alice", NOW + 3));
    assert!(db.get(Cf::OwnerAlive, b"alice").is_none());
    // It comes back with its next lock.
    apply(&mut db, Command {
        request_id: None, now_ms: NOW + 4,
        op: Op::Acquire(acquire_args("alice", 60_000, 2, vec![wr("h:/a")])),
    });
    assert!(alive(&db, "alice", NOW + 4));
}

#[test]
fn an_expired_holding_keeps_nobody_alive() {
    let mut db = Db::new();
    apply(&mut db, Command {
        request_id: None, now_ms: NOW,
        op: Op::Acquire(acquire_args("alice", 10, 1, vec![wr("h:/short")])),
    });
    apply(&mut db, Command {
        request_id: None, now_ms: NOW + 1,
        op: Op::Acquire(acquire_args("alice", 60_000, 2, vec![wr("h:/long")])),
    });
    assert!(alive(&db, "alice", NOW + 20));
    release(&mut db, "alice", vec![rel("h:/long", Mode::Write)], NOW + 20);
    assert!(!alive(&db, "alice", NOW + 20));
}

#[test]
fn an_acquire_that_only_releases_leaves_its_owner_alive() {
    let mut db = Db::new();
    apply(&mut db, Command {
        request_id: None, now_ms: NOW,
        op: Op::Acquire(acquire_args("alice", 60_000, 1, vec![wr("h:/a")])),
    });
    let mut args = acquire_args("alice", 60_000, 2, vec![]);
    args.release_requests = vec![rel("h:/a", Mode::Write)];
    apply(&mut db, Command { request_id: None, now_ms: NOW + 1, op: Op::Acquire(args) });
    assert!(alive(&db, "alice", NOW + 1));
    let mut args = acquire_args("alice", 60_000, 3, vec![wr("h:/b")]);
    args.release_requests = vec![rel("h:/a", Mode::Write)];
    apply(&mut db, Command { request_id: None, now_ms: NOW + 2, op: Op::Acquire(args) });
    assert!(alive(&db, "alice", NOW + 2));
}

#[test]
fn an_edge_with_a_reason_is_marked() {
    let mut db = Db::new();
    let set = |metadata: Option<WaitEdgeMetadata>| Command {
        request_id: None, now_ms: NOW,
        op: Op::SetWaitEdge {
            owner: "alice".into(),
            edge: pathlockd::raft::command::WaitEdge { conflict_owner: "bob:1".into(), metadata },
            ttl_ms: 1_000,
        },
    };
    let stored = |db: &Db| RocksDbTxn::new(db, NOW).get_str(Cf::WaitEdges, b"alice").unwrap();
    let meta = WaitEdgeMetadata { conflict_path: "h:/é".into(), reason: "write_locked".into() };
    apply(&mut db, set(Some(meta)));
    assert_eq!(stored(&db).as_deref(), Some("v1:5:bob:14:h:/éwrite_locked"));
    apply(&mut db, set(None));
    assert_eq!(stored(&db).as_deref(), Some("0bob:1"));
}

#[test]
fn edges_are_read_back_and_other_texts_are_none() {
    let edge = |s: &str| pathlockd::engine::edge::decode_edge(s);
    let (owner, meta) = edge("v1:3:bob4:h:/ar").unwrap();
    assert_eq!(owner, "bob");
    let meta = meta.unwrap();
    assert_eq!(meta.conflict_path, "h:/a");
    assert_eq!(meta.reason, "r");
    let (owner, meta) = edge("0v1:").unwrap();
    assert_eq!(owner, "v1:");
    assert!(meta.is_none());
    for bad in ["", "v", "v1", "v1:", "v1:3", "v1:3:bo", "v1:3:bob9:h", "v1:x:bob1:h", "v2:1:a1:h", "13:bob4:h:/ar", "bob"] {
        assert!(edge(bad).is_none(), "{}", bad);
    }
}


#[test]
fn renew_refreshes_all_held_locks() {
    let mut db = Db::new();
    let now = NOW;

    // Alice acquires two locks with 5s TTL
    let args = AcquireArgs {
        owner_id: "alice".into(), ttl_ms: 5_000, fencing_token: 1,
        requests: vec![wr("h:/a"), rd("h:/b")],
        release_requests: vec![],
    };
    apply(&mut db, Command { request_id: None, now_ms: now, op: Op::Acquire(args) });

    // After 4s, renew extends everything
    apply(&mut db, Command {
        request_id: None, now_ms: now + 4_000,
        op: Op::Renew { owner: "alice".into(), ttl_ms: 30_000 },
    });

    // After 6s (would have expired without renew), Alice still holds
    let args = AcquireArgs {
        owner_id: "alice".into(), ttl_ms: 10_000, fencing_token: 2,
        requests: vec![wr_held("h:/a"), rd_held("h:/b")],
        release_requests: vec![],
    };
    let resp = apply(&mut db, Command { request_id: None, now_ms: now + 6_000, op: Op::Acquire(args) });
    assert!(matches!(resp, ApplyResponse::Acquire(AcquireOutcome::Granted)));
}

// ---------------------------------------------------------------------------
// Cycle detection with advisory edges (no metadata → skip is_blocking)
// ---------------------------------------------------------------------------

#[test]
fn detect_cycle_with_no_metadata_skips_is_blocking() {
    let mut db = Db::new();
    let now = NOW;

    // Make both alive (but without actual locks that would satisfy is_blocking)
    apply(&mut db, Command {
        request_id: None, now_ms: now,
        op: Op::Acquire(acquire_args("a", 60_000, 1, vec![wr("h:/x")])),
    });
    apply(&mut db, Command {
        request_id: None, now_ms: now,
        op: Op::Acquire(acquire_args("b", 60_000, 2, vec![wr("h:/y")])),
    });

    // Advisory edges with no metadata (empty conflict_path/reason → metadata=None)
    apply(&mut db, Command {
        request_id: None, now_ms: now,
        op: Op::SetWaitEdge {
            owner: "a".into(),
            edge: pathlockd::raft::command::WaitEdge { conflict_owner: "b".into(), metadata: None },
            ttl_ms: 60_000,
        },
    });
    apply(&mut db, Command {
        request_id: None, now_ms: now,
        op: Op::SetWaitEdge {
            owner: "b".into(),
            edge: pathlockd::raft::command::WaitEdge { conflict_owner: "a".into(), metadata: None },
            ttl_ms: 60_000,
        },
    });

    // Cycle found (even though is_blocking on these paths would fail —
    // without metadata, the check is skipped)
    let mut txn = pathlockd::store_rocksdb::RocksDbTxn::new(&db, now + 1);
    let outcome = pathlockd::engine::detect_cycle_inner(&mut txn, "a", 10).unwrap();
    match outcome {
        CycleOutcome::Cycle(chain) => {
            assert_eq!(chain, vec!["a", "b"]);
        }
        other => panic!("expected Cycle, got {:?}", other),
    }
}

// ---------------------------------------------------------------------------
// Lock inspection / observability
// ---------------------------------------------------------------------------

#[test]
fn inspect_path_returns_correct_state() {
    let mut db = Db::new();
    let now = NOW;

    // Alice writes /a
    apply(&mut db, Command {
        request_id: None, now_ms: now,
        op: Op::Acquire(acquire_args("alice", 60_000, 1, vec![wr("h:/a")])),
    });

    let mut txn = pathlockd::store_rocksdb::RocksDbTxn::new(&db, now + 1);
    let info = pathlockd::engine::inspect_path_inner(&mut txn, "h:/a").unwrap();
    assert_eq!(info.write_owner.as_deref(), Some("alice"));
    assert!(info.read_owners.is_empty());
    assert!(info.fence.is_some());
}

#[test]
fn list_owner_locks_returns_all_held() {
    let mut db = Db::new();
    let now = NOW;

    let args = AcquireArgs {
        owner_id: "alice".into(), ttl_ms: 60_000, fencing_token: 1,
        requests: vec![wr("h:/a"), rd("h:/b")],
        release_requests: vec![],
    };
    apply(&mut db, Command { request_id: None, now_ms: now, op: Op::Acquire(args) });

    let mut txn = pathlockd::store_rocksdb::RocksDbTxn::new(&db, now + 1);
    let (_alive, locks) = pathlockd::engine::list_owner_locks_inner(&mut txn, "alice").unwrap();
    assert_eq!(locks.len(), 2);
    let paths: Vec<&str> = locks.iter().map(|l| l.path.as_str()).collect();
    assert!(paths.contains(&"h:/a"));
    assert!(paths.contains(&"h:/b"));
}

// ---------------------------------------------------------------------------
// Empty operations
// ---------------------------------------------------------------------------

#[test]
fn empty_acquire_request_returns_ok() {
    let mut db = Db::new();
    let now = NOW;

    let args = AcquireArgs {
        owner_id: "alice".into(), ttl_ms: 60_000, fencing_token: 1,
        requests: vec![],
        release_requests: vec![],
    };
    let resp = apply(&mut db, Command { request_id: None, now_ms: now, op: Op::Acquire(args) });
    assert!(matches!(resp, ApplyResponse::Acquire(AcquireOutcome::Granted)));
}

#[test]
fn empty_release_requests_are_noop() {
    let mut db = Db::new();
    let now = NOW;

    // Alice locks /a
    apply(&mut db, Command {
        request_id: None, now_ms: now,
        op: Op::Acquire(acquire_args("alice", 60_000, 1, vec![wr("h:/a")])),
    });

    // Release with empty reqs → noop
    apply(&mut db, Command {
        request_id: None, now_ms: now + 1,
        op: Op::Release { owner: "alice".into(), reqs: vec![], del_wait: false },
    });

    // Alice still holds
    let mut txn = pathlockd::store_rocksdb::RocksDbTxn::new(&db, now + 2);
    let info = pathlockd::engine::inspect_path_inner(&mut txn, "h:/a").unwrap();
    assert_eq!(info.write_owner.as_deref(), Some("alice"));
}

fn index_rows(db: &Db, cf: Cf) -> usize {
    let (lo, hi) = db.scan_range(Cf::Expiry, b"");
    (lo..hi)
        .filter(|i| matches!(store_keys::decode_expiry_entry(&db.row(*i).key), Some((_, c, _)) if c == cf))
        .count()
}

#[test]
fn renewing_a_fence_adds_no_index_rows() {
    let mut db = Db::new();
    apply(&mut db, Command {
        request_id: None, now_ms: NOW,
        op: Op::Acquire(acquire_args("alice", 30_000, 1, vec![wr("h:/a")])),
    });
    for i in 1..4 {
        apply(&mut db, Command {
            request_id: None, now_ms: NOW + i * 1_000,
            op: Op::Renew { owner: "alice".to_string(), ttl_ms: 30_000 },
        });
    }
    assert_eq!(index_rows(&db, Cf::Fences), 1);
    assert_eq!(index_rows(&db, Cf::WriteLocks), 4);
}

#[test]
fn an_owner_with_too_many_locks_can_still_be_released() {
    let mut db = Db::new();
    let text = |v: &str| Cell::Record(StoredRecord::Str { v: v.to_string(), exp: 0 });
    let n = 66_000;
    for i in 0..n {
        let member = format!("write\0h:/p{i:06}");
        db.put(Cf::OwnerHolds, store_keys::member_key(b"o", &member), text(&member));
    }
    db.put(Cf::OwnerAlive, b"o".to_vec(), text("1"));
    let mut txn = RocksDbStoreTxn::new(&db, NOW);
    assert!(matches!(
        pathlockd::engine::renew_inner(&mut txn, "o", 1_000),
        Err(StoreError::ScanLimit(_))
    ));
    pathlockd::engine::force_release_inner(&mut txn, "o").unwrap();
    let batch = txn.commit();
    assert_eq!(batch.ops.len(), n + 2);
}

#[test]
fn a_read_only_transaction_refuses_what_writes_and_ignores_what_removes() {
    let mut db = Db::new();
    apply(&mut db, Command {
        request_id: None, now_ms: NOW,
        op: Op::Acquire(acquire_args("alice", 30_000, 1, vec![wr("h:/a")])),
    });
    let mut txn = RocksDbTxn::new(&db, NOW + 1);
    let free = acquire_args("bob", 30_000, 2, vec![wr("h:/b")]);
    assert!(matches!(
        pathlockd::engine::acquire_inner(&mut txn, &free),
        Err(StoreError::ReadOnly)
    ));
    let taken = acquire_args("bob", 30_000, 2, vec![wr("h:/a")]);
    assert!(matches!(
        pathlockd::engine::acquire_inner(&mut txn, &taken),
        Ok(AcquireOutcome::Conflict { .. })
    ));
    assert!(matches!(
        pathlockd::engine::renew_inner(&mut txn, "alice", 1_000),
        Err(StoreError::ReadOnly)
    ));
    assert!(matches!(
        pathlockd::engine::set_claim_inner(&mut txn, "h:/b", "bob", 0),
        Err(StoreError::ReadOnly)
    ));
    assert!(pathlockd::engine::release_all_inner(&mut txn, "alice", true).is_ok());
    assert!(pathlockd::engine::is_owner_alive_inner(&mut txn, "alice").unwrap());
}
