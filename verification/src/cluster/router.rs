//! The router: it decides what becomes of each operation, and runs it against the
//! local store, one command at a time.

use vstd::prelude::*;
use crate::db::{applied, lemma_applied_concat, Db, DbView, OpView, WriteBatch};
use crate::engine::conflict::is_alive;
use crate::engine::dump::dump_page;
use crate::engine::laws::{effect_time, law_commands_keep_exclusion, law_time_passes, sound};
use crate::engine::lease_laws::law_live_lock_is_respected;
use crate::engine::path::conflicting;
use crate::engine::query::{blocking, fencing_check, owned_view, owner_locks, path_info, walk};
use crate::engine::types::{
    opt_meta, rels_view, AcquireArgs, AcquireOutcome, AcquireView, ArgsView, AssertOutcome,
    AssertView, CycleOutcome, CycleView, DumpView, LockDumpPage, Mode, OwnedLock, PathInfo,
    PathView, RelReq, RelView, RenewOutcome, WaitEdgeMetadata,
};
use crate::engine::tenure_laws::{
    gives_up, lapsed, law_granted_command_stands, law_lock_stands, lemma_stands, stands,
};
use crate::engine::{
    assert_fencing_inner, detect_cycle_inner, dump_locks_inner, inspect_path_inner,
    is_blocking_inner, is_owner_alive_inner, list_owner_locks_inner,
};
use crate::raft::command::{ApplyResponse, Command, Op, OpKind, ResponseView, WaitEdge};
use crate::raft::gc_laws::{all_listed, law_commands_keep_the_listing};
use crate::raft::state_machine::{
    command_effect, due_entries, gc_cursor, prepare, read_cursor, set_wal_sync,
    swept_rows, WalSync,
};
use crate::store_keys::{lock_domain, lock_domain_spec, nul_free};
use crate::store_rocksdb::{opt_key, ErrorView, RocksDbTxn, StoreError};
use crate::text::{str_eq, texts};

verus! {

// ---------------------------------------------------------------------------
// Errors
// ---------------------------------------------------------------------------

/// The node does not lead the group.
#[derive(Debug, Clone)]
pub struct NotLeader;

/// The group has no quorum.
#[derive(Debug, Clone)]
pub struct QuorumUnavailable;

/// The request belongs to another group.
#[derive(Debug, Clone)]
pub struct WrongGroup;

/// One acquire named paths of more than one lock domain.
#[derive(Debug, Clone)]
pub struct MultiDomainUnsupported;

impl NotLeader {
    /// The message of the error.
    pub fn to_string(&self) -> (r: String)
        ensures
            r@ == "not leader"@,
    {
        "not leader".to_owned()
    }
}

impl QuorumUnavailable {
    /// The message of the error.
    pub fn to_string(&self) -> (r: String)
        ensures
            r@ == "raft quorum unavailable"@,
    {
        "raft quorum unavailable".to_owned()
    }
}

impl WrongGroup {
    /// The message of the error.
    pub fn to_string(&self) -> (r: String)
        ensures
            r@ == "routing error: request belongs to a different group"@,
    {
        "routing error: request belongs to a different group".to_owned()
    }
}

impl MultiDomainUnsupported {
    /// The message of the error.
    pub fn to_string(&self) -> (r: String)
        ensures
            r@ == "all paths in one acquire must share a lock domain"@,
    {
        "all paths in one acquire must share a lock domain".to_owned()
    }
}

/// Why the router did not run an operation.
#[derive(Debug, Clone)]
pub enum RouterError {
    /// There is no local store.
    NoLocalStore,
    /// One acquire named paths of more than one lock domain.
    MultiDomain(MultiDomainUnsupported),
    /// The store failed.
    Store(StoreError),
    /// A command was answered with the response to another kind of command.
    UnexpectedResponse,
}

/// Why the router did not run an operation.
pub enum RouterFault {
    NoLocalStore,
    MultiDomain,
    Store(ErrorView),
    UnexpectedResponse,
}

impl RouterError {
    pub open spec fn view(&self) -> RouterFault {
        match self {
            RouterError::NoLocalStore => RouterFault::NoLocalStore,
            RouterError::MultiDomain(_) => RouterFault::MultiDomain,
            RouterError::Store(e) => RouterFault::Store(e@),
            RouterError::UnexpectedResponse => RouterFault::UnexpectedResponse,
        }
    }

    /// The message of the error.
    pub fn to_string(&self) -> (r: String)
        ensures
            self@ == RouterFault::NoLocalStore ==> r@ == "no local store configured"@,
            self@ == RouterFault::MultiDomain ==> r@
                == "all paths in one acquire must share a lock domain"@,
            self@ == RouterFault::UnexpectedResponse ==> r@ == "unexpected response type"@,
            self@ matches RouterFault::Store(e) ==> r@ == crate::store_rocksdb::error_message(e),
    {
        match self {
            RouterError::NoLocalStore => "no local store configured".to_owned(),
            RouterError::MultiDomain(e) => e.to_string(),
            RouterError::Store(e) => e.to_string(),
            RouterError::UnexpectedResponse => "unexpected response type".to_owned(),
        }
    }
}

/// Whether a result without a value is the given one.
pub open spec fn is_done<T>(r: Result<(), RouterError>, s: Result<T, RouterFault>) -> bool {
    match (r, s) {
        (Ok(_), Ok(_)) => true,
        (Err(e), Err(f)) => e@ == f,
        _ => false,
    }
}

// ---------------------------------------------------------------------------
// The router
// ---------------------------------------------------------------------------

/// The router of a node. Commands reach the local store through it alone, one
/// after the other.
#[derive(Debug)]
pub struct Router {
    pub group_count: u32,
    /// The contents of the local store.
    pub local_db: Option<Db>,
    /// The writes to the local store that were not handed on to disk yet.
    pub unsaved: WriteBatch,
    /// The latest time at which a command took effect.
    pub clock: u64,
    /// Whether what is handed on to disk is synced.
    pub wal_sync: WalSync,
}

/// The router of a node.
pub struct RouterView {
    pub group_count: u32,
    pub db: Option<DbView>,
    pub unsaved: Seq<OpView>,
    pub clock: u64,
    pub sync: bool,
}

/// The time that is stamped on an operation: that of the caller's clock, but never
/// before the latest at which a command took effect.
pub open spec fn stamped(router: RouterView, now: u64) -> u64 {
    if now < router.clock {
        router.clock
    } else {
        now
    }
}

/// What a command makes of a router, and the response to it.
pub open spec fn command_run(router: RouterView, now: u64, op: OpKind) -> (
    RouterView,
    Result<ResponseView, RouterFault>,
) {
    match router.db {
        None => (router, Err(RouterFault::NoLocalStore)),
        Some(db) => match command_effect(db, stamped(router, now), op) {
            Err(e) => (router, Err(RouterFault::Store(e))),
            Ok((response, ops)) => (
                RouterView {
                    db: Some(applied(db, ops)),
                    unsaved: router.unsaved + ops,
                    clock: effect_time(stamped(router, now), op),
                    ..router
                },
                Ok(response),
            ),
        },
    }
}

/// The paths that an acquire names: those to take, then those to give up.
pub open spec fn named_paths(args: ArgsView) -> Seq<Seq<char>> {
    args.requests.map_values(|r: crate::engine::types::ReqView| r.path)
        + args.releases.map_values(|r: RelView| r.path)
}

/// Whether the paths belong to more than one lock domain.
pub open spec fn multi_domain(paths: Seq<Seq<char>>) -> bool {
    exists|i: int, j: int|
        0 <= i < paths.len() && 0 <= j < paths.len() && lock_domain_spec(#[trigger] paths[i])
            != lock_domain_spec(#[trigger] paths[j])
}

/// What an acquire makes of a router, and its outcome: paths of more than one lock
/// domain are refused, an acquire that names no paths is granted as it is, any
/// other is a command.
pub open spec fn acquire_run(router: RouterView, now: u64, args: ArgsView) -> (
    RouterView,
    Result<AcquireView, RouterFault>,
) {
    if multi_domain(named_paths(args)) {
        (router, Err(RouterFault::MultiDomain))
    } else if named_paths(args).len() == 0 {
        (router, Ok(AcquireView::Granted))
    } else {
        let (after, response) = command_run(router, now, OpKind::Acquire(args));
        (
            after,
            match response {
                Ok(ResponseView::Acquire(outcome)) => Ok(outcome),
                Ok(_) => Err(RouterFault::UnexpectedResponse),
                Err(e) => Err(e),
            },
        )
    }
}

/// What a release makes of a router, and whether it succeeds: one that names no
/// locks does nothing.
pub open spec fn release_run(
    router: RouterView,
    now: u64,
    owner: Seq<char>,
    reqs: Seq<RelView>,
    del_wait: bool,
) -> (RouterView, Result<ResponseView, RouterFault>) {
    if reqs.len() == 0 {
        (router, Ok(ResponseView::Unit))
    } else {
        command_run(router, now, OpKind::Release { owner, reqs, del_wait })
    }
}

/// The router with another setting for what is handed on to disk.
pub open spec fn sync_set(router: RouterView, enabled: bool) -> RouterView {
    RouterView { sync: enabled, ..router }
}

/// What is handed out for the disk: the writes that are not there yet, and whether
/// they are to be synced.
pub open spec fn handed_out(router: RouterView) -> (Seq<OpView>, bool) {
    (router.unsaved, router.sync)
}

/// What a question to the local store is answered.
pub open spec fn asked<T>(answer: Result<T, ErrorView>) -> Result<T, RouterFault> {
    match answer {
        Ok(v) => Ok(v),
        Err(e) => Err(RouterFault::Store(e)),
    }
}

fn share_domain(args: &AcquireArgs) -> (r: bool)
    ensures
        r == !multi_domain(named_paths(args@)),
{
    let ghost paths = named_paths(args@);
    let ghost n = args.requests@.len() as int;
    let mut first: Option<String> = None;
    let mut i: usize = 0;
    while i < args.requests.len()
        invariant
            i <= args.requests@.len(),
            n == args.requests@.len(),
            paths == named_paths(args@),
            first is Some <==> i > 0,
            first matches Some(d) ==> d@ == lock_domain_spec(paths[0]),
            forall|k: int|
                0 <= k < i ==> lock_domain_spec(#[trigger] paths[k]) == lock_domain_spec(paths[0]),
        decreases args.requests@.len() - i,
    {
        let d = lock_domain(args.requests[i].path.as_str());
        assert(paths[i as int] == args.requests@[i as int].path@);
        match &first {
            None => {
                first = Some(d);
            },
            Some(f) => {
                if !str_eq(f.as_str(), d.as_str()) {
                    assert(lock_domain_spec(paths[0]) != lock_domain_spec(paths[i as int]));
                    return false;
                }
            },
        }
        i = i + 1;
    }
    let mut j: usize = 0;
    while j < args.release_requests.len()
        invariant
            j <= args.release_requests@.len(),
            n == args.requests@.len(),
            paths == named_paths(args@),
            first is Some <==> n + j > 0,
            first matches Some(d) ==> d@ == lock_domain_spec(paths[0]),
            forall|k: int|
                0 <= k < n + j ==> lock_domain_spec(#[trigger] paths[k]) == lock_domain_spec(
                    paths[0],
                ),
        decreases args.release_requests@.len() - j,
    {
        let d = lock_domain(args.release_requests[j].path.as_str());
        assert(paths[n + j] == args.release_requests@[j as int].path@);
        match &first {
            None => {
                first = Some(d);
            },
            Some(f) => {
                if !str_eq(f.as_str(), d.as_str()) {
                    assert(lock_domain_spec(paths[0]) != lock_domain_spec(paths[n + j]));
                    return false;
                }
            },
        }
        j = j + 1;
    }
    true
}

impl Router {
    pub open spec fn view(&self) -> RouterView {
        RouterView {
            group_count: self.group_count,
            db: match self.local_db {
                Some(db) => Some(db@),
                None => None,
            },
            unsaved: self.unsaved@,
            clock: self.clock,
            sync: self.wal_sync.enabled,
        }
    }

    /// A router without a store.
    pub fn new(group_count: u32) -> (r: Router)
        ensures
            r@ == (RouterView {
                group_count,
                db: None,
                unsaved: Seq::empty(),
                clock: 0,
                sync: false,
            }),
    {
        Router {
            group_count,
            local_db: None,
            unsaved: WriteBatch::new(),
            clock: 0,
            wal_sync: WalSync::new(),
        }
    }

    /// Sets whether what is handed on to disk from now on is synced.
    pub fn set_wal_sync(&mut self, enabled: bool)
        ensures
            final(self)@ == sync_set(old(self)@, enabled),
    {
        set_wal_sync(&mut self.wal_sync, enabled);
    }

    /// The time that is stamped on an operation.
    pub fn stamp(&self, now_ms: u64) -> (r: u64)
        ensures
            r == stamped(self@, now_ms),
    {
        if now_ms < self.clock {
            self.clock
        } else {
            now_ms
        }
    }

    /// Gives the router its store, as it is on disk.
    pub fn set_local_db(&mut self, db: Db)
        ensures
            final(self)@ == (RouterView { db: Some(db@), unsaved: Seq::empty(), ..old(self)@ }),
    {
        self.local_db = Some(db);
        self.unsaved = WriteBatch::new();
    }

    /// Hands out the writes that are not on disk yet.
    pub fn take_unsaved(&mut self) -> (r: WriteBatch)
        ensures
            r@ == old(self)@.unsaved,
            final(self)@ == (RouterView { unsaved: Seq::empty(), ..old(self)@ }),
    {
        let mut batch = WriteBatch::new();
        std::mem::swap(&mut batch, &mut self.unsaved);
        batch
    }

    /// Hands out the writes that are not on disk yet, and whether they are to be synced.
    pub fn take_commit(&mut self) -> (r: (WriteBatch, bool))
        ensures
            (r.0@, r.1) == handed_out(old(self)@),
            final(self)@ == (RouterView { unsaved: Seq::empty(), ..old(self)@ }),
    {
        let sync = self.wal_sync.enabled;
        (self.take_unsaved(), sync)
    }

    /// Applies a command to the local store, at the time stamped on it. A command that
    /// fails changes nothing.
    pub fn apply_serialized(&mut self, cmd: Command) -> (r: Result<ApplyResponse, RouterError>)
        ensures
            final(self)@ == command_run(old(self)@, cmd.now_ms, cmd.op@).0,
            match (r, command_run(old(self)@, cmd.now_ms, cmd.op@).1) {
                (Ok(resp), Ok(response)) => resp@ == response,
                (Err(e), Err(f)) => e@ == f,
                _ => false,
            },
    {
        let now = self.stamp(cmd.now_ms);
        let cmd = Command { request_id: cmd.request_id, now_ms: now, op: cmd.op };
        let (resp, batch) = match &self.local_db {
            None => {
                return Err(RouterError::NoLocalStore);
            },
            Some(db) => match prepare(db, &cmd) {
                Err(e) => {
                    return Err(RouterError::Store(e));
                },
                Ok(done) => done,
            },
        };
        if let Some(db) = &mut self.local_db {
            db.write(&batch);
        }
        self.unsaved.append(batch);
        self.clock = match &cmd.op {
            Op::GcSweep { now_ms, .. } => if *now_ms > now {
                *now_ms
            } else {
                now
            },
            _ => now,
        };
        Ok(resp)
    }

    fn run(&mut self, now_ms: u64, op: Op) -> (r: Result<ApplyResponse, RouterError>)
        ensures
            final(self)@ == command_run(old(self)@, now_ms, op@).0,
            match (r, command_run(old(self)@, now_ms, op@).1) {
                (Ok(resp), Ok(response)) => resp@ == response,
                (Err(e), Err(f)) => e@ == f,
                _ => false,
            },
    {
        let cmd = Command { request_id: None, now_ms, op };
        self.apply_serialized(cmd)
    }

    fn run_unit(&mut self, now_ms: u64, op: Op) -> (r: Result<(), RouterError>)
        ensures
            final(self)@ == command_run(old(self)@, now_ms, op@).0,
            is_done(r, command_run(old(self)@, now_ms, op@).1),
    {
        match self.run(now_ms, op) {
            Ok(_) => Ok(()),
            Err(e) => Err(e),
        }
    }

    /// Sweeps up to `batch` entries of the expiry index that are due; the number of
    /// records that went.
    pub fn gc_sweep(&mut self, batch: u32, now_ms: u64) -> (r: Result<u64, RouterError>)
        ensures
            ({
                let op = OpKind::GcSweep { now_ms: stamped(old(self)@, now_ms), batch };
                &&& final(self)@ == command_run(old(self)@, now_ms, op).0
                &&& match (r, command_run(old(self)@, now_ms, op).1) {
                    (Ok(n), Ok(ResponseView::Gc(m))) => n == m,
                    (Err(e), Err(f)) => e@ == f,
                    _ => false,
                }
            }),
    {
        let now = self.stamp(now_ms);
        match self.run(now_ms, Op::GcSweep { now_ms: now, batch }) {
            Ok(ApplyResponse::Gc(reclaimed)) => Ok(reclaimed),
            Ok(_) => Err(RouterError::UnexpectedResponse),
            Err(e) => Err(e),
        }
    }

    /// The number of entries of the expiry index that a sweep now would process.
    pub fn due_entries(&self, batch: u32, now_ms: u64) -> (r: u32)
        ensures
            r == (match self@.db {
                Some(db) => swept_rows(db, stamped(self@, now_ms), batch as nat).len(),
                None => 0,
            }),
    {
        match &self.local_db {
            Some(db) => due_entries(db, self.stamp(now_ms), batch),
            None => 0,
        }
    }

    /// The entry of the expiry index up to which everything has been swept, if a sweep
    /// has left one.
    pub fn gc_cursor(&self) -> (r: Option<Vec<u8>>)
        ensures
            opt_key(r) == (match self@.db {
                Some(db) => gc_cursor(db),
                None => None,
            }),
    {
        match &self.local_db {
            Some(db) => read_cursor(db),
            None => None,
        }
    }

    /// Takes and gives up locks as one.
    pub fn acquire(&mut self, args: AcquireArgs, now_ms: u64) -> (r: Result<
        AcquireOutcome,
        RouterError,
    >)
        ensures
            final(self)@ == acquire_run(old(self)@, now_ms, args@).0,
            match (r, acquire_run(old(self)@, now_ms, args@).1) {
                (Ok(a), Ok(b)) => a@ == b,
                (Err(e), Err(f)) => e@ == f && f != RouterFault::UnexpectedResponse,
                _ => false,
            },
    {
        if !share_domain(&args) {
            return Err(RouterError::MultiDomain(MultiDomainUnsupported));
        }
        if args.requests.len() == 0 && args.release_requests.len() == 0 {
            return Ok(AcquireOutcome::Granted);
        }
        match self.run(now_ms, Op::Acquire(args)) {
            Ok(ApplyResponse::Acquire(outcome)) => Ok(outcome),
            Ok(_) => Err(RouterError::UnexpectedResponse),
            Err(e) => Err(e),
        }
    }

    /// Gives up the named locks of an owner.
    pub fn release(&mut self, owner: &str, reqs: Vec<RelReq>, del_wait: bool, now_ms: u64) -> (r:
        Result<(), RouterError>)
        ensures
            final(self)@ == release_run(
                old(self)@,
                now_ms,
                owner@,
                rels_view(reqs@),
                del_wait,
            ).0,
            is_done(
                r,
                release_run(old(self)@, now_ms, owner@, rels_view(reqs@), del_wait).1,
            ),
    {
        if reqs.len() == 0 {
            return Ok(());
        }
        self.run_unit(now_ms, Op::Release { owner: owner.to_owned(), reqs, del_wait })
    }

    /// Gives up all the locks of an owner.
    pub fn release_all(&mut self, owner: &str, del_wait: bool, now_ms: u64) -> (r: Result<
        (),
        RouterError,
    >)
        ensures
            ({
                let op = OpKind::ReleaseAll { owner: owner@, del_wait };
                &&& final(self)@ == command_run(old(self)@, now_ms, op).0
                &&& is_done(r, command_run(old(self)@, now_ms, op).1)
            }),
    {
        self.run_unit(now_ms, Op::ReleaseAll { owner: owner.to_owned(), del_wait })
    }

    /// Extends the leases of all that an owner holds.
    pub fn renew(&mut self, owner: &str, ttl_ms: u64, now_ms: u64) -> (r: Result<
        RenewOutcome,
        RouterError,
    >)
        ensures
            ({
                let op = OpKind::Renew { owner: owner@, ttl_ms };
                &&& final(self)@ == command_run(old(self)@, now_ms, op).0
                &&& match (r, command_run(old(self)@, now_ms, op).1) {
                    (Ok(a), Ok(ResponseView::Renew(b))) => a@ == b,
                    (Err(e), Err(f)) => e@ == f,
                    _ => false,
                }
            }),
    {
        match self.run(now_ms, Op::Renew { owner: owner.to_owned(), ttl_ms }) {
            Ok(ApplyResponse::Renew(outcome)) => Ok(outcome),
            Ok(_) => Err(RouterError::UnexpectedResponse),
            Err(e) => Err(e),
        }
    }

    /// Takes all the locks of an owner away.
    pub fn force_release(&mut self, victim: &str, now_ms: u64) -> (r: Result<(), RouterError>)
        ensures
            ({
                let op = OpKind::ForceRelease { victim: victim@ };
                &&& final(self)@ == command_run(old(self)@, now_ms, op).0
                &&& is_done(r, command_run(old(self)@, now_ms, op).1)
            }),
    {
        self.run_unit(now_ms, Op::ForceRelease { victim: victim.to_owned() })
    }

    /// The next fencing token.
    pub fn incr_fencing_token(&mut self, now_ms: u64) -> (r: Result<i64, RouterError>)
        ensures
            final(self)@ == command_run(old(self)@, now_ms, OpKind::IncrFence).0,
            match (r, command_run(old(self)@, now_ms, OpKind::IncrFence).1) {
                (Ok(a), Ok(ResponseView::IncrFence(b))) => a == b,
                (Err(e), Err(f)) => e@ == f,
                _ => false,
            },
    {
        match self.run(now_ms, Op::IncrFence) {
            Ok(ApplyResponse::IncrFence(token)) => Ok(token),
            Ok(_) => Err(RouterError::UnexpectedResponse),
            Err(e) => Err(e),
        }
    }

    /// Records whom an owner waits for.
    pub fn set_wait_edge(
        &mut self,
        owner: &str,
        conflict_owner: &str,
        ttl_ms: u64,
        metadata: &Option<WaitEdgeMetadata>,
        now_ms: u64,
    ) -> (r: Result<(), RouterError>)
        ensures
            ({
                let op = OpKind::SetWaitEdge {
                    owner: owner@,
                    conflict_owner: conflict_owner@,
                    metadata: opt_meta(*metadata),
                    ttl_ms,
                };
                &&& final(self)@ == command_run(old(self)@, now_ms, op).0
                &&& is_done(r, command_run(old(self)@, now_ms, op).1)
            }),
    {
        let metadata = match metadata {
            Some(m) => Some(m.copy()),
            None => None,
        };
        let edge = WaitEdge { conflict_owner: conflict_owner.to_owned(), metadata };
        self.run_unit(now_ms, Op::SetWaitEdge { owner: owner.to_owned(), edge, ttl_ms })
    }

    /// Forgets whom an owner waits for.
    pub fn clear_wait_edge(&mut self, owner: &str, now_ms: u64) -> (r: Result<(), RouterError>)
        ensures
            ({
                let op = OpKind::ClearWaitEdge { owner: owner@ };
                &&& final(self)@ == command_run(old(self)@, now_ms, op).0
                &&& is_done(r, command_run(old(self)@, now_ms, op).1)
            }),
    {
        self.run_unit(now_ms, Op::ClearWaitEdge { owner: owner.to_owned() })
    }

    /// Reserves a path for a claimant.
    pub fn set_claim(&mut self, path: &str, claimant: &str, ttl_ms: u64, now_ms: u64) -> (r: Result<
        (),
        RouterError,
    >)
        ensures
            ({
                let op = OpKind::SetClaim { path: path@, claimant: claimant@, ttl_ms };
                &&& final(self)@ == command_run(old(self)@, now_ms, op).0
                &&& is_done(r, command_run(old(self)@, now_ms, op).1)
            }),
    {
        self.run_unit(
            now_ms,
            Op::SetClaim { path: path.to_owned(), claimant: claimant.to_owned(), ttl_ms },
        )
    }

    /// Whether an owner holds the write locks on all the given paths under a token.
    pub fn assert_fencing(&self, owner: &str, token: i64, paths: &Vec<String>, now_ms: u64) -> (r:
        Result<AssertOutcome, RouterError>)
        ensures
            match (r, self@.db) {
                (Err(e), None) => e@ == RouterFault::NoLocalStore,
                (Ok(a), Some(db)) => fencing_check(db, stamped(self@, now_ms), owner@, token, texts(paths@)) == Ok::<
                    AssertView,
                    ErrorView,
                >(a@),
                (Err(e), Some(db)) => asked(
                    fencing_check(db, stamped(self@, now_ms), owner@, token, texts(paths@)),
                ) == Err::<AssertView, RouterFault>(e@),
                (Ok(_), None) => false,
            },
    {
        match &self.local_db {
            None => Err(RouterError::NoLocalStore),
            Some(db) => {
                let mut txn = RocksDbTxn::new(db, self.stamp(now_ms));
                match assert_fencing_inner(&mut txn, owner, token, paths) {
                    Ok(outcome) => Ok(outcome),
                    Err(e) => Err(RouterError::Store(e)),
                }
            },
        }
    }

    /// Walks along wait-for edges from `start`.
    pub fn detect_cycle(&self, start: &str, max_depth: u32, now_ms: u64) -> (r: Result<
        CycleOutcome,
        RouterError,
    >)
        ensures
            match (r, self@.db) {
                (Err(e), None) => e@ == RouterFault::NoLocalStore,
                (Ok(a), Some(db)) => walk(db, stamped(self@, now_ms), seq![start@], max_depth as nat) == Ok::<
                    CycleView,
                    ErrorView,
                >(a@),
                (Err(e), Some(db)) => asked(walk(db, stamped(self@, now_ms), seq![start@], max_depth as nat))
                    == Err::<CycleView, RouterFault>(e@),
                (Ok(_), None) => false,
            },
    {
        match &self.local_db {
            None => Err(RouterError::NoLocalStore),
            Some(db) => {
                let mut txn = RocksDbTxn::new(db, self.stamp(now_ms));
                match detect_cycle_inner(&mut txn, start, max_depth) {
                    Ok(outcome) => Ok(outcome),
                    Err(e) => Err(RouterError::Store(e)),
                }
            },
        }
    }

    /// Whether an owner still stands in the way on a path.
    pub fn is_blocking(&self, path: &str, owner: &str, reason: &str, now_ms: u64) -> (r: Result<
        bool,
        RouterError,
    >)
        ensures
            match (r, self@.db) {
                (Err(e), None) => e@ == RouterFault::NoLocalStore,
                (Ok(a), Some(db)) => blocking(db, stamped(self@, now_ms), path@, owner@, reason@) == Ok::<
                    bool,
                    ErrorView,
                >(a),
                (Err(e), Some(db)) => asked(blocking(db, stamped(self@, now_ms), path@, owner@, reason@)) == Err::<
                    bool,
                    RouterFault,
                >(e@),
                (Ok(_), None) => false,
            },
    {
        match &self.local_db {
            None => Err(RouterError::NoLocalStore),
            Some(db) => {
                let mut txn = RocksDbTxn::new(db, self.stamp(now_ms));
                match is_blocking_inner(&mut txn, path, owner, reason) {
                    Ok(b) => Ok(b),
                    Err(e) => Err(RouterError::Store(e)),
                }
            },
        }
    }

    /// Whether an owner's lease is live. Without a store none is.
    pub fn is_owner_alive(&self, owner: &str, now_ms: u64) -> (r: Result<bool, RouterError>)
        ensures
            match (r, self@.db) {
                (Ok(a), None) => !a,
                (Ok(a), Some(db)) => is_alive(db, stamped(self@, now_ms), owner@) == Ok::<bool, ErrorView>(a),
                (Err(e), Some(db)) => asked(is_alive(db, stamped(self@, now_ms), owner@)) == Err::<
                    bool,
                    RouterFault,
                >(e@),
                (Err(_), None) => false,
            },
    {
        match &self.local_db {
            None => Ok(false),
            Some(db) => {
                let mut txn = RocksDbTxn::new(db, self.stamp(now_ms));
                match is_owner_alive_inner(&mut txn, owner) {
                    Ok(b) => Ok(b),
                    Err(e) => Err(RouterError::Store(e)),
                }
            },
        }
    }

    /// The live locks and claim on one path, and its fence.
    pub fn inspect_path(&self, path: &str, now_ms: u64) -> (r: Result<PathInfo, RouterError>)
        ensures
            match (r, self@.db) {
                (Err(e), None) => e@ == RouterFault::NoLocalStore,
                (Ok(a), Some(db)) => path_info(db, stamped(self@, now_ms), path@) == Ok::<PathView, ErrorView>(a@),
                (Err(e), Some(db)) => asked(path_info(db, stamped(self@, now_ms), path@)) == Err::<
                    PathView,
                    RouterFault,
                >(e@),
                (Ok(_), None) => false,
            },
    {
        match &self.local_db {
            None => Err(RouterError::NoLocalStore),
            Some(db) => {
                let mut txn = RocksDbTxn::new(db, self.stamp(now_ms));
                match inspect_path_inner(&mut txn, path) {
                    Ok(info) => Ok(info),
                    Err(e) => Err(RouterError::Store(e)),
                }
            },
        }
    }

    /// Whether an owner's lease is live, and the locks that it holds. Without a
    /// store it holds none.
    pub fn list_owner_locks(&self, owner: &str, now_ms: u64) -> (r: Result<
        (bool, Vec<OwnedLock>),
        RouterError,
    >)
        ensures
            match (r, self@.db) {
                (Ok((alive, v)), None) => !alive && v@.len() == 0,
                (Ok((alive, v)), Some(db)) => owner_locks(db, stamped(self@, now_ms), owner@) == Ok::<
                    (bool, Seq<RelView>),
                    ErrorView,
                >((alive, owned_view(v@))),
                (Err(e), Some(db)) => asked(owner_locks(db, stamped(self@, now_ms), owner@)) == Err::<
                    (bool, Seq<RelView>),
                    RouterFault,
                >(e@),
                (Err(_), None) => false,
            },
    {
        match &self.local_db {
            None => Ok((false, Vec::new())),
            Some(db) => {
                let mut txn = RocksDbTxn::new(db, self.stamp(now_ms));
                match list_owner_locks_inner(&mut txn, owner) {
                    Ok(locks) => Ok(locks),
                    Err(e) => Err(RouterError::Store(e)),
                }
            },
        }
    }

    /// One page of the dump of all locks.
    pub fn dump_locks(&self, cursor: Option<Vec<u8>>, owner_page: u32, now_ms: u64) -> (r: Result<
        LockDumpPage,
        RouterError,
    >)
        ensures
            match (r, self@.db) {
                (Err(e), None) => e@ == RouterFault::NoLocalStore,
                (Ok(page), Some(db)) => dump_page(db, stamped(self@, now_ms), opt_key(cursor), owner_page) == Ok::<
                    DumpView,
                    ErrorView,
                >(page@),
                (Err(e), Some(db)) => asked(dump_page(db, stamped(self@, now_ms), opt_key(cursor), owner_page))
                    == Err::<DumpView, RouterFault>(e@),
                (Ok(_), None) => false,
            },
    {
        match &self.local_db {
            None => Err(RouterError::NoLocalStore),
            Some(db) => {
                let mut txn = RocksDbTxn::new(db, self.stamp(now_ms));
                match dump_locks_inner(&mut txn, cursor, owner_page) {
                    Ok(page) => Ok(page),
                    Err(e) => Err(RouterError::Store(e)),
                }
            },
        }
    }
}

// ---------------------------------------------------------------------------
// Laws
// ---------------------------------------------------------------------------

/// Whether the contents of the store are what is on disk with the unsaved writes
/// applied.
pub open spec fn caught_up(disk: DbView, router: RouterView) -> bool {
    router.db == Some(applied(disk, router.unsaved))
}

/// A command keeps the store and the disk apart by the unsaved writes alone: once
/// those are written, the disk holds what the store holds.
pub proof fn law_unsaved_writes_catch_up(disk: DbView, router: RouterView, now: u64, op: OpKind)
    requires
        caught_up(disk, router),
    ensures
        caught_up(disk, command_run(router, now, op).0),
{
    let db = router.db->0;
    if let Ok((_, ops)) = command_effect(db, stamped(router, now), op) {
        lemma_applied_concat(disk, router.unsaved, ops);
    }
}

/// An operation that fails leaves the router as it was.
pub proof fn law_failure_changes_nothing(router: RouterView, now: u64, op: OpKind)
    ensures
        command_run(router, now, op).1 is Err ==> command_run(router, now, op).0 == router,
{
}

/// An acquire over more than one lock domain is refused and leaves the router as
/// it was; so does one that names no paths, which is granted.
pub proof fn law_domains_are_checked_first(router: RouterView, now: u64, args: ArgsView)
    ensures
        multi_domain(named_paths(args)) ==> acquire_run(router, now, args) == (
            router,
            Err::<AcquireView, RouterFault>(RouterFault::MultiDomain),
        ),
        named_paths(args).len() == 0 ==> acquire_run(router, now, args) == (
            router,
            Ok::<AcquireView, RouterFault>(AcquireView::Granted),
        ),
{
}

/// An acquire is refused for its domains if and only if two of the paths that it names, to
/// take or to give up, stand under different domains.
pub proof fn law_domains_tell(router: RouterView, now: u64, args: ArgsView)
    ensures
        acquire_run(router, now, args).1 == Err::<AcquireView, RouterFault>(
            RouterFault::MultiDomain,
        ) <==> {
            ||| exists|i: int, j: int|
                0 <= i < args.requests.len() && 0 <= j < args.requests.len() && lock_domain_spec(
                    (#[trigger] args.requests[i]).path,
                ) != lock_domain_spec((#[trigger] args.requests[j]).path)
            ||| exists|i: int, j: int|
                0 <= i < args.requests.len() && 0 <= j < args.releases.len() && lock_domain_spec(
                    (#[trigger] args.requests[i]).path,
                ) != lock_domain_spec((#[trigger] args.releases[j]).path)
            ||| exists|i: int, j: int|
                0 <= i < args.releases.len() && 0 <= j < args.releases.len() && lock_domain_spec(
                    (#[trigger] args.releases[i]).path,
                ) != lock_domain_spec((#[trigger] args.releases[j]).path)
        },
{
    let all = named_paths(args);
    let n = args.requests.len() as int;
    assert(all.len() == n + args.releases.len());
    assert forall|i: int| 0 <= i < all.len() implies #[trigger] all[i] == (if i < n {
        args.requests[i].path
    } else {
        args.releases[i - n].path
    }) by {}
    if multi_domain(all) {
        let (i, j) = choose|i: int, j: int|
            0 <= i < all.len() && 0 <= j < all.len() && lock_domain_spec(#[trigger] all[i])
                != lock_domain_spec(#[trigger] all[j]);
        if i < n && j < n {
            assert(args.requests[i].path == all[i] && args.requests[j].path == all[j]);
        } else if i < n {
            assert(args.requests[i].path == all[i] && args.releases[j - n].path == all[j]);
        } else if j < n {
            assert(args.releases[i - n].path == all[i] && args.requests[j].path == all[j]);
        } else {
            assert(args.releases[i - n].path == all[i] && args.releases[j - n].path == all[j]);
        }
    }
    if exists|i: int, j: int|
        0 <= i < args.requests.len() && 0 <= j < args.requests.len() && lock_domain_spec(
            (#[trigger] args.requests[i]).path,
        ) != lock_domain_spec((#[trigger] args.requests[j]).path) {
        let (i, j) = choose|i: int, j: int|
            0 <= i < args.requests.len() && 0 <= j < args.requests.len() && lock_domain_spec(
                (#[trigger] args.requests[i]).path,
            ) != lock_domain_spec((#[trigger] args.requests[j]).path);
        assert(lock_domain_spec(all[i]) != lock_domain_spec(all[j]));
    }
    if exists|i: int, j: int|
        0 <= i < args.requests.len() && 0 <= j < args.releases.len() && lock_domain_spec(
            (#[trigger] args.requests[i]).path,
        ) != lock_domain_spec((#[trigger] args.releases[j]).path) {
        let (i, j) = choose|i: int, j: int|
            0 <= i < args.requests.len() && 0 <= j < args.releases.len() && lock_domain_spec(
                (#[trigger] args.requests[i]).path,
            ) != lock_domain_spec((#[trigger] args.releases[j]).path);
        assert(lock_domain_spec(all[i]) != lock_domain_spec(all[n + j]));
    }
    if exists|i: int, j: int|
        0 <= i < args.releases.len() && 0 <= j < args.releases.len() && lock_domain_spec(
            (#[trigger] args.releases[i]).path,
        ) != lock_domain_spec((#[trigger] args.releases[j]).path) {
        let (i, j) = choose|i: int, j: int|
            0 <= i < args.releases.len() && 0 <= j < args.releases.len() && lock_domain_spec(
                (#[trigger] args.releases[i]).path,
            ) != lock_domain_spec((#[trigger] args.releases[j]).path);
        assert(lock_domain_spec(all[n + i]) != lock_domain_spec(all[n + j]));
    }
}

/// A command takes effect at the later of the caller's time and the router's clock, and what
/// it does to the store is what is handed on to disk. The clock then stands at that time or,
/// after a sweep, at the time of the sweep if that is later.
pub proof fn law_effect_is_in_time(router: RouterView, now: u64, op: OpKind)
    ensures
        ({
            let t = if router.clock <= now {
                now
            } else {
                router.clock
            };
            let (after, answer) = command_run(router, now, op);
            match router.db {
                None => answer == Err::<ResponseView, RouterFault>(RouterFault::NoLocalStore),
                Some(db) => match command_effect(db, t, op) {
                    Err(e) => answer == Err::<ResponseView, RouterFault>(RouterFault::Store(e)),
                    Ok((response, ops)) => {
                        &&& answer == Ok::<ResponseView, RouterFault>(response)
                        &&& after.db == Some(applied(db, ops))
                        &&& after.unsaved == router.unsaved + ops
                        &&& after.clock >= t
                        &&& op matches OpKind::GcSweep { now_ms, .. } ==> after.clock >= now_ms
                        &&& after.clock == t || (op matches OpKind::GcSweep { now_ms, .. }
                            && after.clock == now_ms)
                        &&& after.group_count == router.group_count
                        &&& after.sync == router.sync
                    },
                },
            }
        }),
{
}

/// What a sequence of commands makes of a router, each with the time of the caller's
/// clock.
pub open spec fn runs(router: RouterView, commands: Seq<(u64, OpKind)>) -> RouterView
    decreases commands.len(),
{
    if commands.len() == 0 {
        router
    } else {
        let (now, op) = commands.last();
        command_run(runs(router, commands.drop_last()), now, op).0
    }
}

/// The clock of a router never falls, whatever the caller's clock does.
pub proof fn law_clock_never_falls(router: RouterView, commands: Seq<(u64, OpKind)>)
    ensures
        router.clock <= runs(router, commands).clock,
    decreases commands.len(),
{
    if commands.len() > 0 {
        law_clock_never_falls(router, commands.drop_last());
    }
}

/// Mutual exclusion holds whatever the caller's clock does: commands that reach the
/// store through a router, with any times in any order, leave no two owners with locks
/// that exclude each other.
pub proof fn law_router_keeps_exclusion(router: RouterView, commands: Seq<(u64, OpKind)>)
    requires
        router.db matches Some(db) && sound(db, router.clock),
    ensures
        runs(router, commands).db matches Some(db) && sound(db, runs(router, commands).clock),
    decreases commands.len(),
{
    if commands.len() > 0 {
        let before = runs(router, commands.drop_last());
        let (now, op) = commands.last();
        law_router_keeps_exclusion(router, commands.drop_last());
        if command_effect(before.db->0, stamped(before, now), op) is Ok {
            law_commands_keep_exclusion(before.db->0, before.clock, stamped(before, now), op);
        }
    }
}

/// Sweeps miss nothing whatever the caller's clock does: commands that reach the store
/// through a router, with any times in any order, keep every record that expires
/// listed ahead of the sweep's position.
pub proof fn law_router_keeps_the_listing(router: RouterView, commands: Seq<(u64, OpKind)>)
    requires
        router.db matches Some(db) && all_listed(db, router.clock),
    ensures
        runs(router, commands).db matches Some(db) && all_listed(db, runs(router, commands).clock),
    decreases commands.len(),
{
    if commands.len() > 0 {
        let before = runs(router, commands.drop_last());
        let (now, op) = commands.last();
        law_router_keeps_the_listing(router, commands.drop_last());
        if command_effect(before.db->0, stamped(before, now), op) is Ok {
            law_commands_keep_the_listing(before.db->0, before.clock, stamped(before, now), op);
        }
    }
}

/// The last setting holds: whatever was set before, and whatever commands run
/// afterwards, what is handed out for the disk carries the value that was set last.
/// Before any is set, nothing is synced.
pub proof fn law_last_sync_setting_holds(
    router: RouterView,
    first: bool,
    last: bool,
    between: Seq<(u64, OpKind)>,
    after: Seq<(u64, OpKind)>,
)
    ensures
        handed_out(
            runs(sync_set(runs(sync_set(router, first), between), last), after),
        ).1 == last,
        !router.sync ==> !handed_out(runs(router, after)).1,
{
    lemma_runs_keep_sync(sync_set(runs(sync_set(router, first), between), last), after);
    lemma_runs_keep_sync(router, after);
}

proof fn lemma_runs_keep_sync(router: RouterView, commands: Seq<(u64, OpKind)>)
    ensures
        runs(router, commands).sync == router.sync,
    decreases commands.len(),
{
    if commands.len() > 0 {
        lemma_runs_keep_sync(router, commands.drop_last());
    }
}

/// The answer to the command at position `k` of a sequence.
pub open spec fn answer(router: RouterView, commands: Seq<(u64, OpKind)>, k: int) -> Result<
    ResponseView,
    RouterFault,
> {
    command_run(runs(router, commands.take(k)), commands[k].0, commands[k].1).1
}

/// Whether the command at position `k` is an acquire that is granted.
pub open spec fn granted(router: RouterView, commands: Seq<(u64, OpKind)>, k: int) -> bool {
    answer(router, commands, k) == Ok::<ResponseView, RouterFault>(
        ResponseView::Acquire(AcquireView::Granted),
    )
}

/// Whether the command at position `k` of a sequence finds the lock of `x` on `p`
/// neither given up by it nor expired: it is none by which `x` gives the lock up,
/// and no record of the lock, or of the life of `x`, has expired when it takes
/// effect.
pub open spec fn undisturbed(
    router: RouterView,
    commands: Seq<(u64, OpKind)>,
    k: int,
    m: Mode,
    p: Seq<char>,
    x: Seq<char>,
) -> bool {
    let before = runs(router, commands.take(k));
    let (now, op) = commands[k];
    &&& !gives_up(op, m, p, x)
    &&& before.db matches Some(db) ==> !lapsed(db, effect_time(stamped(before, now), op), m, p, x)
}

proof fn lemma_lock_stands_between(
    router: RouterView,
    commands: Seq<(u64, OpKind)>,
    a: int,
    b: int,
    args: ArgsView,
    i: int,
)
    requires
        router.db matches Some(db) && sound(db, router.clock),
        0 <= a < b < commands.len(),
        commands[a].1 == OpKind::Acquire(args),
        0 <= i < args.requests.len(),
        nul_free(args.requests[i].path),
        nul_free(args.owner),
        granted(router, commands, a),
        forall|k: int|
            a < k < b ==> #[trigger] undisturbed(
                router,
                commands,
                k,
                args.requests[i].mode,
                args.requests[i].path,
                args.owner,
            ),
    ensures
        runs(router, commands.take(b)).db matches Some(db) && stands(
            db,
            args.requests[i].mode,
            args.requests[i].path,
            args.owner,
        ),
    decreases b,
{
    let (m, p) = (args.requests[i].mode, args.requests[i].path);
    let x = args.owner;
    let k = b - 1;
    let before = runs(router, commands.take(k));
    let (now, op) = commands[k];
    let t = stamped(before, now);
    assert(commands.take(b).drop_last() =~= commands.take(k));
    assert(commands.take(b).last() == commands[k]);
    law_router_keeps_exclusion(router, commands.take(k));
    let db = before.db->0;
    if k == a {
        law_granted_command_stands(db, t, args, i);
    } else {
        lemma_lock_stands_between(router, commands, a, k, args, i);
        assert(undisturbed(router, commands, k, m, p, x));
        if command_effect(db, t, op) is Ok {
            law_time_passes(db, before.clock, t);
            law_lock_stands(db, t, op, m, p, x);
        }
    }
}

/// At most one is granted: in one sequence of commands on a router, whatever else it
/// holds and whatever the callers' clocks do, of two acquires by different owners,
/// for locks that exclude each other (such as write locks on the same path, or a read
/// lock and a write lock on it), at most one is granted, unless between them the lock
/// of the first is given up or expires.
pub proof fn law_at_most_one_is_granted(
    router: RouterView,
    commands: Seq<(u64, OpKind)>,
    a: int,
    b: int,
    first: ArgsView,
    i: int,
    second: ArgsView,
    j: int,
)
    requires
        router.db matches Some(db) && sound(db, router.clock),
        0 <= a < b < commands.len(),
        commands[a].1 == OpKind::Acquire(first),
        commands[b].1 == OpKind::Acquire(second),
        first.owner != second.owner,
        0 <= i < first.requests.len(),
        0 <= j < second.requests.len(),
        conflicting(
            second.requests[j].path,
            second.requests[j].mode,
            first.requests[i].path,
            first.requests[i].mode,
        ),
        nul_free(first.owner),
        nul_free(second.owner),
        nul_free(first.requests[i].path),
        nul_free(second.requests[j].path),
        forall|k: int|
            a < k <= b ==> #[trigger] undisturbed(
                router,
                commands,
                k,
                first.requests[i].mode,
                first.requests[i].path,
                first.owner,
            ),
    ensures
        !(granted(router, commands, a) && granted(router, commands, b)),
{
    if granted(router, commands, a) && granted(router, commands, b) {
        let (m, p) = (first.requests[i].mode, first.requests[i].path);
        let x = first.owner;
        let before = runs(router, commands.take(b));
        let t = stamped(before, commands[b].0);
        lemma_lock_stands_between(router, commands, a, b, first, i);
        law_router_keeps_exclusion(router, commands.take(b));
        assert(undisturbed(router, commands, b, m, p, x));
        let db = before.db->0;
        law_time_passes(db, before.clock, t);
        lemma_stands(db, t, m, p, x);
        law_live_lock_is_respected(db, t, second, j, m, p, x);
    }
}

} // verus!
