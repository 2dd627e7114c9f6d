//! Requests and outcomes of the lock engine.

use vstd::prelude::*;
use crate::store_rocksdb::{opt_key, opt_text};
use crate::text::texts;

verus! {

/// The two kinds of lock.
#[derive(Debug, Clone, Copy, PartialEq, Eq, Structural)]
pub enum Mode {
    Read,
    Write,
}

/// Whether a request is for a lock that its owner holds already.
#[derive(Debug, Clone, Copy, PartialEq, Eq, Structural)]
pub enum State {
    Held,
    New,
}

/// A requested lock.
#[derive(Debug, Clone, PartialEq, Eq)]
pub struct LockReq {
    pub path: String,
    pub mode: Mode,
    pub state: State,
}

/// A requested lock.
pub struct ReqView {
    pub path: Seq<char>,
    pub mode: Mode,
    pub state: State,
}

impl LockReq {
    pub open spec fn view(&self) -> ReqView {
        ReqView { path: self.path@, mode: self.mode, state: self.state }
    }
}

pub open spec fn reqs_view(v: Seq<LockReq>) -> Seq<ReqView> {
    Seq::new(v.len(), |i: int| v[i]@)
}

/// A lock to give up.
#[derive(Debug, Clone, PartialEq, Eq)]
pub struct RelReq {
    pub path: String,
    pub mode: Mode,
}

/// A lock to give up.
pub struct RelView {
    pub path: Seq<char>,
    pub mode: Mode,
}

impl RelReq {
    pub open spec fn view(&self) -> RelView {
        RelView { path: self.path@, mode: self.mode }
    }

    /// A copy of the request.
    pub fn copy(&self) -> (r: RelReq)
        ensures
            r@ == self@,
    {
        RelReq { path: self.path.clone(), mode: self.mode }
    }
}

pub open spec fn rels_view(v: Seq<RelReq>) -> Seq<RelView> {
    Seq::new(v.len(), |i: int| v[i]@)
}

/// The arguments of an acquire.
#[derive(Debug, Clone, PartialEq, Eq)]
pub struct AcquireArgs {
    pub owner_id: String,
    pub ttl_ms: u64,
    pub requests: Vec<LockReq>,
    pub fencing_token: i64,
    pub release_requests: Vec<RelReq>,
}

/// The arguments of an acquire.
pub struct ArgsView {
    pub owner: Seq<char>,
    pub ttl: u64,
    pub requests: Seq<ReqView>,
    pub token: i64,
    pub releases: Seq<RelView>,
}

impl AcquireArgs {
    pub open spec fn view(&self) -> ArgsView {
        ArgsView {
            owner: self.owner_id@,
            ttl: self.ttl_ms,
            requests: reqs_view(self.requests@),
            token: self.fencing_token,
            releases: rels_view(self.release_requests@),
        }
    }
}

/// Why a lock was not given, or is not held.
#[derive(Debug, Clone, Copy, PartialEq, Eq, Structural)]
pub enum Reason {
    AncestorLocked,
    WriteLocked,
    ReadLocked,
    DescendantWriteLocked,
    DescendantReadLocked,
    /// A claim on the path or below it.
    PreemptClaimed,
    /// A claim above the path.
    PreemptClaimedAbove,
    StaleFencingToken,
    MissingRead,
    MissingWrite,
    OwnerExpired,
    StaleOwner,
}

/// The reason as callers see it.
pub open spec fn reason_text(r: Reason) -> Seq<char> {
    match r {
        Reason::AncestorLocked => "ancestor_locked"@,
        Reason::WriteLocked => "write_locked"@,
        Reason::ReadLocked => "read_locked"@,
        Reason::DescendantWriteLocked => "descendant_write_locked"@,
        Reason::DescendantReadLocked => "descendant_read_locked"@,
        Reason::PreemptClaimed => "preempt_claimed"@,
        Reason::PreemptClaimedAbove => "preempt_claimed"@,
        Reason::StaleFencingToken => "stale_fencing_token"@,
        Reason::MissingRead => "missing_read"@,
        Reason::MissingWrite => "missing_write"@,
        Reason::OwnerExpired => "owner_expired"@,
        Reason::StaleOwner => "stale_owner"@,
    }
}

/// The reason given for a path that a claim reserves.
pub const REASON_PREEMPT_CLAIMED: &'static str = "preempt_claimed";

impl Reason {
    /// The reason as callers see it.
    pub fn text(self) -> (r: &'static str)
        ensures
            r@ == reason_text(self),
    {
        match self {
            Reason::AncestorLocked => "ancestor_locked",
            Reason::WriteLocked => "write_locked",
            Reason::ReadLocked => "read_locked",
            Reason::DescendantWriteLocked => "descendant_write_locked",
            Reason::DescendantReadLocked => "descendant_read_locked",
            Reason::PreemptClaimed => "preempt_claimed",
            Reason::PreemptClaimedAbove => "preempt_claimed",
            Reason::StaleFencingToken => "stale_fencing_token",
            Reason::MissingRead => "missing_read",
            Reason::MissingWrite => "missing_write",
            Reason::OwnerExpired => "owner_expired",
            Reason::StaleOwner => "stale_owner",
        }
    }
}

/// What became of an acquire.
#[derive(Debug, Clone, PartialEq, Eq)]
pub enum AcquireOutcome {
    Granted,
    Conflict { path: String, owner: String, reason: String },
    Lost { path: String, reason: String },
}

/// What became of an acquire.
pub enum AcquireView {
    Granted,
    Conflict { path: Seq<char>, owner: Seq<char>, reason: Seq<char> },
    Lost { path: Seq<char>, reason: Seq<char> },
}

impl AcquireOutcome {
    pub open spec fn view(&self) -> AcquireView {
        match self {
            AcquireOutcome::Granted => AcquireView::Granted,
            AcquireOutcome::Conflict { path, owner, reason } => AcquireView::Conflict {
                path: path@,
                owner: owner@,
                reason: reason@,
            },
            AcquireOutcome::Lost { path, reason } => AcquireView::Lost {
                path: path@,
                reason: reason@,
            },
        }
    }
}

/// What became of a renewal.
#[derive(Debug, Clone, PartialEq, Eq)]
pub enum RenewOutcome {
    Renewed,
    Lost { path: String, reason: String },
}

/// What became of a renewal.
pub enum RenewView {
    Renewed,
    Lost { path: Seq<char>, reason: Seq<char> },
}

impl RenewOutcome {
    pub open spec fn view(&self) -> RenewView {
        match self {
            RenewOutcome::Renewed => RenewView::Renewed,
            RenewOutcome::Lost { path, reason } => RenewView::Lost { path: path@, reason: reason@ },
        }
    }
}

/// Whether fenced ownership holds.
#[derive(Debug, Clone, PartialEq, Eq)]
pub enum AssertOutcome {
    Held,
    Fail { path: String, reason: String },
}

/// Whether fenced ownership holds.
pub enum AssertView {
    Held,
    Fail { path: Seq<char>, reason: Seq<char> },
}

impl AssertOutcome {
    pub open spec fn view(&self) -> AssertView {
        match self {
            AssertOutcome::Held => AssertView::Held,
            AssertOutcome::Fail { path, reason } => AssertView::Fail {
                path: path@,
                reason: reason@,
            },
        }
    }
}

/// What a walk along wait-for edges found.
#[derive(Debug, Clone, PartialEq, Eq)]
pub enum CycleOutcome {
    Clear,
    Cycle(Vec<String>),
    Truncated(Vec<String>),
}

/// What a walk along wait-for edges found.
pub enum CycleView {
    Clear,
    Cycle(Seq<Seq<char>>),
    Truncated(Seq<Seq<char>>),
}

impl CycleOutcome {
    pub open spec fn view(&self) -> CycleView {
        match self {
            CycleOutcome::Clear => CycleView::Clear,
            CycleOutcome::Cycle(chain) => CycleView::Cycle(texts(chain@)),
            CycleOutcome::Truncated(chain) => CycleView::Truncated(texts(chain@)),
        }
    }
}

/// What a waiter is blocked on: the path and the reason of the conflict.
#[derive(Debug, Clone, PartialEq, Eq)]
pub struct WaitEdgeMetadata {
    pub conflict_path: String,
    pub reason: String,
}

/// What a waiter is blocked on.
pub struct MetaView {
    pub path: Seq<char>,
    pub reason: Seq<char>,
}

impl WaitEdgeMetadata {
    pub open spec fn view(&self) -> MetaView {
        MetaView { path: self.conflict_path@, reason: self.reason@ }
    }

    /// A copy of the metadata.
    pub fn copy(&self) -> (r: WaitEdgeMetadata)
        ensures
            r@ == self@,
    {
        WaitEdgeMetadata { conflict_path: self.conflict_path.clone(), reason: self.reason.clone() }
    }
}

/// The view of optional metadata.
pub open spec fn opt_meta(m: Option<WaitEdgeMetadata>) -> Option<MetaView> {
    match m {
        Some(m) => Some(m@),
        None => None,
    }
}

/// The live locks and claims on one path.
#[derive(Debug, Clone, PartialEq, Eq)]
pub struct PathInfo {
    pub write_owner: Option<String>,
    pub read_owners: Vec<String>,
    pub fence: Option<i64>,
    pub claim_owner: Option<String>,
}

/// The live locks and claim on one path.
pub struct PathView {
    pub writer: Option<Seq<char>>,
    pub readers: Seq<Seq<char>>,
    pub fence: Option<i64>,
    pub claimant: Option<Seq<char>>,
}

impl PathInfo {
    pub open spec fn view(&self) -> PathView {
        PathView {
            writer: opt_text(self.write_owner),
            readers: texts(self.read_owners@),
            fence: self.fence,
            claimant: opt_text(self.claim_owner),
        }
    }
}

/// A lock that an owner holds.
#[derive(Debug, Clone, PartialEq, Eq)]
pub struct OwnedLock {
    pub path: String,
    pub mode: Mode,
}

/// One lock in a dump, with the fence of its path if it is a write lock.
#[derive(Debug, Clone, PartialEq, Eq)]
pub struct LockDumpEntry {
    pub owner: String,
    pub mode: Mode,
    pub path: String,
    pub fence: Option<i64>,
}

/// One lock in a dump.
pub struct EntryView {
    pub owner: Seq<char>,
    pub mode: Mode,
    pub path: Seq<char>,
    pub fence: Option<i64>,
}

impl LockDumpEntry {
    pub open spec fn view(&self) -> EntryView {
        EntryView {
            owner: self.owner@,
            mode: self.mode,
            path: self.path@,
            fence: self.fence,
        }
    }
}

pub open spec fn entries_view(v: Seq<LockDumpEntry>) -> Seq<EntryView> {
    Seq::new(v.len(), |i: int| v[i]@)
}

/// One page of a dump of all locks. The cursor leads to the next page; the last page
/// has none.
#[derive(Debug, Clone, PartialEq, Eq)]
pub struct LockDumpPage {
    pub entries: Vec<LockDumpEntry>,
    pub cursor: Option<Vec<u8>>,
    pub done: bool,
}

/// One page of a dump of all locks.
pub struct DumpView {
    pub entries: Seq<EntryView>,
    pub cursor: Option<Seq<u8>>,
    pub done: bool,
}

impl LockDumpPage {
    pub open spec fn view(&self) -> DumpView {
        DumpView {
            entries: entries_view(self.entries@),
            cursor: opt_key(self.cursor),
            done: self.done,
        }
    }
}

} // verus!
