//! Commands of the state machine and their responses.

use vstd::prelude::*;
use crate::engine::types::{
    opt_meta, AcquireArgs, AcquireOutcome, AcquireView, ArgsView, MetaView, RelReq, RelView,
    RenewOutcome, RenewView, WaitEdgeMetadata, rels_view,
};

verus! {

/// A wait-for edge: the awaited owner, and what the waiter is blocked on.
#[derive(Debug, Clone, PartialEq, Eq)]
pub struct WaitEdge {
    pub conflict_owner: String,
    pub metadata: Option<WaitEdgeMetadata>,
}

/// What a command does.
#[derive(Debug, Clone, PartialEq, Eq)]
pub enum Op {
    Acquire(AcquireArgs),
    Release { owner: String, reqs: Vec<RelReq>, del_wait: bool },
    ReleaseAll { owner: String, del_wait: bool },
    Renew { owner: String, ttl_ms: u64 },
    ForceRelease { victim: String },
    SetClaim { path: String, claimant: String, ttl_ms: u64 },
    SetWaitEdge { owner: String, edge: WaitEdge, ttl_ms: u64 },
    ClearWaitEdge { owner: String },
    GcSweep { now_ms: u64, batch: u32 },
    IncrFence,
}

/// A command, with the time at which it takes effect.
#[derive(Debug, Clone, PartialEq, Eq)]
pub struct Command {
    pub request_id: Option<String>,
    pub now_ms: u64,
    pub op: Op,
}

/// The response to a command.
#[derive(Debug, Clone, PartialEq, Eq)]
pub enum ApplyResponse {
    Unit,
    Acquire(AcquireOutcome),
    Renew(RenewOutcome),
    Gc(u64),
    IncrFence(i64),
}

/// What a command does.
pub enum OpKind {
    Acquire(ArgsView),
    Release { owner: Seq<char>, reqs: Seq<RelView>, del_wait: bool },
    ReleaseAll { owner: Seq<char>, del_wait: bool },
    Renew { owner: Seq<char>, ttl_ms: u64 },
    ForceRelease { victim: Seq<char> },
    SetClaim { path: Seq<char>, claimant: Seq<char>, ttl_ms: u64 },
    SetWaitEdge {
        owner: Seq<char>,
        conflict_owner: Seq<char>,
        metadata: Option<MetaView>,
        ttl_ms: u64,
    },
    ClearWaitEdge { owner: Seq<char> },
    GcSweep { now_ms: u64, batch: u32 },
    IncrFence,
}

impl Op {
    pub open spec fn view(&self) -> OpKind {
        match self {
            Op::Acquire(args) => OpKind::Acquire(args@),
            Op::Release { owner, reqs, del_wait } => OpKind::Release {
                owner: owner@,
                reqs: rels_view(reqs@),
                del_wait: *del_wait,
            },
            Op::ReleaseAll { owner, del_wait } => OpKind::ReleaseAll {
                owner: owner@,
                del_wait: *del_wait,
            },
            Op::Renew { owner, ttl_ms } => OpKind::Renew { owner: owner@, ttl_ms: *ttl_ms },
            Op::ForceRelease { victim } => OpKind::ForceRelease { victim: victim@ },
            Op::SetClaim { path, claimant, ttl_ms } => OpKind::SetClaim {
                path: path@,
                claimant: claimant@,
                ttl_ms: *ttl_ms,
            },
            Op::SetWaitEdge { owner, edge, ttl_ms } => OpKind::SetWaitEdge {
                owner: owner@,
                conflict_owner: edge.conflict_owner@,
                metadata: opt_meta(edge.metadata),
                ttl_ms: *ttl_ms,
            },
            Op::ClearWaitEdge { owner } => OpKind::ClearWaitEdge { owner: owner@ },
            Op::GcSweep { now_ms, batch } => OpKind::GcSweep { now_ms: *now_ms, batch: *batch },
            Op::IncrFence => OpKind::IncrFence,
        }
    }
}

/// The response to a command.
pub enum ResponseView {
    Unit,
    Acquire(AcquireView),
    Renew(RenewView),
    Gc(u64),
    IncrFence(i64),
}

impl ApplyResponse {
    pub open spec fn view(&self) -> ResponseView {
        match self {
            ApplyResponse::Unit => ResponseView::Unit,
            ApplyResponse::Acquire(o) => ResponseView::Acquire(o@),
            ApplyResponse::Renew(o) => ResponseView::Renew(o@),
            ApplyResponse::Gc(n) => ResponseView::Gc(*n),
            ApplyResponse::IncrFence(n) => ResponseView::IncrFence(*n),
        }
    }
}

} // verus!
