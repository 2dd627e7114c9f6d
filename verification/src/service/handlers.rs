//! The handlers of the lock service: each checks its request, runs the operation, and
//! says how it is answered and which event it publishes.

use vstd::prelude::*;
use crate::cluster::router::{
    acquire_run, command_run, release_run, stamped, Router, RouterError, RouterFault, RouterView,
};
use crate::engine::conflict::is_alive;
use crate::engine::query::{blocking, fencing_check, walk};
use crate::events::{
    event_of, local_delivery, peer_delivery, Broadcaster, BroadcasterView, Delivery, DeliveryView,
    Subscription,
};
use crate::proto::{
    AcquireRequest, AcquireResponse, AssertFencingRequest, AssertFencingResponse,
    DetectCycleResponse, Event, EventType, GetFenceResponse, GetWriteOwnerResponse,
    IsBlockingRequest, ReleaseLocksRequest, RenewResponse, RequestRevokeRequest,
    SetWaitEdgeRequest,
};
use crate::raft::command::{OpKind, ResponseView};
use crate::service::checks::{
    acquire_args, acquire_publishes, acquire_request, acquire_response, assert_fault,
    assert_response, blocking_fault, check_assert_fencing, check_id, check_is_blocking,
    check_renew, clamped_depth, cycle_depth, cycle_response, debug_text, engine_err,
    engine_fault, event_fault, id_fault, published_event, publishes_release, release_args,
    release_request, renew_response, revoke_plants_claim, revoke_request, tells_acquire,
    tells_assert, tells_cycle, tells_renew, ttl_fault, wait_edge_metadata, wait_edge_request,
};
use crate::status::{either, invalid, is_check, Code, Status, StatusView};
use crate::store_rocksdb::{opt_text, scan_limit_message, ErrorView, StoreError};
use crate::text::texts;

verus! {

/// The lock service: the router that it runs operations through, and the
/// broadcaster of its events.
#[derive(Debug)]
pub struct PathLockService {
    pub router: Router,
    pub broadcaster: Broadcaster,
}

/// The view of an optional delivery.
pub open spec fn opt_delivery(d: Option<Delivery>) -> Option<DeliveryView> {
    match d {
        Some(d) => Some(d@),
        None => None,
    }
}

/// The answer to a failed operation: a set that is too large to enumerate is reported
/// as such. No other error of the local store goes away by itself.
pub open spec fn failed(fault: RouterFault) -> StatusView {
    match fault {
        RouterFault::Store(ErrorView::ScanLimit { operation, limit }) => StatusView {
            code: Code::ResourceExhausted,
            message: scan_limit_message(operation, limit as nat),
        },
        _ => engine_fault(false),
    }
}

fn fail(e: RouterError) -> (s: Status)
    ensures
        s@ == failed(e@),
{
    match e {
        RouterError::Store(StoreError::ScanLimit(e)) => Status::resource_exhausted(e.to_string()),
        _ => engine_err(false),
    }
}

impl PathLockService {
    pub fn new(router: Router, broadcaster: Broadcaster) -> (r: PathLockService)
        ensures
            r.router == router,
            r.broadcaster == broadcaster,
    {
        PathLockService { router, broadcaster }
    }

    /// Takes and gives up locks as one.
    pub fn acquire(&mut self, req: &AcquireRequest, now_ms: u64) -> (r: Result<
        (AcquireResponse, Option<Delivery>),
        Status,
    >)
        ensures
            final(self).broadcaster == old(self).broadcaster,
            match acquire_request(*req) {
                Err(f) => {
                    &&& r matches Err(s) && s@ == f
                    &&& final(self).router == old(self).router
                },
                Ok(args) => {
                    let (after, outcome) = acquire_run(old(self).router@, now_ms, args);
                    &&& final(self).router@ == after
                    &&& match (r, outcome) {
                        (Ok((resp, d)), Ok(o)) => {
                            &&& tells_acquire(resp, o)
                            &&& opt_delivery(d) == (if publishes_release(*req, o) {
                                Some(
                                    local_delivery(
                                        old(self).broadcaster@,
                                        event_of(EventType::Released, req.owner_id@),
                                    ),
                                )
                            } else {
                                None
                            })
                        },
                        (Err(s), Err(f)) => s@ == failed(f),
                        _ => false,
                    }
                },
            },
    {
        let args = match acquire_args(req) {
            Err(s) => {
                return Err(s);
            },
            Ok(args) => args,
        };
        match self.router.acquire(args, now_ms) {
            Err(e) => Err(fail(e)),
            Ok(outcome) => {
                let resp = acquire_response(&outcome);
                let delivery = if acquire_publishes(req, &outcome) {
                    Some(self.broadcaster.released(req.owner_id.as_str()))
                } else {
                    None
                };
                Ok((resp, delivery))
            },
        }
    }

    /// Gives up the named locks of an owner, and publishes their release.
    pub fn release(&mut self, req: &ReleaseLocksRequest, now_ms: u64) -> (r: Result<
        Delivery,
        Status,
    >)
        ensures
            final(self).broadcaster == old(self).broadcaster,
            match release_request(*req) {
                Err(f) => {
                    &&& r matches Err(s) && s@ == f
                    &&& final(self).router == old(self).router
                },
                Ok(reqs) => {
                    let (after, done) = release_run(
                        old(self).router@,
                        now_ms,
                        req.owner_id@,
                        reqs,
                        req.del_wait_key,
                    );
                    &&& final(self).router@ == after
                    &&& match (r, done) {
                        (Ok(d), Ok(_)) => d@ == local_delivery(
                            old(self).broadcaster@,
                            event_of(EventType::Released, req.owner_id@),
                        ),
                        (Err(s), Err(f)) => s@ == failed(f),
                        _ => false,
                    }
                },
            },
    {
        let reqs = match release_args(req) {
            Err(s) => {
                return Err(s);
            },
            Ok(reqs) => reqs,
        };
        match self.router.release(req.owner_id.as_str(), reqs, req.del_wait_key, now_ms) {
            Err(e) => Err(fail(e)),
            Ok(_) => Ok(self.broadcaster.released(req.owner_id.as_str())),
        }
    }

    /// Gives up all the locks of an owner, and publishes their release.
    pub fn release_all(&mut self, owner_id: &str, del_wait_key: bool, now_ms: u64) -> (r: Result<
        Delivery,
        Status,
    >)
        ensures
            final(self).broadcaster == old(self).broadcaster,
            publishes(
                old(self).router@,
                final(self).router@,
                id_fault("owner_id"@, owner_id@),
                command_run(
                    old(self).router@,
                    now_ms,
                    OpKind::ReleaseAll { owner: owner_id@, del_wait: del_wait_key },
                ),
                local_delivery(
                    old(self).broadcaster@,
                    event_of(EventType::Released, owner_id@),
                ),
                r,
            ),
    {
        match check_id("owner_id", owner_id) {
            Err(s) => {
                return Err(s);
            },
            Ok(_) => {},
        }
        match self.router.release_all(owner_id, del_wait_key, now_ms) {
            Err(e) => Err(fail(e)),
            Ok(_) => Ok(self.broadcaster.released(owner_id)),
        }
    }

    /// Extends the leases of all that an owner holds.
    pub fn renew(&mut self, owner_id: &str, ttl_ms: u64, now_ms: u64) -> (r: Result<
        RenewResponse,
        Status,
    >)
        ensures
            final(self).broadcaster == old(self).broadcaster,
            match either(id_fault("owner_id"@, owner_id@), ttl_fault(ttl_ms)) {
                Some(f) => {
                    &&& r matches Err(s) && s@ == f
                    &&& final(self).router == old(self).router
                },
                None => {
                    let (after, response) = command_run(
                        old(self).router@,
                        now_ms,
                        OpKind::Renew { owner: owner_id@, ttl_ms },
                    );
                    &&& final(self).router@ == after
                    &&& match (r, response) {
                        (Ok(resp), Ok(ResponseView::Renew(o))) => tells_renew(resp, o),
                        (Err(s), Err(f)) => s@ == failed(f),
                        _ => false,
                    }
                },
            },
    {
        match check_renew(owner_id, ttl_ms) {
            Err(s) => {
                return Err(s);
            },
            Ok(_) => {},
        }
        match self.router.renew(owner_id, ttl_ms, now_ms) {
            Err(e) => Err(fail(e)),
            Ok(outcome) => Ok(renew_response(&outcome)),
        }
    }

    /// Takes all the locks of an owner away, and publishes that it lost them.
    pub fn force_release(&mut self, victim_id: &str, now_ms: u64) -> (r: Result<Delivery, Status>)
        ensures
            final(self).broadcaster == old(self).broadcaster,
            publishes(
                old(self).router@,
                final(self).router@,
                id_fault("victim_id"@, victim_id@),
                command_run(
                    old(self).router@,
                    now_ms,
                    OpKind::ForceRelease { victim: victim_id@ },
                ),
                local_delivery(old(self).broadcaster@, event_of(EventType::Killed, victim_id@)),
                r,
            ),
    {
        match check_id("victim_id", victim_id) {
            Err(s) => {
                return Err(s);
            },
            Ok(_) => {},
        }
        match self.router.force_release(victim_id, now_ms) {
            Err(e) => Err(fail(e)),
            Ok(_) => Ok(self.broadcaster.killed(victim_id)),
        }
    }

    /// Whether an owner holds the write locks on all the given paths under a token.
    pub fn assert_fencing(&self, req: &AssertFencingRequest, now_ms: u64) -> (r: Result<
        AssertFencingResponse,
        Status,
    >)
        ensures
            match assert_fault(*req) {
                Some(f) => r matches Err(s) && s@ == f,
                None => match r {
                    Ok(resp) => self.router@.db matches Some(db) && (fencing_check(
                        db,
                        stamped(self.router@, now_ms),
                        req.owner_id@,
                        req.fencing_token,
                        texts(req.paths@),
                    ) matches Ok(o) && tells_assert(resp, o)),
                    Err(s) => match self.router@.db {
                        None => s@ == failed(RouterFault::NoLocalStore),
                        Some(db) => fencing_check(
                            db,
                            stamped(self.router@, now_ms),
                            req.owner_id@,
                            req.fencing_token,
                            texts(req.paths@),
                        ) matches Err(e) && s@ == failed(RouterFault::Store(e)),
                    },
                },
            },
    {
        match check_assert_fencing(req) {
            Err(s) => {
                return Err(s);
            },
            Ok(_) => {},
        }
        match self.router.assert_fencing(
            req.owner_id.as_str(),
            req.fencing_token,
            &req.paths,
            now_ms,
        ) {
            Err(e) => Err(fail(e)),
            Ok(outcome) => Ok(assert_response(&outcome)),
        }
    }

    /// Walks along wait-for edges, no further than the longest walk.
    pub fn detect_cycle(&self, start_owner_id: &str, max_depth: u32, now_ms: u64) -> (r: Result<
        DetectCycleResponse,
        Status,
    >)
        ensures
            match id_fault("start_owner_id"@, start_owner_id@) {
                Some(f) => r matches Err(s) && s@ == f,
                None => match r {
                    Ok(resp) => self.router@.db matches Some(db) && (walk(
                        db,
                        stamped(self.router@, now_ms),
                        seq![start_owner_id@],
                        clamped_depth(max_depth) as nat,
                    ) matches Ok(o) && tells_cycle(resp, o)),
                    Err(s) => match self.router@.db {
                        None => s@ == failed(RouterFault::NoLocalStore),
                        Some(db) => walk(
                            db,
                            stamped(self.router@, now_ms),
                            seq![start_owner_id@],
                            clamped_depth(max_depth) as nat,
                        ) matches Err(e) && s@ == failed(RouterFault::Store(e)),
                    },
                },
            },
    {
        let depth: u32 = match cycle_depth(start_owner_id, max_depth) {
            Err(s) => {
                return Err(s);
            },
            Ok(depth) => depth,
        };
        match self.router.detect_cycle(start_owner_id, depth, now_ms) {
            Err(e) => Err(fail(e)),
            Ok(outcome) => Ok(cycle_response(outcome)),
        }
    }

    /// Whether an owner still stands in the way on a path.
    pub fn is_blocking(&self, req: &IsBlockingRequest, now_ms: u64) -> (r: Result<bool, Status>)
        ensures
            match blocking_fault(*req, debug_text(req.reason@)) {
                Some(f) => r matches Err(s) && s@ == f,
                None => match r {
                    Ok(b) => self.router@.db matches Some(db) && (blocking(
                        db,
                        stamped(self.router@, now_ms),
                        req.conflict_path@,
                        req.conflict_owner@,
                        req.reason@,
                    ) matches Ok(o) && b == o),
                    Err(s) => match self.router@.db {
                        None => s@ == failed(RouterFault::NoLocalStore),
                        Some(db) => blocking(
                            db,
                            stamped(self.router@, now_ms),
                            req.conflict_path@,
                            req.conflict_owner@,
                            req.reason@,
                        ) matches Err(e) && s@ == failed(RouterFault::Store(e)),
                    },
                },
            },
    {
        match check_is_blocking(req) {
            Err(s) => {
                return Err(s);
            },
            Ok(_) => {},
        }
        match self.router.is_blocking(
            req.conflict_path.as_str(),
            req.conflict_owner.as_str(),
            req.reason.as_str(),
            now_ms,
        ) {
            Err(e) => Err(fail(e)),
            Ok(b) => Ok(b),
        }
    }

    /// The next fencing token.
    pub fn incr_fencing_token(&mut self, now_ms: u64) -> (r: Result<i64, Status>)
        ensures
            final(self).broadcaster == old(self).broadcaster,
            final(self).router@ == command_run(old(self).router@, now_ms, OpKind::IncrFence).0,
            match (r, command_run(old(self).router@, now_ms, OpKind::IncrFence).1) {
                (Ok(a), Ok(ResponseView::IncrFence(b))) => a == b,
                (Err(s), Err(f)) => s@ == failed(f),
                _ => false,
            },
    {
        match self.router.incr_fencing_token(now_ms) {
            Err(e) => Err(fail(e)),
            Ok(token) => Ok(token),
        }
    }

    /// Records whom an owner waits for.
    pub fn set_wait_edge(&mut self, req: &SetWaitEdgeRequest, now_ms: u64) -> (r: Result<
        (),
        Status,
    >)
        ensures
            final(self).broadcaster == old(self).broadcaster,
            match wait_edge_request(*req, debug_text(req.reason@)) {
                Err(f) => {
                    &&& r matches Err(s) && s@ == f
                    &&& final(self).router == old(self).router
                },
                Ok(metadata) => {
                    let (after, done) = command_run(
                        old(self).router@,
                        now_ms,
                        OpKind::SetWaitEdge {
                            owner: req.owner_id@,
                            conflict_owner: req.conflict_owner@,
                            metadata,
                            ttl_ms: req.ttl_ms,
                        },
                    );
                    &&& final(self).router@ == after
                    &&& match (r, done) {
                        (Ok(_), Ok(_)) => true,
                        (Err(s), Err(f)) => s@ == failed(f),
                        _ => false,
                    }
                },
            },
    {
        let metadata = match wait_edge_metadata(req) {
            Err(s) => {
                return Err(s);
            },
            Ok(metadata) => metadata,
        };
        match self.router.set_wait_edge(
            req.owner_id.as_str(),
            req.conflict_owner.as_str(),
            req.ttl_ms,
            &metadata,
            now_ms,
        ) {
            Err(e) => Err(fail(e)),
            Ok(_) => Ok(()),
        }
    }

    /// Forgets whom an owner waits for.
    pub fn clear_wait_edge(&mut self, owner_id: &str, now_ms: u64) -> (r: Result<(), Status>)
        ensures
            final(self).broadcaster == old(self).broadcaster,
            match id_fault("owner_id"@, owner_id@) {
                Some(f) => {
                    &&& r matches Err(s) && s@ == f
                    &&& final(self).router == old(self).router
                },
                None => {
                    let (after, done) = command_run(
                        old(self).router@,
                        now_ms,
                        OpKind::ClearWaitEdge { owner: owner_id@ },
                    );
                    &&& final(self).router@ == after
                    &&& match (r, done) {
                        (Ok(_), Ok(_)) => true,
                        (Err(s), Err(f)) => s@ == failed(f),
                        _ => false,
                    }
                },
            },
    {
        match check_id("owner_id", owner_id) {
            Err(s) => {
                return Err(s);
            },
            Ok(_) => {},
        }
        match self.router.clear_wait_edge(owner_id, now_ms) {
            Err(e) => Err(fail(e)),
            Ok(_) => Ok(()),
        }
    }

    /// Whether an owner's lease is live.
    pub fn is_owner_alive(&self, owner_id: &str, now_ms: u64) -> (r: Result<bool, Status>)
        ensures
            match id_fault("owner_id"@, owner_id@) {
                Some(f) => r matches Err(s) && s@ == f,
                None => match (r, self.router@.db) {
                    (Ok(b), None) => !b,
                    (Ok(b), Some(db)) => is_alive(
                        db,
                        stamped(self.router@, now_ms),
                        owner_id@,
                    ) matches Ok(a) && a == b,
                    (Err(s), Some(db)) => is_alive(
                        db,
                        stamped(self.router@, now_ms),
                        owner_id@,
                    ) matches Err(e) && s@ == failed(RouterFault::Store(e)),
                    (Err(_), None) => false,
                },
            },
    {
        match check_id("owner_id", owner_id) {
            Err(s) => {
                return Err(s);
            },
            Ok(_) => {},
        }
        match self.router.is_owner_alive(owner_id, now_ms) {
            Err(e) => Err(fail(e)),
            Ok(b) => Ok(b),
        }
    }

    /// Asks an owner to give up its locks, after planting the claim of the one that
    /// takes over, if one is named. A claim that cannot be planted does not stop the
    /// revocation.
    pub fn request_revoke(&mut self, req: &RequestRevokeRequest, now_ms: u64) -> (r: Result<
        Delivery,
        Status,
    >)
        ensures
            final(self).broadcaster == old(self).broadcaster,
            match revoke_request(*req) {
                Err(f) => {
                    &&& r matches Err(s) && s@ == f
                    &&& final(self).router == old(self).router
                },
                Ok(claims) => {
                    &&& final(self).router@ == (if claims {
                        command_run(
                            old(self).router@,
                            now_ms,
                            OpKind::SetClaim {
                                path: req.claim_path@,
                                claimant: req.claimant_owner_id@,
                                ttl_ms: req.claim_ttl_ms,
                            },
                        ).0
                    } else {
                        old(self).router@
                    })
                    &&& r matches Ok(d) && d@ == local_delivery(
                        old(self).broadcaster@,
                        event_of(EventType::Revoke, req.owner_id@),
                    )
                },
            },
    {
        let claims = match revoke_plants_claim(req) {
            Err(s) => {
                return Err(s);
            },
            Ok(claims) => claims,
        };
        if claims {
            let _ = self.router.set_claim(
                req.claim_path.as_str(),
                req.claimant_owner_id.as_str(),
                req.claim_ttl_ms,
                now_ms,
            );
        }
        Ok(self.broadcaster.revoke(req.owner_id.as_str()))
    }

    /// Subscribes to the events of one owner.
    pub fn subscribe(&mut self, owner_id: &str) -> (r: Result<Subscription, Status>)
        ensures
            final(self).router == old(self).router,
            match (r, id_fault("owner_id"@, owner_id@)) {
                (Err(s), Some(f)) => s@ == f && final(self).broadcaster == old(self).broadcaster,
                (Ok(sub), None) => {
                    &&& sub.owner@ == owner_id@
                    &&& sub.id == old(self).broadcaster@.next_id
                    &&& final(self).broadcaster@ == (BroadcasterView {
                        subs: old(self).broadcaster@.subs.push((owner_id@, sub.id)),
                        next_id: sub.id.wrapping_add(1),
                        ..old(self).broadcaster@
                    })
                },
                _ => false,
            },
    {
        match check_id("owner_id", owner_id) {
            Err(s) => {
                return Err(s);
            },
            Ok(_) => {},
        }
        Ok(self.broadcaster.subscribe(owner_id))
    }

    /// Delivers an event that a peer published, on this instance alone.
    pub fn publish_event(&self, event: Option<Event>) -> (r: Result<Delivery, Status>)
        ensures
            match (r, event) {
                (Err(s), None) => s@ == invalid("event is required"@),
                (Err(s), Some(ev)) => event_fault(ev@) == Some(s@),
                (Ok(d), Some(ev)) => event_fault(ev@) is None && d@ == peer_delivery(
                    self.broadcaster@,
                    ev@,
                ),
                (Ok(_), None) => false,
            },
    {
        match published_event(event) {
            Err(s) => Err(s),
            Ok(ev) => Ok(self.broadcaster.publish_from_peer(ev)),
        }
    }
}

/// What a request does that changes the locks of one owner and publishes an event: a
/// refused or failed one publishes nothing.
pub open spec fn publishes(
    before: RouterView,
    after: RouterView,
    fault: Option<StatusView>,
    run: (RouterView, Result<ResponseView, RouterFault>),
    delivery: DeliveryView,
    r: Result<Delivery, Status>,
) -> bool {
    match fault {
        Some(f) => {
            &&& r matches Err(s) && s@ == f
            &&& after == before
        },
        None => {
            &&& after == run.0
            &&& match (r, run.1) {
                (Ok(d), Ok(_)) => d@ == delivery,
                (Err(s), Err(f)) => s@ == failed(f),
                _ => false,
            }
        },
    }
}

// ---------------------------------------------------------------------------
// The debug service
// ---------------------------------------------------------------------------

/// The service for fault injection, which answers only if it is enabled.
#[derive(Debug, Clone, Copy)]
pub struct DebugService {
    pub enabled: bool,
}

impl DebugService {
    pub fn new(enabled: bool) -> (r: DebugService)
        ensures
            r.enabled == enabled,
    {
        DebugService { enabled }
    }

    /// Refuses a request unless the service is enabled.
    pub fn guard(&self) -> (r: Result<(), Status>)
        ensures
            is_check(
                r,
                if self.enabled {
                    None
                } else {
                    Some(
                        StatusView {
                            code: Code::FailedPrecondition,
                            message: "debug service disabled (set PATHLOCKD_ENABLE_DEBUG=1)"@,
                        },
                    )
                },
            ),
    {
        if self.enabled {
            Ok(())
        } else {
            Err(
                Status::failed_precondition(
                    "debug service disabled (set PATHLOCKD_ENABLE_DEBUG=1)".to_owned(),
                ),
            )
        }
    }
}

/// The owner that a request names, if it names one.
pub fn named_owner(owner_id: &str) -> (r: Option<String>)
    ensures
        opt_text(r) == (if owner_id@.len() == 0 {
            None
        } else {
            Some(owner_id@)
        }),
{
    if owner_id.is_empty() {
        None
    } else {
        Some(owner_id.to_owned())
    }
}

/// The answer to a question for the owner of a write lock.
pub fn write_owner_response(owner: Option<String>) -> (r: GetWriteOwnerResponse)
    ensures
        r.exists == owner.is_some(),
        r.owner_id@ == (match owner {
            Some(o) => o@,
            None => Seq::empty(),
        }),
{
    match owner {
        Some(o) => GetWriteOwnerResponse { exists: true, owner_id: o },
        None => GetWriteOwnerResponse { exists: false, owner_id: String::new() },
    }
}

/// The answer to a question for a fence.
pub fn fence_response(value: Option<i64>) -> (r: GetFenceResponse)
    ensures
        r.exists == value.is_some(),
        r.value == (match value {
            Some(v) => v,
            None => 0,
        }),
{
    match value {
        Some(v) => GetFenceResponse { exists: true, value: v },
        None => GetFenceResponse { exists: false, value: 0 },
    }
}

} // verus!
