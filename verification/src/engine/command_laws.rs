//! What the answer to a command means, for the commands that take, renew and give up locks.

use vstd::prelude::*;
use crate::db::{applied, DbView};
use crate::engine::conflict::is_alive;
use crate::engine::index_laws::honest;
use crate::engine::laws::{holding, sound};
use crate::engine::lease_laws::{
    claimed, law_live_claim_is_respected, law_live_lock_is_respected, reserves,
};
use crate::engine::ops::{fence_of, holdings};
use crate::engine::outcome_laws::{law_released_all, law_released_is_not_held};
use crate::engine::path::conflicting;
use crate::engine::record_laws::law_renewal_tells;
use crate::engine::refusal_laws::{is_reason, law_granted_is_entitled, law_refusal_has_a_reason};
use crate::engine::tenure_laws::{holds_besides, law_last_release_ends_life};
use crate::engine::types::{AcquireView, ArgsView, Mode, RelView, RenewView, State};
use crate::raft::command::{OpKind, ResponseView};
use crate::raft::state_machine::{command_effect, lemma_effect};
use crate::store_keys::{is_expired, nul_free};
use crate::store_rocksdb::ErrorView;

verus! {

/// An acquire is answered as such: it is granted, or refused for one of the locks that it
/// asks for, which is in conflict or lost just as the answer says. If it is granted, the
/// token is not below the fence of any path to write, and what was said to be held is held.
pub proof fn law_acquire_is_answered(db: DbView, now: u64, args: ArgsView)
    requires
        honest(db),
        db.dom().finite(),
        forall|i: int| 0 <= i < args.requests.len() ==> nul_free((#[trigger] args.requests[i]).path),
        command_effect(db, now, OpKind::Acquire(args)) is Ok,
    ensures
        command_effect(db, now, OpKind::Acquire(args))->Ok_0.0 matches ResponseView::Acquire(outcome)
            && (if outcome == AcquireView::Granted {
            forall|i: int|
                #![trigger args.requests[i]]
                0 <= i < args.requests.len() ==> {
                    let req = args.requests[i];
                    &&& req.mode == Mode::Write ==> (fence_of(db, now, req.path) matches Ok(f) && (
                    f matches Some(n) ==> n <= args.token))
                    &&& req.state == State::Held ==> holding(db, now, req.mode, req.path, args.owner)
                        && is_alive(db, now, args.owner) == Ok::<bool, ErrorView>(true)
                }
        } else {
            exists|i: int|
                0 <= i < args.requests.len() && #[trigger] is_reason(db, now, args, i, outcome)
        }),
{
    lemma_effect(db, now, OpKind::Acquire(args));
    law_refusal_has_a_reason(db, now, args);
    if command_effect(db, now, OpKind::Acquire(args))->Ok_0.0 == ResponseView::Acquire(
        AcquireView::Granted,
    ) {
        assert forall|i: int| #![trigger args.requests[i]] 0 <= i < args.requests.len() implies {
            let req = args.requests[i];
            &&& req.mode == Mode::Write ==> (fence_of(db, now, req.path) matches Ok(f) && (
            f matches Some(n) ==> n <= args.token))
            &&& req.state == State::Held ==> holding(db, now, req.mode, req.path, args.owner)
                && is_alive(db, now, args.owner) == Ok::<bool, ErrorView>(true)
        } by {
            law_granted_is_entitled(db, now, args, i);
        }
    }
}

/// A granted acquire gets past nobody who is alive: no other live owner holds a lock that
/// excludes one that it asks for, nor has a live claim that reserves a new one.
pub proof fn law_granted_passes_nobody(
    db: DbView,
    now: u64,
    args: ArgsView,
    i: int,
    y: Seq<char>,
    n: Mode,
    q: Seq<char>,
    exp: u64,
)
    requires
        sound(db, now),
        nul_free(args.owner),
        0 <= i < args.requests.len(),
        nul_free(args.requests[i].path),
        nul_free(q),
        nul_free(y),
        y != args.owner,
        is_alive(db, now, y) == Ok::<bool, ErrorView>(true),
        command_effect(db, now, OpKind::Acquire(args)) matches Ok((response, _)) && response
            == ResponseView::Acquire(AcquireView::Granted),
    ensures
        holding(db, now, n, q, y) ==> !conflicting(
            args.requests[i].path,
            args.requests[i].mode,
            q,
            n,
        ),
        claimed(db, q, y, exp) && !is_expired(exp, now) && args.requests[i].state == State::New
            ==> !reserves(q, args.requests[i].path, args.requests[i].mode),
{
    lemma_effect(db, now, OpKind::Acquire(args));
    if holding(db, now, n, q, y) && conflicting(
        args.requests[i].path,
        args.requests[i].mode,
        q,
        n,
    ) {
        law_live_lock_is_respected(db, now, args, i, n, q, y);
    }
    if claimed(db, q, y, exp) && !is_expired(exp, now) && args.requests[i].state == State::New
        && reserves(q, args.requests[i].path, args.requests[i].mode) {
        law_live_claim_is_respected(db, now, args, i, q, y, exp);
    }
}

/// A renewal is answered as such: it succeeds if and only if the owner's lease is live and
/// every lock in its list of holdings is held, and otherwise tells what is lost.
pub proof fn law_renewal_is_answered(db: DbView, now: u64, o: Seq<char>, ttl: u64)
    requires
        command_effect(db, now, OpKind::Renew { owner: o, ttl_ms: ttl }) is Ok,
    ensures
        command_effect(
            db,
            now,
            OpKind::Renew { owner: o, ttl_ms: ttl },
        )->Ok_0.0 matches ResponseView::Renew(outcome) && ({
            let lives = is_alive(db, now, o) == Ok::<bool, ErrorView>(true);
            let all_held = holdings(db, now, o) matches Ok(locks) && forall|i: int|
                0 <= i < locks.len() ==> holding(
                    db,
                    now,
                    (#[trigger] locks[i]).mode,
                    locks[i].path,
                    o,
                );
            &&& outcome == RenewView::Renewed <==> lives && all_held
            &&& !lives ==> outcome == (RenewView::Lost {
                path: Seq::<char>::empty(),
                reason: "owner_expired"@,
            })
        }),
{
    lemma_effect(db, now, OpKind::Renew { owner: o, ttl_ms: ttl });
    law_renewal_tells(db, now, o, ttl);
    if let ResponseView::Renew(outcome) = command_effect(
        db,
        now,
        OpKind::Renew { owner: o, ttl_ms: ttl },
    )->Ok_0.0 {
        if is_alive(db, now, o) != Ok::<bool, ErrorView>(true) {
            assert(outcome != RenewView::Renewed);
        }
    }
}

/// What a release names is given up, and with its last lock the owner's life ends.
pub proof fn law_release_is_done(
    db: DbView,
    now: u64,
    o: Seq<char>,
    rels: Seq<RelView>,
    del_wait: bool,
    i: int,
)
    requires
        sound(db, now),
        nul_free(o),
        0 <= i < rels.len(),
        nul_free(rels[i].path),
        command_effect(db, now, OpKind::Release { owner: o, reqs: rels, del_wait }) is Ok,
    ensures
        ({
            let (response, ops) = command_effect(
                db,
                now,
                OpKind::Release { owner: o, reqs: rels, del_wait },
            )->Ok_0;
            let after = applied(db, ops);
            &&& response == ResponseView::Unit
            &&& !holding(after, now, rels[i].mode, rels[i].path, o)
            &&& is_alive(after, now, o) == (if holds_besides(db, now, o, rels) {
                is_alive(db, now, o)
            } else {
                Ok::<bool, ErrorView>(false)
            })
        }),
{
    lemma_effect(db, now, OpKind::Release { owner: o, reqs: rels, del_wait });
    law_released_is_not_held(db, now, o, rels, del_wait, i);
    law_last_release_ends_life(db, now, o, rels, del_wait);
}

/// Whoever gives up everything, or has everything taken, holds no lock and is not alive.
pub proof fn law_nothing_is_left(
    db: DbView,
    now: u64,
    o: Seq<char>,
    op: OpKind,
    m: Mode,
    p: Seq<char>,
)
    requires
        sound(db, now),
        nul_free(o),
        nul_free(p),
        op == (OpKind::ForceRelease { victim: o }) || (op matches OpKind::ReleaseAll { owner, .. }
            && owner == o),
        command_effect(db, now, op) is Ok,
    ensures
        ({
            let (response, ops) = command_effect(db, now, op)->Ok_0;
            &&& response == ResponseView::Unit
            &&& !holding(applied(db, ops), now, m, p, o)
            &&& is_alive(applied(db, ops), now, o) == Ok::<bool, ErrorView>(false)
        }),
{
    lemma_effect(db, now, op);
    let del_wait = op matches OpKind::ReleaseAll { del_wait, .. } ==> del_wait;
    law_released_all(db, now, o, del_wait, m, p);
}

} // verus!
