//! What each command changes: the records that it leaves, and that it touches no others.

use vstd::prelude::*;
use crate::db::{applied, lemma_applied_concat, same_at, DbView, OpView};
use crate::engine::conflict::{clearing, is_alive, lock_of, overlapping, BlockerView};
use crate::engine::edge::edge_text;
use crate::engine::index_laws::{honest, plain_paths};
use crate::engine::laws::holding;
use crate::engine::lease_laws::lemma_nobody_live;
use crate::engine::ops::{
    acquire_plan, alive_steps, all_holdings, check_request, check_requests, claim_ttl, grant,
    grants, holdings, keep_fence, release_all_plan, release_plan, release_steps, renew_plan,
    renew_steps,
};
use crate::engine::path::ancestors;
use crate::engine::places::{
    hold_at, in_index, lemma_delete_index, lemma_put_index, lemma_single, of_lock, text_at,
};
use crate::engine::refusal_laws::{explained, lemma_found_explained};
use crate::engine::steps::{
    delete_index, fence_ttl, hold_place, hold_text, lock_index, lock_place, put_index, step_ops,
    steps_ops, StepView,
};
use crate::engine::tenure_laws::{lemma_release_gives_up, life_at};
use crate::engine::types::{ArgsView, Mode, Reason, RelView, ReqView, State};
use crate::raft::command::OpKind;
use crate::raft::state_machine::{
    command_effect, command_writes, fence_counter, fence_counter_key, holds_expired,
    last_applied_key, lemma_effect, next_token, put_counter, swept_rows,
};
use crate::store_keys::{expiry_time, nul_free, Cf};
use crate::store_laws::{cursor_place, lemma_put_text_places, lemma_sweep_writes};
use crate::store_rocksdb::{put_text, ErrorView};
use crate::text::utf8;

verus! {

// ---------------------------------------------------------------------------
// Steps, place by place
// ---------------------------------------------------------------------------

/// Whether a place is that of the claim on a path, or of its entry under an ancestor.
pub open spec fn of_claim(path: Seq<char>, place: (Cf, Seq<u8>)) -> bool {
    place == (Cf::Claims, utf8(path)) || in_index(Cf::DescClaim, ancestors(path), path, place)
}

/// Whether a step changes what stands at a place.
pub open spec fn touches(step: StepView, place: (Cf, Seq<u8>)) -> bool {
    match step {
        StepView::Alive { owner, .. } => place == life_at(owner),
        StepView::NotAlive { owner } => place == life_at(owner),
        StepView::Hold { owner, mode, path, .. } => of_lock(mode, path, owner, place),
        StepView::Drop { owner, mode, path } => of_lock(mode, path, owner, place),
        StepView::Forget { owner, mode, path } => place == hold_at(mode, path, owner),
        StepView::Fence { path, .. } => place == (Cf::Fences, utf8(path)),
        StepView::Claim { path, .. } => of_claim(path, place),
        StepView::DropClaim { path } => of_claim(path, place),
        StepView::Wait { owner, .. } => place == (Cf::WaitEdges, utf8(owner)),
        StepView::NoWait { owner } => place == (Cf::WaitEdges, utf8(owner)),
    }
}

/// What a step that touches a place leaves there: a text with its expiry, or nothing.
pub open spec fn leaves(now: u64, step: StepView, place: (Cf, Seq<u8>)) -> Option<(Seq<char>, u64)> {
    match step {
        StepView::Alive { ttl, .. } => Some(("1"@, expiry_time(now, ttl))),
        StepView::Hold { owner, mode, path, ttl } => Some(
            (
                if place == lock_place(mode, path, owner) {
                    owner
                } else if place == hold_at(mode, path, owner) {
                    hold_text(mode, path)
                } else {
                    lock_index(mode, path, owner).1
                },
                expiry_time(now, ttl),
            ),
        ),
        StepView::Fence { token, ttl, .. } => Some((token, expiry_time(now, fence_ttl(ttl)))),
        StepView::Claim { path, claimant, ttl } => Some(
            (
                if place.0 == Cf::Claims {
                    claimant
                } else {
                    path
                },
                expiry_time(now, ttl),
            ),
        ),
        StepView::Wait { edge, ttl, .. } => Some((edge, expiry_time(now, ttl))),
        _ => None,
    }
}

/// Whether a place of `after` is as one step on `before` leaves it.
pub open spec fn stepped(
    before: DbView,
    after: DbView,
    now: u64,
    step: StepView,
    place: (Cf, Seq<u8>),
) -> bool {
    if !touches(step, place) {
        same_at(after, before, place)
    } else {
        match leaves(now, step, place) {
            Some((v, exp)) => text_at(after, place, v, exp),
            None => !after.dom().contains(place),
        }
    }
}

proof fn lemma_hold_at_place(
    db: DbView,
    now: u64,
    o: Seq<char>,
    m: Mode,
    path: Seq<char>,
    ttl: u64,
    place: (Cf, Seq<u8>),
)
    requires
        place.0 != Cf::Expiry,
    ensures
        ({
            let step = StepView::Hold { owner: o, mode: m, path, ttl };
            stepped(db, applied(db, step_ops(now, step)), now, step, place)
        }),
{
    let (cf, key) = lock_place(m, path, o);
    let (index, entry) = lock_index(m, path, o);
    let first = put_text(now, cf, key, o, ttl);
    let second = put_index(now, index, ancestors(path), entry, ttl);
    let third = put_text(now, Cf::OwnerHolds, hold_place(m, path, o), hold_text(m, path), ttl);
    let one = applied(db, first);
    let two = applied(one, second);
    lemma_applied_concat(db, first, second);
    lemma_applied_concat(db, first + second, third);
    lemma_put_text_places(db, now, cf, key, o, ttl);
    lemma_put_index(one, now, index, ancestors(path), entry, ttl, place);
    lemma_put_text_places(two, now, Cf::OwnerHolds, hold_place(m, path, o), hold_text(m, path), ttl);
}

proof fn lemma_drop_at_place(
    db: DbView,
    now: u64,
    o: Seq<char>,
    m: Mode,
    path: Seq<char>,
    place: (Cf, Seq<u8>),
)
    requires
        place.0 != Cf::Expiry,
    ensures
        ({
            let step = StepView::Drop { owner: o, mode: m, path };
            stepped(db, applied(db, step_ops(now, step)), now, step, place)
        }),
{
    let (cf, key) = lock_place(m, path, o);
    let (index, entry) = lock_index(m, path, o);
    let first = seq![OpView::Delete { cf, key }];
    let second = delete_index(index, ancestors(path), entry);
    let third = seq![OpView::Delete { cf: Cf::OwnerHolds, key: hold_place(m, path, o) }];
    let one = applied(db, first);
    let two = applied(one, second);
    lemma_applied_concat(db, first, second);
    lemma_applied_concat(db, first + second, third);
    lemma_single(db, first[0]);
    lemma_delete_index(one, index, ancestors(path), entry, place);
    lemma_single(two, third[0]);
}

/// A step does at each place what it is for.
pub proof fn lemma_step_at(db: DbView, now: u64, step: StepView, place: (Cf, Seq<u8>))
    requires
        place.0 != Cf::Expiry,
    ensures
        stepped(db, applied(db, step_ops(now, step)), now, step, place),
{
    let ops = step_ops(now, step);
    match step {
        StepView::Alive { owner, ttl } => {
            lemma_put_text_places(db, now, Cf::OwnerAlive, utf8(owner), "1"@, ttl);
        },
        StepView::Hold { owner, mode, path, ttl } => {
            lemma_hold_at_place(db, now, owner, mode, path, ttl, place);
        },
        StepView::Drop { owner, mode, path } => {
            lemma_drop_at_place(db, now, owner, mode, path, place);
        },
        StepView::Fence { path, token, ttl } => {
            lemma_put_text_places(db, now, Cf::Fences, utf8(path), token, fence_ttl(ttl));
        },
        StepView::Claim { path, claimant, ttl } => {
            let first = put_text(now, Cf::Claims, utf8(path), claimant, ttl);
            let second = put_index(now, Cf::DescClaim, ancestors(path), path, ttl);
            lemma_applied_concat(db, first, second);
            lemma_put_text_places(db, now, Cf::Claims, utf8(path), claimant, ttl);
            lemma_put_index(
                applied(db, first),
                now,
                Cf::DescClaim,
                ancestors(path),
                path,
                ttl,
                place,
            );
        },
        StepView::DropClaim { path } => {
            let first = seq![OpView::Delete { cf: Cf::Claims, key: utf8(path) }];
            let second = delete_index(Cf::DescClaim, ancestors(path), path);
            lemma_applied_concat(db, first, second);
            lemma_single(db, first[0]);
            lemma_delete_index(applied(db, first), Cf::DescClaim, ancestors(path), path, place);
        },
        StepView::Wait { owner, edge, ttl } => {
            lemma_put_text_places(db, now, Cf::WaitEdges, utf8(owner), edge, ttl);
        },
        _ => {
            assert(ops =~= seq![ops[0]]);
            lemma_single(db, ops[0]);
        },
    }
}

/// Steps that do not touch a place leave it as it was.
pub proof fn lemma_steps_pass(db: DbView, now: u64, steps: Seq<StepView>, place: (Cf, Seq<u8>))
    requires
        place.0 != Cf::Expiry,
        forall|i: int| 0 <= i < steps.len() ==> !touches(#[trigger] steps[i], place),
    ensures
        same_at(applied(db, steps_ops(now, steps)), db, place),
    decreases steps.len(),
{
    if steps.len() > 0 {
        let front = steps.drop_last();
        assert forall|i: int| 0 <= i < front.len() implies !touches(#[trigger] front[i], place) by {
            assert(front[i] == steps[i]);
        }
        lemma_steps_pass(db, now, front, place);
        assert(!touches(steps[steps.len() - 1], place));
        lemma_applied_concat(db, steps_ops(now, front), step_ops(now, steps.last()));
        lemma_step_at(applied(db, steps_ops(now, front)), now, steps.last(), place);
    } else {
        assert(steps_ops(now, steps) =~= Seq::<OpView>::empty());
    }
}

/// Steps of which each that touches a place leaves the same there leave that, if one does.
pub proof fn lemma_steps_agree(
    db: DbView,
    now: u64,
    steps: Seq<StepView>,
    place: (Cf, Seq<u8>),
    left: Option<(Seq<char>, u64)>,
    k: int,
)
    requires
        place.0 != Cf::Expiry,
        0 <= k < steps.len(),
        touches(steps[k], place),
        forall|i: int|
            0 <= i < steps.len() && touches(#[trigger] steps[i], place) ==> leaves(
                now,
                steps[i],
                place,
            ) == left,
    ensures
        match left {
            Some((v, exp)) => text_at(applied(db, steps_ops(now, steps)), place, v, exp),
            None => !applied(db, steps_ops(now, steps)).dom().contains(place),
        },
    decreases steps.len(),
{
    let front = steps.drop_last();
    let mid = applied(db, steps_ops(now, front));
    assert(steps[steps.len() - 1] == steps.last());
    lemma_applied_concat(db, steps_ops(now, front), step_ops(now, steps.last()));
    lemma_step_at(mid, now, steps.last(), place);
    if !touches(steps.last(), place) {
        assert(front[k] == steps[k]);
        assert forall|i: int| 0 <= i < front.len() && touches(#[trigger] front[i], place) implies leaves(
            now,
            front[i],
            place,
        ) == left by {
            assert(front[i] == steps[i]);
        }
        lemma_steps_agree(db, now, front, place, left, k);
    }
}

// ---------------------------------------------------------------------------
// What a command may touch
// ---------------------------------------------------------------------------

/// Whether a place is one that giving up a lock may touch: those of the lock if it is the
/// owner's, and else only its entry in the owner's list of holdings.
pub open spec fn of_given_up(
    db: DbView,
    now: u64,
    o: Seq<char>,
    rel: RelView,
    place: (Cf, Seq<u8>),
) -> bool {
    ||| place == hold_at(rel.mode, rel.path, o)
    ||| (rel.mode == Mode::Read || holding(db, now, Mode::Write, rel.path, o)) && of_lock(
        rel.mode,
        rel.path,
        o,
        place,
    )
}

/// Whether a place is one that taking a lock may clear: that of a lock of another owner
/// that overlaps it and whose lease is over, or that of a claim of its own that reserves
/// the path or lies below it.
pub open spec fn of_cleared(
    db: DbView,
    now: u64,
    o: Seq<char>,
    req: ReqView,
    b: BlockerView,
    place: (Cf, Seq<u8>),
) -> bool {
    &&& req.state == State::New
    &&& explained(db, now, req.path, req.mode, b)
    &&& {
        ||| b.owner != o && is_alive(db, now, b.owner) == Ok::<bool, ErrorView>(false) && (lock_of(
            b.reason,
        ) matches Some(n) && of_lock(n, b.path, b.owner, place))
        ||| b.owner == o && b.reason == Reason::PreemptClaimed && of_claim(b.path, place)
    }
}

/// Whether a place is one that a command may touch.
pub open spec fn concerns(db: DbView, now: u64, op: OpKind, place: (Cf, Seq<u8>)) -> bool {
    match op {
        OpKind::Acquire(args) => {
            ||| args.requests.len() > 0 && place == life_at(args.owner)
            ||| exists|j: int|
                0 <= j < args.requests.len() && of_lock(
                    (#[trigger] args.requests[j]).mode,
                    args.requests[j].path,
                    args.owner,
                    place,
                )
            ||| exists|j: int|
                0 <= j < args.requests.len() && (#[trigger] args.requests[j]).mode == Mode::Write
                    && place == (Cf::Fences, utf8(args.requests[j].path))
            ||| exists|j: int|
                0 <= j < args.releases.len() && of_given_up(
                    db,
                    now,
                    args.owner,
                    #[trigger] args.releases[j],
                    place,
                )
            ||| exists|j: int, b: BlockerView|
                0 <= j < args.requests.len() && #[trigger] of_cleared(
                    db,
                    now,
                    args.owner,
                    args.requests[j],
                    b,
                    place,
                )
        },
        OpKind::Release { owner, reqs, del_wait } => {
            ||| reqs.len() > 0 && place == life_at(owner)
            ||| del_wait && place == (Cf::WaitEdges, utf8(owner))
            ||| exists|j: int|
                0 <= j < reqs.len() && of_given_up(db, now, owner, #[trigger] reqs[j], place)
        },
        OpKind::ReleaseAll { owner, del_wait } => of_all(db, now, owner, del_wait, place),
        OpKind::ForceRelease { victim } => of_all(db, now, victim, true, place),
        OpKind::Renew { owner, .. } => {
            ||| place == life_at(owner)
            ||| exists|m: Mode, p: Seq<char>| #[trigger]
                holding(db, now, m, p, owner) && (of_lock(m, p, owner, place) || m == Mode::Write
                    && place == (Cf::Fences, utf8(p)))
        },
        OpKind::SetClaim { path, .. } => of_claim(path, place),
        OpKind::SetWaitEdge { owner, .. } => place == (Cf::WaitEdges, utf8(owner)),
        OpKind::ClearWaitEdge { owner } => place == (Cf::WaitEdges, utf8(owner)),
        OpKind::GcSweep { now_ms, .. } => place == cursor_place() || holds_expired(
            db,
            place.0,
            place.1,
            now_ms,
        ),
        OpKind::IncrFence => place == (Cf::Meta, fence_counter_key()),
    }
}

/// Whether a place is one that taking everything from an owner may touch.
pub open spec fn of_all(
    db: DbView,
    now: u64,
    o: Seq<char>,
    del_wait: bool,
    place: (Cf, Seq<u8>),
) -> bool {
    ||| place == life_at(o)
    ||| del_wait && place == (Cf::WaitEdges, utf8(o))
    ||| exists|rel: RelView|
        all_holdings(db, now, o).contains(rel) && #[trigger] of_given_up(db, now, o, rel, place)
}

/// Whether a step is what becomes of a blocker that is cleared away.
spec fn clears(o: Seq<char>, b: BlockerView, step: StepView) -> bool {
    ||| lock_of(b.reason) matches Some(n) && b.owner != o && step == (StepView::Drop {
        owner: b.owner,
        mode: n,
        path: b.path,
    })
    ||| b.reason == Reason::PreemptClaimed && b.owner == o && step == (StepView::DropClaim {
        path: b.path,
    })
}

proof fn lemma_clearing_origin(o: Seq<char>, found: Seq<BlockerView>, i: int)
    requires
        0 <= i < clearing(o, found).len(),
    ensures
        exists|k: int| 0 <= k < found.len() && #[trigger] clears(o, found[k], clearing(o, found)[i]),
    decreases found.len(),
{
    let front = found.drop_last();
    let rest = clearing(o, front);
    let step = clearing(o, found)[i];
    if i < rest.len() {
        lemma_clearing_origin(o, front, i);
        assert(step == rest[i]);
        let k = choose|k: int| 0 <= k < front.len() && #[trigger] clears(o, front[k], rest[i]);
        assert(clears(o, found[k], step));
    } else {
        assert(clears(o, found[found.len() - 1], step));
    }
}

proof fn lemma_check_origin(
    db: DbView,
    now: u64,
    o: Seq<char>,
    token: i64,
    reqs: Seq<ReqView>,
    i: int,
    place: (Cf, Seq<u8>),
)
    requires
        honest(db),
        db.dom().finite(),
        forall|j: int| 0 <= j < reqs.len() ==> nul_free((#[trigger] reqs[j]).path),
        check_requests(db, now, o, token, reqs) matches Ok(Ok(_)),
        0 <= i < check_requests(db, now, o, token, reqs)->Ok_0->Ok_0.len(),
        touches(check_requests(db, now, o, token, reqs)->Ok_0->Ok_0[i], place),
    ensures
        exists|j: int, b: BlockerView|
            0 <= j < reqs.len() && #[trigger] of_cleared(db, now, o, reqs[j], b, place),
    decreases reqs.len(),
{
    let front = reqs.drop_last();
    let req = reqs.last();
    let rest = check_requests(db, now, o, token, front)->Ok_0->Ok_0;
    let more = check_request(db, now, o, token, req)->Ok_0->Ok_0;
    let all = check_requests(db, now, o, token, reqs)->Ok_0->Ok_0;
    assert(all == rest + more);
    if i < rest.len() {
        assert(all[i] == rest[i]);
        assert forall|j: int| 0 <= j < front.len() implies nul_free((#[trigger] front[j]).path) by {
            assert(front[j] == reqs[j]);
        }
        lemma_check_origin(db, now, o, token, front, i, place);
        let (j, b) = choose|j: int, b: BlockerView|
            0 <= j < front.len() && #[trigger] of_cleared(db, now, o, front[j], b, place);
        assert(of_cleared(db, now, o, reqs[j], b, place));
    } else {
        let found = overlapping(db, now, req.path, req.mode)->Ok_0;
        assert(reqs[reqs.len() - 1] == req);
        lemma_found_explained(db, now, req.path, req.mode);
        lemma_clearing_origin(o, found, i - rest.len());
        let k = choose|k: int|
            0 <= k < found.len() && #[trigger] clears(o, found[k], more[i - rest.len()]);
        if found[k].owner != o {
            lemma_nobody_live(db, now, o, found, k);
        }
        assert(of_cleared(db, now, o, reqs[reqs.len() - 1], found[k], place));
    }
}

proof fn lemma_released_touches(
    db: DbView,
    now: u64,
    o: Seq<char>,
    rels: Seq<RelView>,
    i: int,
    place: (Cf, Seq<u8>),
)
    requires
        release_steps(db, now, o, rels) is Ok,
        0 <= i < release_steps(db, now, o, rels)->Ok_0.len(),
        touches(release_steps(db, now, o, rels)->Ok_0[i], place),
    ensures
        exists|rel: RelView| rels.contains(rel) && #[trigger] of_given_up(db, now, o, rel, place),
{
    lemma_release_gives_up(db, now, o, rels, i);
    match release_steps(db, now, o, rels)->Ok_0[i] {
        StepView::Drop { mode, path, .. } => {
            assert(of_given_up(db, now, o, RelView { path, mode }, place));
        },
        StepView::Forget { mode, path, .. } => {
            assert(of_given_up(db, now, o, RelView { path, mode }, place));
        },
        _ => {},
    }
}

proof fn lemma_grants_touch(
    o: Seq<char>,
    ttl: u64,
    token: i64,
    reqs: Seq<ReqView>,
    i: int,
    place: (Cf, Seq<u8>),
)
    requires
        0 <= i < grants(o, ttl, token, reqs).len(),
        touches(grants(o, ttl, token, reqs)[i], place),
    ensures
        exists|j: int|
            0 <= j < reqs.len() && (of_lock(
                (#[trigger] reqs[j]).mode,
                reqs[j].path,
                o,
                place,
            ) || reqs[j].mode == Mode::Write && place == (Cf::Fences, utf8(reqs[j].path))),
    decreases reqs.len(),
{
    let front = reqs.drop_last();
    let rest = grants(o, ttl, token, front);
    let more = grant(o, ttl, token, reqs.last());
    let step = grants(o, ttl, token, reqs)[i];
    if i < rest.len() {
        assert(step == rest[i]);
        lemma_grants_touch(o, ttl, token, front, i, place);
        let j = choose|j: int|
            0 <= j < front.len() && (of_lock(
                (#[trigger] front[j]).mode,
                front[j].path,
                o,
                place,
            ) || front[j].mode == Mode::Write && place == (Cf::Fences, utf8(front[j].path)));
        assert(reqs[j] == front[j]);
    } else {
        assert(step == more[i - rest.len()]);
        assert(reqs[reqs.len() - 1] == reqs.last());
    }
}

proof fn lemma_acquire_passes(db: DbView, now: u64, args: ArgsView, place: (Cf, Seq<u8>))
    requires
        honest(db),
        db.dom().finite(),
        forall|j: int| 0 <= j < args.requests.len() ==> nul_free((#[trigger] args.requests[j]).path),
        acquire_plan(db, now, args) is Ok,
        place.0 != Cf::Expiry,
        !concerns(db, now, OpKind::Acquire(args), place),
    ensures
        same_at(applied(db, steps_ops(now, acquire_plan(db, now, args)->Ok_0.1)), db, place),
{
    let steps = acquire_plan(db, now, args)->Ok_0.1;
    assert forall|i: int| 0 <= i < steps.len() implies !touches(#[trigger] steps[i], place) by {
        let clear = check_requests(db, now, args.owner, args.token, args.requests)->Ok_0->Ok_0;
        let alive = alive_steps(args.owner, args.ttl, args.requests);
        let released = release_steps(db, now, args.owner, args.releases)->Ok_0;
        let granted = grants(args.owner, args.ttl, args.token, args.requests);
        assert(steps == clear + alive + released + granted);
        if touches(steps[i], place) {
            if i < clear.len() {
                assert(steps[i] == clear[i]);
                lemma_check_origin(db, now, args.owner, args.token, args.requests, i, place);
            } else if i < clear.len() + alive.len() {
                assert(steps[i] == alive[i - clear.len()]);
            } else if i < clear.len() + alive.len() + released.len() {
                let k = i - clear.len() - alive.len();
                assert(steps[i] == released[k]);
                lemma_released_touches(db, now, args.owner, args.releases, k, place);
                let rel = choose|rel: RelView|
                    args.releases.contains(rel) && #[trigger] of_given_up(
                        db,
                        now,
                        args.owner,
                        rel,
                        place,
                    );
                let j = args.releases.index_of(rel);
                assert(args.releases[j] == rel);
            } else {
                let k = i - clear.len() - alive.len() - released.len();
                assert(steps[i] == granted[k]);
                lemma_grants_touch(args.owner, args.ttl, args.token, args.requests, k, place);
            }
        }
    }
    lemma_steps_pass(db, now, steps, place);
}

proof fn lemma_release_passes(
    db: DbView,
    now: u64,
    o: Seq<char>,
    rels: Seq<RelView>,
    del_wait: bool,
    place: (Cf, Seq<u8>),
)
    requires
        release_plan(db, now, o, rels, del_wait) is Ok,
        place.0 != Cf::Expiry,
        !concerns(db, now, OpKind::Release { owner: o, reqs: rels, del_wait }, place),
    ensures
        same_at(
            applied(db, steps_ops(now, release_plan(db, now, o, rels, del_wait)->Ok_0)),
            db,
            place,
        ),
{
    let steps = release_plan(db, now, o, rels, del_wait)->Ok_0;
    let released = release_steps(db, now, o, rels)->Ok_0;
    assert forall|i: int| 0 <= i < steps.len() implies !touches(#[trigger] steps[i], place) by {
        if i < released.len() && touches(steps[i], place) {
            assert(steps[i] == released[i]);
            lemma_released_touches(db, now, o, rels, i, place);
            let rel = choose|rel: RelView|
                rels.contains(rel) && #[trigger] of_given_up(db, now, o, rel, place);
            let j = rels.index_of(rel);
            assert(rels[j] == rel);
        }
    }
    lemma_steps_pass(db, now, steps, place);
}

proof fn lemma_release_all_passes(
    db: DbView,
    now: u64,
    o: Seq<char>,
    del_wait: bool,
    place: (Cf, Seq<u8>),
)
    requires
        release_all_plan(db, now, o, del_wait) is Ok,
        place.0 != Cf::Expiry,
        !of_all(db, now, o, del_wait, place),
    ensures
        same_at(
            applied(db, steps_ops(now, release_all_plan(db, now, o, del_wait)->Ok_0)),
            db,
            place,
        ),
{
    let steps = release_all_plan(db, now, o, del_wait)->Ok_0;
    let rels = all_holdings(db, now, o);
    let released = release_steps(db, now, o, rels)->Ok_0;
    assert forall|i: int| 0 <= i < steps.len() implies !touches(#[trigger] steps[i], place) by {
        if i < released.len() && touches(steps[i], place) {
            assert(steps[i] == released[i]);
            lemma_released_touches(db, now, o, rels, i, place);
        }
    }
    lemma_steps_pass(db, now, steps, place);
}

proof fn lemma_renewed_touches(
    db: DbView,
    now: u64,
    o: Seq<char>,
    ttl: u64,
    locks: Seq<RelView>,
    i: int,
    place: (Cf, Seq<u8>),
)
    requires
        renew_steps(db, now, o, ttl, locks) matches Ok(Ok(_)),
        0 <= i < renew_steps(db, now, o, ttl, locks)->Ok_0->Ok_0.len(),
        touches(renew_steps(db, now, o, ttl, locks)->Ok_0->Ok_0[i], place),
    ensures
        exists|m: Mode, p: Seq<char>| #[trigger]
            holding(db, now, m, p, o) && (of_lock(m, p, o, place) || m == Mode::Write && place == (
                Cf::Fences,
                utf8(p),
            )),
    decreases locks.len(),
{
    let front = locks.drop_last();
    let lock = locks.last();
    let all = renew_steps(db, now, o, ttl, locks)->Ok_0->Ok_0;
    let rest = renew_steps(db, now, o, ttl, front)->Ok_0->Ok_0;
    let fence = keep_fence(db, now, ttl, lock)->Ok_0;
    if i < rest.len() {
        assert(all[i] == rest[i]);
        lemma_renewed_touches(db, now, o, ttl, front, i, place);
    } else {
        assert(holding(db, now, lock.mode, lock.path, o));
        if i > rest.len() {
            assert(all[i] == fence[i - rest.len() - 1]);
        }
    }
}

proof fn lemma_renew_passes(
    db: DbView,
    now: u64,
    o: Seq<char>,
    ttl: u64,
    place: (Cf, Seq<u8>),
)
    requires
        renew_plan(db, now, o, ttl) is Ok,
        place.0 != Cf::Expiry,
        !concerns(db, now, OpKind::Renew { owner: o, ttl_ms: ttl }, place),
    ensures
        same_at(applied(db, steps_ops(now, renew_plan(db, now, o, ttl)->Ok_0.1)), db, place),
{
    let steps = renew_plan(db, now, o, ttl)->Ok_0.1;
    if steps.len() > 0 {
        let locks = holdings(db, now, o)->Ok_0;
        let renewed = renew_steps(db, now, o, ttl, locks)->Ok_0->Ok_0;
        assert forall|i: int| 0 <= i < steps.len() implies !touches(#[trigger] steps[i], place) by {
            if i < renewed.len() && touches(steps[i], place) {
                assert(steps[i] == renewed[i]);
                lemma_renewed_touches(db, now, o, ttl, locks, i, place);
            }
        }
    }
    lemma_steps_pass(db, now, steps, place);
}

/// A command touches nothing else: every record that it does not concern, but for entries
/// of the expiry index and the number of the last applied command, is as it was.
pub proof fn law_commands_touch_nothing_else(
    db: DbView,
    now: u64,
    op: OpKind,
    place: (Cf, Seq<u8>),
)
    requires
        honest(db),
        db.dom().finite(),
        plain_paths(op),
        command_effect(db, now, op) is Ok,
        place.0 != Cf::Expiry,
        place != (Cf::Meta, last_applied_key()),
        !concerns(db, now, op, place),
    ensures
        same_at(applied(db, command_effect(db, now, op)->Ok_0.1), db, place),
{
    lemma_effect(db, now, op);
    let writes = command_writes(db, now, op)->Ok_0.1;
    match op {
        OpKind::Acquire(args) => {
            lemma_acquire_passes(db, now, args, place);
        },
        OpKind::Release { owner, reqs, del_wait } => {
            lemma_release_passes(db, now, owner, reqs, del_wait, place);
        },
        OpKind::ReleaseAll { owner, del_wait } => {
            lemma_release_all_passes(db, now, owner, del_wait, place);
        },
        OpKind::ForceRelease { victim } => {
            lemma_release_all_passes(db, now, victim, true, place);
        },
        OpKind::Renew { owner, ttl_ms } => {
            lemma_renew_passes(db, now, owner, ttl_ms, place);
        },
        OpKind::SetClaim { path, claimant, ttl_ms } => {
            let step = StepView::Claim { path, claimant, ttl: claim_ttl(ttl_ms) };
            lemma_steps_pass(db, now, seq![step], place);
        },
        OpKind::SetWaitEdge { owner, conflict_owner, metadata, ttl_ms } => {
            let step = StepView::Wait {
                owner,
                edge: edge_text(conflict_owner, metadata),
                ttl: ttl_ms,
            };
            lemma_steps_pass(db, now, seq![step], place);
        },
        OpKind::ClearWaitEdge { owner } => {
            lemma_steps_pass(db, now, seq![StepView::NoWait { owner }], place);
        },
        OpKind::GcSweep { now_ms, batch } => {
            lemma_sweep_writes(db, swept_rows(db, now_ms, batch as nat), now_ms);
            let after = applied(db, writes);
            assert(after.dom().contains(place) ==> db.dom().contains(place));
            assert(db.dom().contains(place) ==> after.dom().contains(place));
        },
        OpKind::IncrFence => {
            lemma_single(db, put_counter(next_token(fence_counter(db)->Ok_0)));
        },
    }
}

} // verus!
