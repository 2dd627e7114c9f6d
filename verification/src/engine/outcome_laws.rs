//! What the outcomes of the lock operations mean for the locks that are held.

use vstd::prelude::*;
use crate::db::{applied, lemma_applied_concat, same_at, DbView, OpView};
use crate::engine::conflict::{
    both, claims_on, clearing, first_live, inside, is_alive, on_indexed, on_paths, overlapping,
    readers_below, readers_of, readers_on, readers_under, BlockerView, Found,
};
use crate::engine::edge::edge_text;
use crate::engine::laws::{
    effect_time, exp_at, holding, lemma_drops_keep_out, lemma_live_member, lemma_release_all_plan,
    lemma_release_plan, recorded, sound,
};
use crate::engine::ops::{
    acquire_plan, alive_steps, all_holdings, check_request, check_requests, claim_ttl, fence_of,
    grant, grants, held_locks, holdings, keep_fence, release_all_plan, release_plan, release_steps,
    renew_plan, renew_steps,
};
use crate::engine::path::ancestors;
use crate::engine::places::{in_index, lemma_hold, lemma_single, text_at};
use crate::engine::steps::{
    delete_index, fence_ttl, hold_place, hold_text, law_hold_reads_back, lemma_steps_concat,
    lock_index, lock_place, put_index, step_ops, steps_ops, StepView,
};
use crate::engine::types::{
    reason_text, AcquireView, ArgsView, Mode, Reason, RelView, RenewView, ReqView, State,
};
use crate::raft::command::{OpKind, ResponseView};
use crate::raft::state_machine::{
    command_effect, command_writes, fence_counter, last_applied, lemma_effect, next_token,
    put_applied, put_counter,
};
use crate::store_keys::{
    expiry_time, is_expired, member_key_spec, nul_free, Cf, MAX_SET_ENUM_MEMBERS,
};
use crate::store_laws::{law_sweep_is_invisible, lemma_put_text_places};
use crate::store_rocksdb::{
    live_texts, member_rows, put_text, read_members, read_text, ErrorView,
};
use crate::text::{
    decimal_int, lemma_parse_decimal_int, lemma_utf8_injective, parse_signed_spec, utf8,
};

verus! {

/// A refused acquire, and a renewal that finds a loss, change nothing; as commands,
/// they move the number of the last applied command on, and that is all.
pub proof fn law_refusal_changes_nothing(
    db: DbView,
    now: u64,
    args: ArgsView,
    owner: Seq<char>,
    ttl: u64,
)
    ensures
        acquire_plan(db, now, args) matches Ok((outcome, steps)) ==> (outcome
            != AcquireView::Granted ==> applied(db, steps_ops(now, steps)) == db),
        renew_plan(db, now, owner, ttl) matches Ok((outcome, steps)) ==> (outcome
            != RenewView::Renewed ==> applied(db, steps_ops(now, steps)) == db),
        command_effect(db, now, OpKind::Acquire(args)) matches Ok((response, ops)) ==> (response
            != ResponseView::Acquire(AcquireView::Granted) ==> ops == seq![
            put_applied(next_token(last_applied(db)->Ok_0)),
        ]),
        command_effect(db, now, OpKind::Renew { owner, ttl_ms: ttl }) matches Ok((response, ops))
            ==> (response != ResponseView::Renew(RenewView::Renewed) ==> ops == seq![
            put_applied(next_token(last_applied(db)->Ok_0)),
        ]),
{
    if let Ok((outcome, steps)) = acquire_plan(db, now, args) {
        if outcome != AcquireView::Granted {
            lemma_check_never_grants(db, now, args.owner, args.token, args.requests);
            assert(steps_ops(now, steps) =~= Seq::<OpView>::empty());
        }
    }
    if let Ok((outcome, steps)) = renew_plan(db, now, owner, ttl) {
        if outcome != RenewView::Renewed {
            assert(steps_ops(now, steps) =~= Seq::<OpView>::empty());
        }
    }
}

pub proof fn lemma_check_never_grants(
    db: DbView,
    now: u64,
    o: Seq<char>,
    token: i64,
    reqs: Seq<ReqView>,
)
    ensures
        check_requests(db, now, o, token, reqs) matches Ok(Err(refusal)) ==> refusal
            != AcquireView::Granted,
    decreases reqs.len(),
{
    if reqs.len() > 0 {
        lemma_check_never_grants(db, now, o, token, reqs.drop_last());
    }
}

// ---------------------------------------------------------------------------
// Conflicts are real
// ---------------------------------------------------------------------------

/// A blocker is what the store holds: a write lock, a member of the set of read
/// locks on the path, a read lock below, or a claim.
pub open spec fn real_blocker(db: DbView, now: u64, b: BlockerView) -> bool {
    match b.reason {
        Reason::AncestorLocked => holding(db, now, Mode::Write, b.path, b.owner),
        Reason::WriteLocked => holding(db, now, Mode::Write, b.path, b.owner),
        Reason::DescendantWriteLocked => holding(db, now, Mode::Write, b.path, b.owner),
        Reason::ReadLocked => read_members(
            db,
            now,
            Cf::ReadLocks,
            utf8(b.path),
            MAX_SET_ENUM_MEMBERS,
        ) matches Ok(owners) && owners.contains(b.owner),
        Reason::DescendantReadLocked => holding(db, now, Mode::Read, b.path, b.owner),
        Reason::PreemptClaimed => read_text(db, now, Cf::Claims, utf8(b.path)) == Ok::<
            Option<Seq<char>>,
            ErrorView,
        >(Some(b.owner)),
        Reason::PreemptClaimedAbove => read_text(db, now, Cf::Claims, utf8(b.path)) == Ok::<
            Option<Seq<char>>,
            ErrorView,
        >(Some(b.owner)),
        _ => false,
    }
}

pub open spec fn all_real(db: DbView, now: u64, found: Found) -> bool {
    found matches Ok(bs) ==> forall|i: int|
        0 <= i < bs.len() ==> real_blocker(db, now, #[trigger] bs[i])
}

proof fn lemma_both_real(db: DbView, now: u64, a: Found, b: Found)
    requires
        all_real(db, now, a),
        all_real(db, now, b),
    ensures
        all_real(db, now, both(a, b)),
{
    if let Ok(all) = both(a, b) {
        let (x, y) = (a->Ok_0, b->Ok_0);
        assert forall|i: int| 0 <= i < all.len() implies real_blocker(db, now, #[trigger] all[i]) by {
            if i < x.len() {
                assert(all[i] == x[i]);
            } else {
                assert(all[i] == y[i - x.len()]);
            }
        }
    }
}

proof fn lemma_on_paths_real(
    db: DbView,
    now: u64,
    cf: Cf,
    paths: Seq<Seq<char>>,
    reason: Reason,
)
    requires
        cf == Cf::WriteLocks && (reason == Reason::AncestorLocked || reason == Reason::WriteLocked
            || reason == Reason::DescendantWriteLocked) || cf == Cf::Claims && (reason
            == Reason::PreemptClaimed || reason == Reason::PreemptClaimedAbove),
    ensures
        all_real(db, now, on_paths(db, now, cf, paths, reason)),
    decreases paths.len(),
{
    if paths.len() > 0 {
        lemma_on_paths_real(db, now, cf, paths.drop_last(), reason);
        if let Ok(all) = on_paths(db, now, cf, paths, reason) {
            let rest = on_paths(db, now, cf, paths.drop_last(), reason)->Ok_0;
            assert forall|i: int| 0 <= i < all.len() implies real_blocker(
                db,
                now,
                #[trigger] all[i],
            ) by {
                if i < rest.len() {
                    assert(all[i] == rest[i]);
                }
            }
        }
    }
}

proof fn lemma_readers_below_real(db: DbView, now: u64, entries: Seq<Seq<char>>)
    ensures
        all_real(db, now, readers_below(db, now, entries)),
    decreases entries.len(),
{
    if entries.len() > 0 {
        lemma_readers_below_real(db, now, entries.drop_last());
        if let Ok(all) = readers_below(db, now, entries) {
            let rest = readers_below(db, now, entries.drop_last())->Ok_0;
            assert forall|i: int| 0 <= i < all.len() implies real_blocker(
                db,
                now,
                #[trigger] all[i],
            ) by {
                if i < rest.len() {
                    assert(all[i] == rest[i]);
                }
            }
        }
    }
}

pub proof fn lemma_overlapping_real(db: DbView, now: u64, p: Seq<char>, m: Mode)
    ensures
        all_real(db, now, overlapping(db, now, p, m)),
{
    let above = on_paths(db, now, Cf::WriteLocks, ancestors(p), Reason::AncestorLocked);
    let here = on_paths(db, now, Cf::WriteLocks, seq![p], Reason::WriteLocked);
    lemma_on_paths_real(db, now, Cf::WriteLocks, ancestors(p), Reason::AncestorLocked);
    lemma_on_paths_real(db, now, Cf::WriteLocks, seq![p], Reason::WriteLocked);
    let readers = readers_on(db, now, p);
    let writes = on_indexed(
        db,
        now,
        Cf::DescWrite,
        p,
        Cf::WriteLocks,
        Reason::DescendantWriteLocked,
    );
    let below = readers_under(db, now, p);
    if let Ok(owners) = read_members(db, now, Cf::ReadLocks, utf8(p), MAX_SET_ENUM_MEMBERS) {
        let list = readers_of(p, owners);
        assert forall|i: int| 0 <= i < list.len() implies real_blocker(db, now, #[trigger] list[i]) by {
            assert(owners.contains(owners[i]));
        }
    }
    if let Ok(paths) = read_members(db, now, Cf::DescWrite, utf8(p), MAX_SET_ENUM_MEMBERS) {
        lemma_on_paths_real(db, now, Cf::WriteLocks, paths, Reason::DescendantWriteLocked);
    }
    if let Ok(entries) = read_members(db, now, Cf::DescRead, utf8(p), MAX_SET_ENUM_MEMBERS) {
        lemma_readers_below_real(db, now, entries);
    }
    lemma_both_real(db, now, writes, below);
    lemma_both_real(db, now, readers, both(writes, below));
    let on = on_paths(db, now, Cf::Claims, seq![p], Reason::PreemptClaimed);
    let up = on_paths(db, now, Cf::Claims, ancestors(p), Reason::PreemptClaimedAbove);
    lemma_on_paths_real(db, now, Cf::Claims, seq![p], Reason::PreemptClaimed);
    lemma_on_paths_real(db, now, Cf::Claims, ancestors(p), Reason::PreemptClaimedAbove);
    let down: Found = match m {
        Mode::Read => Ok(Seq::empty()),
        Mode::Write => on_indexed(
            db,
            now,
            Cf::DescClaim,
            p,
            Cf::Claims,
            Reason::PreemptClaimed,
        ),
    };
    if let Ok(paths) = read_members(db, now, Cf::DescClaim, utf8(p), MAX_SET_ENUM_MEMBERS) {
        lemma_on_paths_real(db, now, Cf::Claims, paths, Reason::PreemptClaimed);
    }
    lemma_both_real(db, now, up, down);
    lemma_both_real(db, now, on, both(up, down));
    let claims = claims_on(db, now, p, m);
    let within: Found = match m {
        Mode::Read => Ok(Seq::empty()),
        Mode::Write => inside(db, now, p),
    };
    lemma_both_real(db, now, within, claims);
    lemma_both_real(db, now, here, both(within, claims));
    lemma_both_real(db, now, above, both(here, both(within, claims)));
}

pub proof fn lemma_first_live_in(
    db: DbView,
    now: u64,
    o: Seq<char>,
    found: Seq<BlockerView>,
)
    requires
        first_live(db, now, o, found) matches Ok(Some(_)),
    ensures
        found.contains(first_live(db, now, o, found)->Ok_0->0),
        first_live(db, now, o, found)->Ok_0->0.owner != o,
        is_alive(db, now, first_live(db, now, o, found)->Ok_0->0.owner) == Ok::<bool, ErrorView>(
            true,
        ),
    decreases found.len(),
{
    let b = first_live(db, now, o, found)->Ok_0->0;
    if b == found[0] && found[0].owner != o && is_alive(db, now, found[0].owner) == Ok::<
        bool,
        ErrorView,
    >(true) {
        assert(found.contains(found[0]));
    } else {
        let rest = found.drop_first();
        lemma_first_live_in(db, now, o, rest);
        let i = rest.index_of(b);
        assert(found[i + 1] == b);
    }
}

/// A conflict that names an owner is real, and never with oneself: the named owner
/// is another, its lease is live, and what stands in the way is in the store.
pub proof fn law_conflict_is_real(
    db: DbView,
    now: u64,
    args: ArgsView,
    path: Seq<char>,
    owner: Seq<char>,
    reason: Seq<char>,
)
    requires
        acquire_plan(db, now, args) matches Ok((outcome, _)) && outcome == (AcquireView::Conflict {
            path,
            owner,
            reason,
        }),
    ensures
        reason == reason_text(Reason::StaleFencingToken) && owner == Seq::<char>::empty() || ({
            &&& owner != args.owner
            &&& is_alive(db, now, owner) == Ok::<bool, ErrorView>(true)
            &&& exists|b: BlockerView|
                b.path == path && b.owner == owner && reason_text(b.reason) == reason && #[trigger]
                real_blocker(db, now, b)
        }),
{
    lemma_refusal_is_real(db, now, args.owner, args.token, args.requests, path, owner, reason);
}

proof fn lemma_refusal_is_real(
    db: DbView,
    now: u64,
    o: Seq<char>,
    token: i64,
    reqs: Seq<ReqView>,
    path: Seq<char>,
    owner: Seq<char>,
    reason: Seq<char>,
)
    requires
        check_requests(db, now, o, token, reqs) matches Ok(Err(refusal)) && refusal == (
        AcquireView::Conflict { path, owner, reason }),
    ensures
        reason == reason_text(Reason::StaleFencingToken) && owner == Seq::<char>::empty() || ({
            &&& owner != o
            &&& is_alive(db, now, owner) == Ok::<bool, ErrorView>(true)
            &&& exists|b: BlockerView|
                b.path == path && b.owner == owner && reason_text(b.reason) == reason && #[trigger]
                real_blocker(db, now, b)
        }),
    decreases reqs.len(),
{
    let front = reqs.drop_last();
    if check_requests(db, now, o, token, front) matches Ok(Err(_)) {
        lemma_refusal_is_real(db, now, o, token, front, path, owner, reason);
    } else {
        let req = reqs.last();
        assert(check_request(db, now, o, token, req) matches Ok(Err(r)) && r == (
        AcquireView::Conflict { path, owner, reason }));
        if reason != reason_text(Reason::StaleFencingToken) || owner != Seq::<char>::empty() {
            let found = overlapping(db, now, req.path, req.mode)->Ok_0;
            lemma_overlapping_real(db, now, req.path, req.mode);
            lemma_first_live_in(db, now, o, found);
            let b = first_live(db, now, o, found)->Ok_0->0;
            let i = found.index_of(b);
            assert(real_blocker(db, now, found[i]));
        }
    }
}

// ---------------------------------------------------------------------------
// What steps leave alone
// ---------------------------------------------------------------------------

/// The column family that a write touches.
pub open spec fn op_cf(op: OpView) -> Cf {
    match op {
        OpView::Put { cf, .. } => cf,
        OpView::Delete { cf, .. } => cf,
    }
}

/// No write touches the column family.
pub open spec fn avoids(ops: Seq<OpView>, cf: Cf) -> bool {
    forall|i: int| 0 <= i < ops.len() ==> op_cf(#[trigger] ops[i]) != cf
}

pub proof fn lemma_avoids_same(db: DbView, ops: Seq<OpView>, place: (Cf, Seq<u8>))
    requires
        avoids(ops, place.0),
    ensures
        same_at(applied(db, ops), db, place),
    decreases ops.len(),
{
    if ops.len() > 0 {
        let front = ops.drop_last();
        assert forall|i: int| 0 <= i < front.len() implies op_cf(#[trigger] front[i]) != place.0 by {
            assert(front[i] == ops[i]);
        }
        lemma_avoids_same(db, front, place);
        assert(op_cf(ops[ops.len() - 1]) != place.0);
    }
}

proof fn lemma_avoids_concat(a: Seq<OpView>, b: Seq<OpView>, cf: Cf)
    requires
        avoids(a, cf),
        avoids(b, cf),
    ensures
        avoids(a + b, cf),
{
    let c = a + b;
    assert forall|i: int| 0 <= i < c.len() implies op_cf(#[trigger] c[i]) != cf by {
        if i < a.len() {
            assert(c[i] == a[i]);
        } else {
            assert(c[i] == b[i - a.len()]);
        }
    }
}

proof fn lemma_put_index_avoids(
    now: u64,
    index: Cf,
    ups: Seq<Seq<char>>,
    entry: Seq<char>,
    ttl: u64,
    cf: Cf,
)
    requires
        cf != index,
        cf != Cf::Expiry,
    ensures
        avoids(put_index(now, index, ups, entry, ttl), cf),
    decreases ups.len(),
{
    if ups.len() > 0 {
        lemma_put_index_avoids(now, index, ups.drop_last(), entry, ttl, cf);
        lemma_avoids_concat(
            put_index(now, index, ups.drop_last(), entry, ttl),
            put_text(now, index, member_key_spec(utf8(ups.last()), entry), entry, ttl),
            cf,
        );
    }
}

proof fn lemma_put_text_avoids(now: u64, c: Cf, key: Seq<u8>, v: Seq<char>, ttl: u64, cf: Cf)
    requires
        cf != c,
        cf != Cf::Expiry,
    ensures
        avoids(put_text(now, c, key, v, ttl), cf),
{
}

proof fn lemma_hold_avoids(
    now: u64,
    owner: Seq<char>,
    mode: Mode,
    path: Seq<char>,
    ttl: u64,
    cf: Cf,
)
    requires
        cf == Cf::OwnerAlive || cf == Cf::Fences,
    ensures
        avoids(step_ops(now, StepView::Hold { owner, mode, path, ttl }), cf),
{
    let (c, key) = lock_place(mode, path, owner);
    let (index, entry) = lock_index(mode, path, owner);
    let first = put_text(now, c, key, owner, ttl);
    let second = put_index(now, index, ancestors(path), entry, ttl);
    let third = put_text(
        now,
        Cf::OwnerHolds,
        hold_place(mode, path, owner),
        hold_text(mode, path),
        ttl,
    );
    lemma_put_text_avoids(now, c, key, owner, ttl, cf);
    lemma_put_index_avoids(now, index, ancestors(path), entry, ttl, cf);
    lemma_put_text_avoids(
        now,
        Cf::OwnerHolds,
        hold_place(mode, path, owner),
        hold_text(mode, path),
        ttl,
        cf,
    );
    lemma_avoids_concat(first, second, cf);
    lemma_avoids_concat(first + second, third, cf);
}

proof fn lemma_drop_avoids(now: u64, owner: Seq<char>, mode: Mode, path: Seq<char>, cf: Cf)
    requires
        cf == Cf::OwnerAlive || cf == Cf::Fences,
    ensures
        avoids(step_ops(now, StepView::Drop { owner, mode, path }), cf),
{
    let (c, key) = lock_place(mode, path, owner);
    let (index, entry) = lock_index(mode, path, owner);
    let first = seq![OpView::Delete { cf: c, key }];
    let second = delete_index(index, ancestors(path), entry);
    let third = seq![OpView::Delete { cf: Cf::OwnerHolds, key: hold_place(mode, path, owner) }];
    lemma_avoids_concat(first, second, cf);
    lemma_avoids_concat(first + second, third, cf);
}

/// Steps on locks and claims touch neither liveness markers nor, unless they set
/// one, fences.
pub proof fn lemma_step_avoids(now: u64, step: StepView, cf: Cf)
    requires
        cf == Cf::OwnerAlive || cf == Cf::Fences,
        cf == Cf::OwnerAlive ==> !(step is Alive) && !(step is NotAlive),
        cf == Cf::Fences ==> !(step is Fence),
    ensures
        avoids(step_ops(now, step), cf),
{
    match step {
        StepView::Hold { owner, mode, path, ttl } => {
            lemma_hold_avoids(now, owner, mode, path, ttl, cf);
        },
        StepView::Drop { owner, mode, path } => {
            lemma_drop_avoids(now, owner, mode, path, cf);
        },
        StepView::Claim { path, claimant, ttl } => {
            let first = put_text(now, Cf::Claims, utf8(path), claimant, ttl);
            let second = put_index(now, Cf::DescClaim, ancestors(path), path, ttl);
            lemma_put_text_avoids(now, Cf::Claims, utf8(path), claimant, ttl, cf);
            lemma_put_index_avoids(now, Cf::DescClaim, ancestors(path), path, ttl, cf);
            lemma_avoids_concat(first, second, cf);
        },
        StepView::DropClaim { path } => {
            let first = seq![OpView::Delete { cf: Cf::Claims, key: utf8(path) }];
            let second = delete_index(Cf::DescClaim, ancestors(path), path);
            lemma_avoids_concat(first, second, cf);
        },
        StepView::Alive { owner, ttl } => {
            lemma_put_text_avoids(now, Cf::OwnerAlive, utf8(owner), "1"@, ttl, cf);
        },
        StepView::Fence { path, token, ttl } => {
            lemma_put_text_avoids(now, Cf::Fences, utf8(path), token, fence_ttl(ttl), cf);
        },
        StepView::Wait { owner, edge, ttl } => {
            lemma_put_text_avoids(now, Cf::WaitEdges, utf8(owner), edge, ttl, cf);
        },
        _ => {},
    }
}

// ---------------------------------------------------------------------------
// Granted locks are held
// ---------------------------------------------------------------------------

/// The store records a lock as the owner's until `exp`.
pub open spec fn held_until(
    db: DbView,
    m: Mode,
    p: Seq<char>,
    o: Seq<char>,
    exp: u64,
) -> bool {
    text_at(db, lock_place(m, p, o), o, exp)
}

pub proof fn lemma_grant_keeps(
    db: DbView,
    now: u64,
    o: Seq<char>,
    ttl: u64,
    step: StepView,
    m: Mode,
    p: Seq<char>,
)
    requires
        held_until(db, m, p, o, expiry_time(now, ttl)),
        step is Fence || (step matches StepView::Hold { owner, ttl: l, .. } && owner == o && l
            == ttl),
    ensures
        held_until(applied(db, step_ops(now, step)), m, p, o, expiry_time(now, ttl)),
{
    let place = lock_place(m, p, o);
    match step {
        StepView::Hold { owner, mode, path, ttl: l } => {
            lemma_hold(db, now, o, mode, path, ttl);
            if place != lock_place(mode, path, o) {
                assert(!in_index(
                    lock_index(mode, path, o).0,
                    ancestors(path),
                    lock_index(mode, path, o).1,
                    place,
                ));
                assert(same_at(applied(db, step_ops(now, step)), db, place));
            }
        },
        StepView::Fence { path, token, ttl: l } => {
            lemma_put_text_places(db, now, Cf::Fences, utf8(path), token, fence_ttl(l));
        },
        _ => {},
    }
}

pub proof fn lemma_grants_hold(
    db: DbView,
    now: u64,
    o: Seq<char>,
    ttl: u64,
    token: i64,
    reqs: Seq<ReqView>,
    i: int,
)
    requires
        0 <= i < reqs.len(),
    ensures
        held_until(
            applied(db, steps_ops(now, grants(o, ttl, token, reqs))),
            reqs[i].mode,
            reqs[i].path,
            o,
            expiry_time(now, ttl),
        ),
    decreases reqs.len(),
{
    let front = reqs.drop_last();
    let before = grants(o, ttl, token, front);
    let more = grant(o, ttl, token, reqs.last());
    let mid = applied(db, steps_ops(now, before));
    lemma_steps_concat(now, before, more);
    lemma_applied_concat(db, steps_ops(now, before), steps_ops(now, more));
    let req = reqs.last();
    let (m, p) = (reqs[i].mode, reqs[i].path);
    let one = applied(mid, step_ops(now, more[0]));
    if i < front.len() {
        lemma_grants_hold(db, now, o, ttl, token, front, i);
        assert(front[i] == reqs[i]);
        lemma_grant_keeps(mid, now, o, ttl, more[0], m, p);
    } else {
        lemma_hold(mid, now, o, req.mode, req.path, ttl);
    }
    if more.len() == 2 {
        assert(more =~= seq![more[0], more[1]]);
        lemma_two_steps(mid, now, more[0], more[1]);
        lemma_grant_keeps(one, now, o, ttl, more[1], m, p);
    } else {
        assert(more =~= seq![more[0]]);
        lemma_one_step(now, more[0]);
    }
}

pub proof fn lemma_one_step(now: u64, a: StepView)
    ensures
        steps_ops(now, seq![a]) == step_ops(now, a),
{
    reveal_with_fuel(steps_ops, 2);
    assert(seq![a].drop_last() =~= Seq::<StepView>::empty());
    assert(Seq::<OpView>::empty() + step_ops(now, a) =~= step_ops(now, a));
}

pub proof fn lemma_two_steps(db: DbView, now: u64, a: StepView, b: StepView)
    ensures
        applied(db, steps_ops(now, seq![a, b])) == applied(
            applied(db, step_ops(now, a)),
            step_ops(now, b),
        ),
{
    assert(seq![a, b].drop_last() =~= seq![a]);
    lemma_one_step(now, a);
    lemma_applied_concat(db, step_ops(now, a), step_ops(now, b));
}

/// A granted lock is held: after a granted acquire, its owner holds every lock that
/// it asked for until the lease is over.
pub proof fn law_granted_is_held(db: DbView, now: u64, args: ArgsView, i: int, later: u64)
    requires
        acquire_plan(db, now, args) matches Ok((AcquireView::Granted, _)),
        0 <= i < args.requests.len(),
        !is_expired(expiry_time(now, args.ttl), later),
    ensures
        holding(
            applied(db, steps_ops(now, acquire_plan(db, now, args)->Ok_0.1)),
            later,
            args.requests[i].mode,
            args.requests[i].path,
            args.owner,
        ),
{
    lemma_check_never_grants(db, now, args.owner, args.token, args.requests);
    let steps = acquire_plan(db, now, args)->Ok_0.1;
    let clear = check_requests(db, now, args.owner, args.token, args.requests)->Ok_0->Ok_0;
    let released = release_steps(db, now, args.owner, args.releases)->Ok_0;
    let before = clear + alive_steps(args.owner, args.ttl, args.requests) + released;
    let granted = grants(args.owner, args.ttl, args.token, args.requests);
    assert(steps == before + granted);
    lemma_steps_concat(now, before, granted);
    lemma_applied_concat(db, steps_ops(now, before), steps_ops(now, granted));
    lemma_grants_hold(
        applied(db, steps_ops(now, before)),
        now,
        args.owner,
        args.ttl,
        args.token,
        args.requests,
        i,
    );
}

// ---------------------------------------------------------------------------
// Fences
// ---------------------------------------------------------------------------

/// The fence of a path is at least `f`, and stays so at `now`.
pub open spec fn fenced_at_least(db: DbView, now: u64, p: Seq<char>, f: i64) -> bool {
    fence_of(db, now, p) matches Ok(Some(g)) && g >= f
}

/// Whether a step leaves the fence of a path alone, or sets it to at least `f`.
pub open spec fn keeps_fence(step: StepView, p: Seq<char>, f: i64) -> bool {
    step matches StepView::Fence { path, token, .. } ==> (path == p ==> (parse_signed_spec(
        token,
    ) matches Some(g) && g >= f))
}

proof fn lemma_step_keeps_fence(
    db: DbView,
    now: u64,
    step: StepView,
    p: Seq<char>,
    f: i64,
)
    requires
        now < u64::MAX,
        fenced_at_least(db, now, p, f),
        keeps_fence(step, p, f),
    ensures
        fenced_at_least(applied(db, step_ops(now, step)), now, p, f),
{
    let place = (Cf::Fences, utf8(p));
    match step {
        StepView::Fence { path, token: text, ttl } => {
            lemma_put_text_places(db, now, Cf::Fences, utf8(path), text, fence_ttl(ttl));
            if path != p && utf8(path) == utf8(p) {
                lemma_utf8_injective(path, p);
            }
        },
        _ => {
            lemma_step_avoids(now, step, Cf::Fences);
            lemma_avoids_same(db, step_ops(now, step), place);
        },
    }
}

proof fn lemma_steps_keep_fence(
    db: DbView,
    now: u64,
    steps: Seq<StepView>,
    p: Seq<char>,
    f: i64,
)
    requires
        now < u64::MAX,
        fenced_at_least(db, now, p, f),
        forall|i: int| 0 <= i < steps.len() ==> keeps_fence(#[trigger] steps[i], p, f),
    ensures
        fenced_at_least(applied(db, steps_ops(now, steps)), now, p, f),
    decreases steps.len(),
{
    if steps.len() > 0 {
        let front = steps.drop_last();
        assert forall|i: int| 0 <= i < front.len() implies keeps_fence(
            #[trigger] front[i],
            p,
            f,
        ) by {
            assert(front[i] == steps[i]);
        }
        lemma_steps_keep_fence(db, now, front, p, f);
        lemma_applied_concat(db, steps_ops(now, front), step_ops(now, steps.last()));
        assert(steps[steps.len() - 1] == steps.last());
        lemma_step_keeps_fence(
            applied(db, steps_ops(now, front)),
            now,
            steps.last(),
            p,
            f,
        );
    }
}

pub proof fn lemma_grants_fences(
    o: Seq<char>,
    ttl: u64,
    token: i64,
    reqs: Seq<ReqView>,
    i: int,
)
    requires
        0 <= i < grants(o, ttl, token, reqs).len(),
    ensures
        grants(o, ttl, token, reqs)[i] matches StepView::Fence { path, token: text, .. } ==> text
            == decimal_int(token as int) && exists|j: int|
            0 <= j < reqs.len() && (#[trigger] reqs[j]).mode == Mode::Write && reqs[j].path == path,
    decreases reqs.len(),
{
    let front = reqs.drop_last();
    let rest = grants(o, ttl, token, front);
    let more = grant(o, ttl, token, reqs.last());
    assert(grants(o, ttl, token, reqs) == rest + more);
    let step = grants(o, ttl, token, reqs)[i];
    if i < rest.len() {
        lemma_grants_fences(o, ttl, token, front, i);
        if let StepView::Fence { path, .. } = step {
            let j = choose|j: int|
                0 <= j < front.len() && (#[trigger] front[j]).mode == Mode::Write && front[j].path
                    == path;
            assert(reqs[j] == front[j]);
        }
    } else {
        assert(step == more[i - rest.len()]);
        assert(reqs[reqs.len() - 1] == reqs.last());
    }
}

proof fn lemma_passed_token(
    db: DbView,
    now: u64,
    o: Seq<char>,
    token: i64,
    reqs: Seq<ReqView>,
    j: int,
    f: i64,
)
    requires
        check_requests(db, now, o, token, reqs) matches Ok(Ok(_)),
        0 <= j < reqs.len(),
        reqs[j].mode == Mode::Write,
        fence_of(db, now, reqs[j].path) == Ok::<Option<i64>, ErrorView>(Some(f)),
    ensures
        token >= f,
    decreases reqs.len(),
{
    if j < reqs.len() - 1 {
        assert(reqs.drop_last()[j] == reqs[j]);
        lemma_passed_token(db, now, o, token, reqs.drop_last(), j, f);
    } else {
        assert(reqs.last() == reqs[j]);
        assert(check_request(db, now, o, token, reqs.last()) matches Ok(Ok(_)));
    }
}

proof fn lemma_clearing_sets_no_fence(o: Seq<char>, found: Seq<BlockerView>)
    ensures
        forall|i: int|
            0 <= i < clearing(o, found).len() ==> !((#[trigger] clearing(o, found)[i]) is Fence),
    decreases found.len(),
{
    if found.len() > 0 {
        lemma_clearing_sets_no_fence(o, found.drop_last());
        let (rest, all) = (clearing(o, found.drop_last()), clearing(o, found));
        assert forall|i: int| 0 <= i < all.len() implies !((#[trigger] all[i]) is Fence) by {
            if i < rest.len() {
                assert(all[i] == rest[i]);
            }
        }
    }
}

proof fn lemma_check_sets_no_fence(
    db: DbView,
    now: u64,
    o: Seq<char>,
    token: i64,
    reqs: Seq<ReqView>,
)
    requires
        check_requests(db, now, o, token, reqs) matches Ok(Ok(_)),
    ensures
        ({
            let steps = check_requests(db, now, o, token, reqs)->Ok_0->Ok_0;
            forall|i: int| 0 <= i < steps.len() ==> !((#[trigger] steps[i]) is Fence)
        }),
    decreases reqs.len(),
{
    if reqs.len() > 0 {
        let front = reqs.drop_last();
        let req = reqs.last();
        lemma_check_sets_no_fence(db, now, o, token, front);
        let all = check_requests(db, now, o, token, reqs)->Ok_0->Ok_0;
        let rest = check_requests(db, now, o, token, front)->Ok_0->Ok_0;
        let more = check_request(db, now, o, token, req)->Ok_0->Ok_0;
        if req.state == State::New {
            lemma_clearing_sets_no_fence(o, overlapping(db, now, req.path, req.mode)->Ok_0);
        }
        assert forall|i: int| 0 <= i < all.len() implies !((#[trigger] all[i]) is Fence) by {
            if i < rest.len() {
                assert(all[i] == rest[i]);
            } else {
                assert(all[i] == more[i - rest.len()]);
            }
        }
    }
}

proof fn lemma_release_sets_no_fence(db: DbView, now: u64, o: Seq<char>, rels: Seq<RelView>)
    requires
        release_steps(db, now, o, rels) is Ok,
    ensures
        ({
            let steps = release_steps(db, now, o, rels)->Ok_0;
            forall|i: int| 0 <= i < steps.len() ==> !((#[trigger] steps[i]) is Fence)
        }),
    decreases rels.len(),
{
    if rels.len() > 0 {
        lemma_release_sets_no_fence(db, now, o, rels.drop_last());
        let all = release_steps(db, now, o, rels)->Ok_0;
        let rest = release_steps(db, now, o, rels.drop_last())->Ok_0;
        assert forall|i: int| 0 <= i < all.len() implies !((#[trigger] all[i]) is Fence) by {
            if i < rest.len() {
                assert(all[i] == rest[i]);
            }
        }
    }
}

proof fn lemma_acquire_keeps_fence(
    db: DbView,
    now: u64,
    args: ArgsView,
    p: Seq<char>,
    f: i64,
)
    requires
        now < u64::MAX,
        acquire_plan(db, now, args) is Ok,
        fence_of(db, now, p) == Ok::<Option<i64>, ErrorView>(Some(f)),
    ensures
        fenced_at_least(
            applied(db, steps_ops(now, acquire_plan(db, now, args)->Ok_0.1)),
            now,
            p,
            f,
        ),
{
    let (outcome, steps) = acquire_plan(db, now, args)->Ok_0;
    let o = args.owner;
    if steps.len() == 0 {
        assert(steps_ops(now, steps) =~= Seq::<OpView>::empty());
    } else {
        let clear = check_requests(db, now, o, args.token, args.requests)->Ok_0->Ok_0;
        let released = release_steps(db, now, o, args.releases)->Ok_0;
        let before = clear + alive_steps(o, args.ttl, args.requests) + released;
        let granted = grants(o, args.ttl, args.token, args.requests);
        lemma_check_sets_no_fence(db, now, o, args.token, args.requests);
        lemma_release_sets_no_fence(db, now, o, args.releases);
        lemma_parse_decimal_int(args.token);
        assert forall|i: int| 0 <= i < steps.len() implies keeps_fence(
            #[trigger] steps[i],
            p,
            f,
        ) by {
            if i < before.len() {
                assert(steps[i] == before[i]);
                let head = clear + alive_steps(o, args.ttl, args.requests);
                if i < clear.len() {
                    assert(before[i] == clear[i]);
                } else if i < head.len() {
                    assert(before[i] == alive_steps(o, args.ttl, args.requests)[i - clear.len()]);
                } else {
                    assert(before[i] == released[i - head.len()]);
                }
            } else {
                let k = i - before.len();
                assert(steps[i] == granted[k]);
                lemma_grants_fences(o, args.ttl, args.token, args.requests, k);
                if let StepView::Fence { path, .. } = granted[k] {
                    if path == p {
                        let j = choose|j: int|
                            0 <= j < args.requests.len() && (#[trigger] args.requests[j]).mode
                                == Mode::Write && args.requests[j].path == path;
                        lemma_passed_token(db, now, o, args.token, args.requests, j, f);
                    }
                }
            }
        }
        lemma_steps_keep_fence(db, now, steps, p, f);
    }
}

proof fn lemma_renew_keeps_fence(
    db: DbView,
    now: u64,
    o: Seq<char>,
    ttl: u64,
    locks: Seq<RelView>,
    p: Seq<char>,
    f: i64,
)
    requires
        fence_of(db, now, p) == Ok::<Option<i64>, ErrorView>(Some(f)),
        renew_steps(db, now, o, ttl, locks) matches Ok(Ok(_)),
    ensures
        ({
            let steps = renew_steps(db, now, o, ttl, locks)->Ok_0->Ok_0;
            forall|i: int| 0 <= i < steps.len() ==> keeps_fence(#[trigger] steps[i], p, f)
        }),
    decreases locks.len(),
{
    if locks.len() > 0 {
        let front = locks.drop_last();
        lemma_renew_keeps_fence(db, now, o, ttl, front, p, f);
        let all = renew_steps(db, now, o, ttl, locks)->Ok_0->Ok_0;
        let rest = renew_steps(db, now, o, ttl, front)->Ok_0->Ok_0;
        let fence = keep_fence(db, now, ttl, locks.last())->Ok_0;
        assert forall|i: int| 0 <= i < all.len() implies keeps_fence(#[trigger] all[i], p, f) by {
            if i < rest.len() {
                assert(all[i] == rest[i]);
            } else if i > rest.len() {
                assert(all[i] == fence[i - rest.len() - 1]);
            }
        }
    }
}

proof fn lemma_others_keep_fence(
    db: DbView,
    now: u64,
    steps: Seq<StepView>,
    p: Seq<char>,
    f: i64,
)
    requires
        now < u64::MAX,
        fence_of(db, now, p) == Ok::<Option<i64>, ErrorView>(Some(f)),
        forall|i: int| 0 <= i < steps.len() ==> !((#[trigger] steps[i]) is Fence),
    ensures
        fenced_at_least(applied(db, steps_ops(now, steps)), now, p, f),
{
    assert forall|i: int| 0 <= i < steps.len() implies keeps_fence(#[trigger] steps[i], p, f) by {
        assert(!(steps[i] is Fence));
    }
    lemma_steps_keep_fence(db, now, steps, p, f);
}

proof fn lemma_release_all_keeps_fence(
    db: DbView,
    now: u64,
    o: Seq<char>,
    del_wait: bool,
    p: Seq<char>,
    f: i64,
)
    requires
        now < u64::MAX,
        release_all_plan(db, now, o, del_wait) is Ok,
        fence_of(db, now, p) == Ok::<Option<i64>, ErrorView>(Some(f)),
    ensures
        fenced_at_least(
            applied(db, steps_ops(now, release_all_plan(db, now, o, del_wait)->Ok_0)),
            now,
            p,
            f,
        ),
{
    let steps = release_all_plan(db, now, o, del_wait)->Ok_0;
    let rels = all_holdings(db, now, o);
    let released = release_steps(db, now, o, rels)->Ok_0;
    lemma_release_sets_no_fence(db, now, o, rels);
    assert forall|i: int| 0 <= i < steps.len() implies !((#[trigger] steps[i]) is Fence) by {
        if i < released.len() {
            assert(steps[i] == released[i]);
        }
    }
    lemma_others_keep_fence(db, now, steps, p, f);
}

/// Fences do not go back: no command leaves a path with a lower fencing token than
/// it had.
pub proof fn law_fences_do_not_go_back(db: DbView, now: u64, op: OpKind, p: Seq<char>, f: i64)
    requires
        now < u64::MAX,
        command_effect(db, now, op) is Ok,
        fence_of(db, effect_time(now, op), p) == Ok::<Option<i64>, ErrorView>(Some(f)),
    ensures
        fenced_at_least(
            applied(db, command_effect(db, now, op)->Ok_0.1),
            effect_time(now, op),
            p,
            f,
        ),
{
    lemma_effect(db, now, op);
    lemma_writes_keep_fence(db, now, op, p, f);
}

proof fn lemma_writes_keep_fence(db: DbView, now: u64, op: OpKind, p: Seq<char>, f: i64)
    requires
        now < u64::MAX,
        command_writes(db, now, op) is Ok,
        fence_of(db, effect_time(now, op), p) == Ok::<Option<i64>, ErrorView>(Some(f)),
    ensures
        fenced_at_least(
            applied(db, command_writes(db, now, op)->Ok_0.1),
            effect_time(now, op),
            p,
            f,
        ),
{
    match op {
        OpKind::Acquire(args) => {
            lemma_acquire_keeps_fence(db, now, args, p, f);
        },
        OpKind::Release { owner, reqs, del_wait } => {
            let steps = release_plan(db, now, owner, reqs, del_wait)->Ok_0;
            let released = release_steps(db, now, owner, reqs)->Ok_0;
            lemma_release_sets_no_fence(db, now, owner, reqs);
            assert forall|i: int| 0 <= i < steps.len() implies !((#[trigger] steps[i]) is Fence) by {
                if i < released.len() {
                    assert(steps[i] == released[i]);
                }
            }
            lemma_others_keep_fence(db, now, steps, p, f);
        },
        OpKind::ReleaseAll { owner, del_wait } => {
            lemma_release_all_keeps_fence(db, now, owner, del_wait, p, f);
        },
        OpKind::ForceRelease { victim } => {
            lemma_release_all_keeps_fence(db, now, victim, true, p, f);
        },
        OpKind::Renew { owner, ttl_ms } => {
            let (outcome, steps) = renew_plan(db, now, owner, ttl_ms)->Ok_0;
            if outcome == RenewView::Renewed && steps.len() > 0 {
                let locks = holdings(db, now, owner)->Ok_0;
                if let Ok(Ok(renewed)) = renew_steps(db, now, owner, ttl_ms, locks) {
                    lemma_renew_keeps_fence(db, now, owner, ttl_ms, locks, p, f);
                    assert forall|i: int| 0 <= i < steps.len() implies keeps_fence(
                        #[trigger] steps[i],
                        p,
                        f,
                    ) by {
                        if i < renewed.len() {
                            assert(steps[i] == renewed[i]);
                        }
                    }
                }
                lemma_steps_keep_fence(db, now, steps, p, f);
            } else {
                assert(steps.len() == 0);
                assert(steps_ops(now, steps) =~= Seq::<OpView>::empty());
            }
        },
        OpKind::SetClaim { path, claimant, ttl_ms } => {
            lemma_others_keep_fence(
                db,
                now,
                seq![StepView::Claim { path, claimant, ttl: claim_ttl(ttl_ms) }],
                p,
                f,
            );
        },
        OpKind::SetWaitEdge { owner, conflict_owner, metadata, ttl_ms } => {
            lemma_others_keep_fence(
                db,
                now,
                seq![
                    StepView::Wait { owner, edge: edge_text(conflict_owner, metadata), ttl: ttl_ms },
                ],
                p,
                f,
            );
        },
        OpKind::ClearWaitEdge { owner } => {
            lemma_others_keep_fence(db, now, seq![StepView::NoWait { owner }], p, f);
        },
        OpKind::GcSweep { now_ms, batch } => {
            law_sweep_is_invisible(db, now_ms, batch as nat, effect_time(now, op), Cf::Fences);
        },
        OpKind::IncrFence => {
            let ops = seq![put_counter(next_token(fence_counter(db)->Ok_0))];
            lemma_avoids_same(db, ops, (Cf::Fences, utf8(p)));
        },
    }
}

// ---------------------------------------------------------------------------
// Release
// ---------------------------------------------------------------------------

pub proof fn lemma_release_drops(
    db: DbView,
    now: u64,
    o: Seq<char>,
    rels: Seq<RelView>,
    i: int,
)
    requires
        release_steps(db, now, o, rels) is Ok,
        0 <= i < rels.len(),
    ensures
        release_steps(db, now, o, rels)->Ok_0.contains(
            StepView::Drop { owner: o, mode: rels[i].mode, path: rels[i].path },
        ) || !holding(db, now, rels[i].mode, rels[i].path, o),
    decreases rels.len(),
{
    let front = rels.drop_last();
    let all = release_steps(db, now, o, rels)->Ok_0;
    let rest = release_steps(db, now, o, front)->Ok_0;
    let d = StepView::Drop { owner: o, mode: rels[i].mode, path: rels[i].path };
    if i < front.len() {
        lemma_release_drops(db, now, o, front, i);
        assert(front[i] == rels[i]);
        if rest.contains(d) {
            let j = rest.index_of(d);
            assert(all[j] == d);
        }
    } else {
        assert(rels.last() == rels[i]);
        if all.last() == d {
            assert(all[all.len() - 1] == d);
        }
    }
}

/// A released lock is no longer held: after a release, the owner holds none of the
/// locks that it named.
pub proof fn law_released_is_not_held(
    db: DbView,
    now: u64,
    owner: Seq<char>,
    rels: Seq<RelView>,
    del_wait: bool,
    i: int,
)
    requires
        sound(db, now),
        release_plan(db, now, owner, rels, del_wait) is Ok,
        0 <= i < rels.len(),
        nul_free(owner),
        nul_free(rels[i].path),
    ensures
        !holding(
            applied(db, steps_ops(now, release_plan(db, now, owner, rels, del_wait)->Ok_0)),
            now,
            rels[i].mode,
            rels[i].path,
            owner,
        ),
{
    let steps = release_plan(db, now, owner, rels, del_wait)->Ok_0;
    let released = release_steps(db, now, owner, rels)->Ok_0;
    let d = StepView::Drop { owner, mode: rels[i].mode, path: rels[i].path };
    lemma_release_drops(db, now, owner, rels, i);
    lemma_release_plan(db, now, owner, rels, del_wait);
    if released.contains(d) {
        let k = released.index_of(d);
        assert(steps[k] == d);
        assert(steps.contains(d));
    }
    lemma_drops_keep_out(db, now, steps, rels[i].mode, rels[i].path, owner);
}

proof fn lemma_listed_lock(entries: Seq<Seq<char>>, m: Mode, p: Seq<char>)
    requires
        entries.contains(hold_text(m, p)),
    ensures
        held_locks(entries).contains(RelView { path: p, mode: m }),
    decreases entries.len(),
{
    let e = hold_text(m, p);
    let lock = RelView { path: p, mode: m };
    let front = entries.drop_last();
    let all = held_locks(entries);
    let rest = held_locks(front);
    let i = entries.index_of(e);
    if i == entries.len() - 1 {
        law_hold_reads_back(m, p);
        assert(all[all.len() - 1] == lock);
    } else {
        assert(front[i] == e);
        lemma_listed_lock(front, m, p);
        let j = rest.index_of(lock);
        assert(all[j] == lock);
    }
}

/// An owner's list of holdings is complete: every lock that the owner holds is in
/// it.
pub proof fn law_holdings_are_complete(
    db: DbView,
    now: u64,
    owner: Seq<char>,
    m: Mode,
    p: Seq<char>,
)
    requires
        sound(db, now),
        nul_free(owner),
        nul_free(p),
        holding(db, now, m, p, owner),
    ensures
        all_holdings(db, now, owner).contains(RelView { path: p, mode: m }),
        holdings(db, now, owner) matches Ok(locks) ==> locks.contains(
            RelView { path: p, mode: m },
        ),
{
    let exp = exp_at(db, lock_place(m, p, owner));
    assert(recorded(db, m, p, owner));
    lemma_live_member(db, now, Cf::OwnerHolds, utf8(owner), hold_text(m, p), exp);
    lemma_listed_lock(
        live_texts(db, now, Cf::OwnerHolds, member_rows(db, Cf::OwnerHolds, utf8(owner))),
        m,
        p,
    );
}

/// After everything of an owner was released, or taken from it by force, its lease
/// is over and it holds no lock at all.
pub proof fn law_released_all(
    db: DbView,
    now: u64,
    owner: Seq<char>,
    del_wait: bool,
    m: Mode,
    p: Seq<char>,
)
    requires
        sound(db, now),
        release_all_plan(db, now, owner, del_wait) is Ok,
        nul_free(owner),
        nul_free(p),
    ensures
        ({
            let after = applied(
                db,
                steps_ops(now, release_all_plan(db, now, owner, del_wait)->Ok_0),
            );
            &&& is_alive(after, now, owner) == Ok::<bool, ErrorView>(false)
            &&& !holding(after, now, m, p, owner)
        }),
{
    let steps = release_all_plan(db, now, owner, del_wait)->Ok_0;
    let locks = all_holdings(db, now, owner);
    let released = release_steps(db, now, owner, locks)->Ok_0;
    let head = released.push(StepView::NotAlive { owner });
    let tail: Seq<StepView> = if del_wait {
        seq![StepView::NoWait { owner }]
    } else {
        Seq::empty()
    };
    assert(steps == head + tail);
    lemma_release_all_plan(db, now, owner, del_wait);
    if holding(db, now, m, p, owner) {
        law_holdings_are_complete(db, now, owner, m, p);
        let i = locks.index_of(RelView { path: p, mode: m });
        assert(locks[i] == (RelView { path: p, mode: m }));
        let d = StepView::Drop { owner, mode: m, path: p };
        lemma_release_drops(db, now, owner, locks, i);
        let k = released.index_of(d);
        assert(steps[k] == d);
        assert(steps.contains(d));
    }
    lemma_drops_keep_out(db, now, steps, m, p, owner);
    // The liveness marker is removed, and the rest does not touch it.
    let place = (Cf::OwnerAlive, utf8(owner));
    let mid = applied(db, steps_ops(now, head));
    lemma_steps_concat(now, head, tail);
    lemma_applied_concat(db, steps_ops(now, head), steps_ops(now, tail));
    assert(head.drop_last() =~= released);
    assert(head.last() == (StepView::NotAlive { owner }));
    lemma_applied_concat(db, steps_ops(now, released), step_ops(now, head.last()));
    lemma_single(
        applied(db, steps_ops(now, released)),
        OpView::Delete { cf: Cf::OwnerAlive, key: utf8(owner) },
    );
    assert(!mid.dom().contains(place));
    if del_wait {
        lemma_one_step(now, tail[0]);
        lemma_step_avoids(now, tail[0], Cf::OwnerAlive);
        lemma_avoids_same(mid, step_ops(now, tail[0]), place);
    }
}

} // verus!
