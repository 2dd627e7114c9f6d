//! Who is refused, and what a lease is worth.

use vstd::prelude::*;
use crate::db::{applied, lemma_applied_concat, same_at, DbView};
use crate::engine::conflict::{
    both, claims_on, first_live, inside, is_alive, lock_of, on_indexed, on_paths, overlapping,
    BlockerView, Found,
};
use crate::engine::laws::{holding, lemma_check_parts, lemma_members_has, lemma_search_finds, sound};
use crate::engine::ops::{acquire_plan, fence_of, holdings, keep_fence, renew_plan, renew_steps};
use crate::engine::outcome_laws::{
    held_until, law_holdings_are_complete, lemma_check_never_grants, lemma_grant_keeps,
    lemma_one_step, lemma_two_steps,
};
use crate::engine::path::{ancestors, conflicting, covers};
use crate::engine::places::{in_index, lemma_hold, lemma_other_step, lemma_put_index, text_at};
use crate::engine::query::fencing_check;
use crate::engine::steps::{
    lemma_steps_concat, lock_place, put_index, step_ops, steps_ops, StepView,
};
use crate::engine::types::{
    AcquireView, ArgsView, AssertView, Mode, Reason, RelView, RenewView, State,
};
use crate::store_keys::{
    expiry_time, is_expired, member_key_spec, nul_free, Cf, MAX_SET_ENUM_MEMBERS,
};
use crate::store_laws::lemma_put_text_places;
use crate::store_rocksdb::{put_text, read_members, read_text, ErrorView};
use crate::text::utf8;

verus! {

pub proof fn lemma_nobody_live(
    db: DbView,
    now: u64,
    o: Seq<char>,
    found: Seq<BlockerView>,
    i: int,
)
    requires
        first_live(db, now, o, found) == Ok::<Option<BlockerView>, ErrorView>(None),
        0 <= i < found.len(),
        found[i].owner != o,
    ensures
        is_alive(db, now, found[i].owner) == Ok::<bool, ErrorView>(false),
    decreases found.len(),
{
    if i > 0 {
        assert(found.drop_first()[i - 1] == found[i]);
        lemma_nobody_live(db, now, o, found.drop_first(), i - 1);
    }
}

/// A live lock is respected: while an owner with a live lease holds a lock, no other
/// owner is granted one that excludes it.
pub proof fn law_live_lock_is_respected(
    db: DbView,
    now: u64,
    args: ArgsView,
    i: int,
    n: Mode,
    q: Seq<char>,
    y: Seq<char>,
)
    requires
        sound(db, now),
        nul_free(args.owner),
        0 <= i < args.requests.len(),
        nul_free(args.requests[i].path),
        nul_free(q),
        nul_free(y),
        y != args.owner,
        holding(db, now, n, q, y),
        is_alive(db, now, y) == Ok::<bool, ErrorView>(true),
        conflicting(args.requests[i].path, args.requests[i].mode, q, n),
    ensures
        !(acquire_plan(db, now, args) matches Ok((AcquireView::Granted, _))),
{
    if acquire_plan(db, now, args) matches Ok((AcquireView::Granted, _)) {
        lemma_check_never_grants(db, now, args.owner, args.token, args.requests);
        lemma_check_parts(db, now, args.owner, args.token, args.requests, i);
        let req = args.requests[i];
        match req.state {
            State::Held => {
                assert(holding(db, now, req.mode, req.path, args.owner));
            },
            State::New => {
                let found = overlapping(db, now, req.path, req.mode)->Ok_0;
                lemma_search_finds(db, now, req.path, req.mode, n, q, y);
                let k = choose|k: int|
                    0 <= k < found.len() && (#[trigger] found[k]).path == q && found[k].owner == y
                        && lock_of(found[k].reason) == Some(n);
                lemma_nobody_live(db, now, args.owner, found, k);
            },
        }
    }
}

// ---------------------------------------------------------------------------
// Claims
// ---------------------------------------------------------------------------

/// Whether somebody of the given name is among the blockers.
spec fn named(found: Seq<BlockerView>, c: Seq<char>) -> bool {
    exists|i: int| 0 <= i < found.len() && (#[trigger] found[i]).owner == c
}

proof fn lemma_named_in_both(a: Found, b: Found, c: Seq<char>)
    requires
        both(a, b) is Ok,
        (a matches Ok(f) && named(f, c)) || (b matches Ok(f) && named(f, c)),
    ensures
        named(both(a, b)->Ok_0, c),
{
    let (x, z) = (a->Ok_0, b->Ok_0);
    let all = x + z;
    if named(x, c) {
        let i = choose|i: int| 0 <= i < x.len() && (#[trigger] x[i]).owner == c;
        assert(all[i] == x[i]);
    } else {
        let i = choose|i: int| 0 <= i < z.len() && (#[trigger] z[i]).owner == c;
        assert(all[x.len() + i] == z[i]);
    }
}

proof fn lemma_on_paths_names(
    db: DbView,
    now: u64,
    cf: Cf,
    paths: Seq<Seq<char>>,
    reason: Reason,
    a: Seq<char>,
    c: Seq<char>,
)
    requires
        on_paths(db, now, cf, paths, reason) is Ok,
        paths.contains(a),
        read_text(db, now, cf, utf8(a)) == Ok::<Option<Seq<char>>, ErrorView>(Some(c)),
    ensures
        named(on_paths(db, now, cf, paths, reason)->Ok_0, c),
    decreases paths.len(),
{
    let front = paths.drop_last();
    let found = on_paths(db, now, cf, paths, reason)->Ok_0;
    let i = paths.index_of(a);
    if i == paths.len() - 1 {
        assert(paths.last() == a);
        assert(found[found.len() - 1].owner == c);
    } else {
        assert(front[i] == a);
        assert(front.contains(a));
        lemma_on_paths_names(db, now, cf, front, reason, a, c);
        let rest = on_paths(db, now, cf, front, reason)->Ok_0;
        let j = choose|j: int| 0 <= j < rest.len() && (#[trigger] rest[j]).owner == c;
        assert(found[j] == rest[j]);
    }
}

/// Whether a claim is recorded and listed under every ancestor of its path, until
/// `exp`.
pub open spec fn claimed(db: DbView, a: Seq<char>, c: Seq<char>, exp: u64) -> bool {
    &&& text_at(db, (Cf::Claims, utf8(a)), c, exp)
    &&& forall|i: int|
        0 <= i < ancestors(a).len() ==> text_at(
            db,
            (Cf::DescClaim, member_key_spec(utf8(#[trigger] ancestors(a)[i]), a)),
            a,
            exp,
        )
}

/// A claim that is set is recorded and listed.
pub proof fn law_claim_is_recorded(db: DbView, now: u64, a: Seq<char>, c: Seq<char>, ttl: u64)
    ensures
        claimed(
            applied(
                db,
                steps_ops(now, seq![StepView::Claim { path: a, claimant: c, ttl }]),
            ),
            a,
            c,
            expiry_time(now, ttl),
        ),
{
    let step = StepView::Claim { path: a, claimant: c, ttl };
    lemma_one_step(now, step);
    let first = put_text(now, Cf::Claims, utf8(a), c, ttl);
    let second = put_index(now, Cf::DescClaim, ancestors(a), a, ttl);
    let mid = applied(db, first);
    lemma_applied_concat(db, first, second);
    lemma_put_text_places(db, now, Cf::Claims, utf8(a), c, ttl);
    let here = (Cf::Claims, utf8(a));
    lemma_put_index(mid, now, Cf::DescClaim, ancestors(a), a, ttl, here);
    assert(!in_index(Cf::DescClaim, ancestors(a), a, here));
    let after = applied(mid, second);
    assert forall|i: int| 0 <= i < ancestors(a).len() implies text_at(
        after,
        (Cf::DescClaim, member_key_spec(utf8(#[trigger] ancestors(a)[i]), a)),
        a,
        expiry_time(now, ttl),
    ) by {
        let p = (Cf::DescClaim, member_key_spec(utf8(ancestors(a)[i]), a));
        lemma_put_index(mid, now, Cf::DescClaim, ancestors(a), a, ttl, p);
        assert(in_index(Cf::DescClaim, ancestors(a), a, p));
    }
}

/// Whether a claim on `a` reserves what a lock on `p` would take: a claim on the
/// path or above it, and for a write lock also one below it.
pub open spec fn reserves(a: Seq<char>, p: Seq<char>, mode: Mode) -> bool {
    covers(a, p) || (mode == Mode::Write && covers(p, a))
}

/// A live claim is respected: while it lives and its claimant's lease does, no other
/// owner is granted a new lock on what it reserves.
pub proof fn law_live_claim_is_respected(
    db: DbView,
    now: u64,
    args: ArgsView,
    i: int,
    a: Seq<char>,
    c: Seq<char>,
    exp: u64,
)
    requires
        db.dom().finite(),
        claimed(db, a, c, exp),
        !is_expired(exp, now),
        is_alive(db, now, c) == Ok::<bool, ErrorView>(true),
        c != args.owner,
        0 <= i < args.requests.len(),
        args.requests[i].state == State::New,
        reserves(a, args.requests[i].path, args.requests[i].mode),
    ensures
        !(acquire_plan(db, now, args) matches Ok((AcquireView::Granted, _))),
{
    if acquire_plan(db, now, args) matches Ok((AcquireView::Granted, _)) {
        lemma_check_never_grants(db, now, args.owner, args.token, args.requests);
        lemma_check_parts(db, now, args.owner, args.token, args.requests, i);
        let req = args.requests[i];
        let (p, m) = (req.path, req.mode);
        let found = overlapping(db, now, p, m)->Ok_0;
        let above = on_paths(db, now, Cf::WriteLocks, ancestors(p), Reason::AncestorLocked);
        let here = on_paths(db, now, Cf::WriteLocks, seq![p], Reason::WriteLocked);
        let within: Found = match m {
            Mode::Read => Ok(Seq::empty()),
            Mode::Write => inside(db, now, p),
        };
        let claims = claims_on(db, now, p, m);
        lemma_claims_found(db, now, p, m, a, c, exp);
        lemma_named_in_both(within, claims, c);
        lemma_named_in_both(here, both(within, claims), c);
        lemma_named_in_both(above, both(here, both(within, claims)), c);
        let k = choose|k: int| 0 <= k < found.len() && (#[trigger] found[k]).owner == c;
        lemma_nobody_live(db, now, args.owner, found, k);
    }
}

proof fn lemma_claims_found(
    db: DbView,
    now: u64,
    p: Seq<char>,
    m: Mode,
    a: Seq<char>,
    c: Seq<char>,
    exp: u64,
)
    requires
        db.dom().finite(),
        claimed(db, a, c, exp),
        !is_expired(exp, now),
        reserves(a, p, m),
        claims_on(db, now, p, m) is Ok,
    ensures
        named(claims_on(db, now, p, m)->Ok_0, c),
{
    let on = on_paths(db, now, Cf::Claims, seq![p], Reason::PreemptClaimed);
    let up = on_paths(db, now, Cf::Claims, ancestors(p), Reason::PreemptClaimedAbove);
    let down: Found = match m {
        Mode::Read => Ok(Seq::empty()),
        Mode::Write => on_indexed(db, now, Cf::DescClaim, p, Cf::Claims, Reason::PreemptClaimed),
    };
    assert(read_text(db, now, Cf::Claims, utf8(a)) == Ok::<Option<Seq<char>>, ErrorView>(Some(c)));
    if a == p {
        assert(seq![p][0] == a);
        assert(seq![p].contains(a));
        lemma_on_paths_names(db, now, Cf::Claims, seq![p], Reason::PreemptClaimed, a, c);
    } else {
        if ancestors(p).contains(a) {
            lemma_on_paths_names(
                db,
                now,
                Cf::Claims,
                ancestors(p),
                Reason::PreemptClaimedAbove,
                a,
                c,
            );
        } else {
            let k = ancestors(a).index_of(p);
            assert(ancestors(a)[k] == p);
            lemma_members_has(db, now, Cf::DescClaim, utf8(p), a, exp);
            let paths = read_members(
                db,
                now,
                Cf::DescClaim,
                utf8(p),
                MAX_SET_ENUM_MEMBERS,
            )->Ok_0;
            lemma_on_paths_names(db, now, Cf::Claims, paths, Reason::PreemptClaimed, a, c);
        }
        lemma_named_in_both(up, down, c);
    }
    lemma_named_in_both(on, both(up, down), c);
}

// ---------------------------------------------------------------------------
// Renewal
// ---------------------------------------------------------------------------

proof fn lemma_renewed_holds(
    db: DbView,
    at: DbView,
    now: u64,
    o: Seq<char>,
    ttl: u64,
    locks: Seq<RelView>,
    i: int,
)
    requires
        renew_steps(db, now, o, ttl, locks) matches Ok(Ok(_)),
        0 <= i < locks.len(),
    ensures
        held_until(
            applied(at, steps_ops(now, renew_steps(db, now, o, ttl, locks)->Ok_0->Ok_0)),
            locks[i].mode,
            locks[i].path,
            o,
            expiry_time(now, ttl),
        ),
    decreases locks.len(),
{
    let front = locks.drop_last();
    let lock = locks.last();
    let all = renew_steps(db, now, o, ttl, locks)->Ok_0->Ok_0;
    let rest = renew_steps(db, now, o, ttl, front)->Ok_0->Ok_0;
    let fence = keep_fence(db, now, ttl, lock)->Ok_0;
    let hold = StepView::Hold { owner: o, mode: lock.mode, path: lock.path, ttl };
    let more = seq![hold] + fence;
    assert(all =~= rest + more);
    lemma_steps_concat(now, rest, more);
    lemma_applied_concat(at, steps_ops(now, rest), steps_ops(now, more));
    let mid = applied(at, steps_ops(now, rest));
    let one = applied(mid, step_ops(now, hold));
    let (m, p) = (locks[i].mode, locks[i].path);
    if i < front.len() {
        lemma_renewed_holds(db, at, now, o, ttl, front, i);
        assert(front[i] == locks[i]);
        lemma_grant_keeps(mid, now, o, ttl, hold, m, p);
    } else {
        lemma_hold(mid, now, o, lock.mode, lock.path, ttl);
    }
    if fence.len() == 1 {
        assert(more =~= seq![hold, fence[0]]);
        lemma_two_steps(mid, now, hold, fence[0]);
        lemma_grant_keeps(one, now, o, ttl, fence[0], m, p);
    } else {
        assert(more =~= seq![hold]);
        lemma_one_step(now, hold);
    }
}

/// A renewal renews everything: after it, the owner's lease and every lock that it
/// holds last for the new lifetime.
pub proof fn law_renewed_is_held(
    db: DbView,
    now: u64,
    o: Seq<char>,
    ttl: u64,
    m: Mode,
    p: Seq<char>,
    later: u64,
)
    requires
        sound(db, now),
        nul_free(o),
        nul_free(p),
        renew_plan(db, now, o, ttl) matches Ok((RenewView::Renewed, _)),
        !is_expired(expiry_time(now, ttl), later),
    ensures
        ({
            let after = applied(db, steps_ops(now, renew_plan(db, now, o, ttl)->Ok_0.1));
            &&& is_alive(after, later, o) == Ok::<bool, ErrorView>(true)
            &&& holding(db, now, m, p, o) ==> holding(after, later, m, p, o)
        }),
{
    let locks = holdings(db, now, o)->Ok_0;
    let lock = RelView { path: p, mode: m };
    let i = locks.index_of(lock);
    if holding(db, now, m, p, o) {
        law_holdings_are_complete(db, now, o, m, p);
        assert(locks[i] == lock);
    }
    lemma_list_is_renewed(db, now, o, ttl, i, later);
}

/// A renewal renews every lock in the owner's list of holdings.
proof fn lemma_list_is_renewed(db: DbView, now: u64, o: Seq<char>, ttl: u64, i: int, later: u64)
    requires
        renew_plan(db, now, o, ttl) matches Ok((RenewView::Renewed, _)),
        !is_expired(expiry_time(now, ttl), later),
    ensures
        ({
            let after = applied(db, steps_ops(now, renew_plan(db, now, o, ttl)->Ok_0.1));
            let locks = holdings(db, now, o)->Ok_0;
            &&& is_alive(after, later, o) == Ok::<bool, ErrorView>(true)
            &&& 0 <= i < locks.len() ==> holding(after, later, locks[i].mode, locks[i].path, o)
        }),
{
    let steps = renew_plan(db, now, o, ttl)->Ok_0.1;
    let locks = holdings(db, now, o)->Ok_0;
    lemma_renew_never_renews(db, now, o, ttl, locks);
    let renewed = renew_steps(db, now, o, ttl, locks)->Ok_0->Ok_0;
    let alive = StepView::Alive { owner: o, ttl };
    assert(steps.drop_last() =~= renewed);
    let mid = applied(db, steps_ops(now, renewed));
    lemma_applied_concat(db, steps_ops(now, renewed), step_ops(now, alive));
    lemma_put_text_places(mid, now, Cf::OwnerAlive, utf8(o), "1"@, ttl);
    lemma_other_step(mid, now, alive);
    if 0 <= i < locks.len() {
        lemma_renewed_holds(db, db, now, o, ttl, locks, i);
        let after = applied(db, steps_ops(now, steps));
        assert(same_at(after, mid, lock_place(locks[i].mode, locks[i].path, o)));
    }
}

/// The renewal of locks ends in their steps or in a loss, never in a success of its
/// own.
pub proof fn lemma_renew_never_renews(
    db: DbView,
    now: u64,
    o: Seq<char>,
    ttl: u64,
    locks: Seq<RelView>,
)
    ensures
        !(renew_steps(db, now, o, ttl, locks) matches Ok(Err(RenewView::Renewed))),
    decreases locks.len(),
{
    if locks.len() > 0 {
        lemma_renew_never_renews(db, now, o, ttl, locks.drop_last());
    }
}

// ---------------------------------------------------------------------------
// Fencing
// ---------------------------------------------------------------------------

/// Fenced ownership that is confirmed is real: the owner's lease is live, it holds
/// the write lock on every path, and no path has a newer token.
pub proof fn law_confirmed_fencing_is_real(
    db: DbView,
    now: u64,
    owner: Seq<char>,
    token: i64,
    paths: Seq<Seq<char>>,
    i: int,
)
    requires
        fencing_check(db, now, owner, token, paths) == Ok::<AssertView, ErrorView>(
            AssertView::Held,
        ),
        0 <= i < paths.len(),
    ensures
        is_alive(db, now, owner) == Ok::<bool, ErrorView>(true),
        holding(db, now, Mode::Write, paths[i], owner),
        fence_of(db, now, paths[i]) matches Ok(f) && (f matches Some(n) ==> token >= n),
    decreases paths.len(),
{
    if i > 0 {
        assert(paths.drop_first()[i - 1] == paths[i]);
        law_confirmed_fencing_is_real(db, now, owner, token, paths.drop_first(), i - 1);
    }
}

} // verus!
