//! Mutual exclusion: as long as commands run one after the other with a clock
//! that does not go back, no two owners hold locks that exclude each other.

use vstd::prelude::*;
use crate::db::{
    applied, lemma_applied_concat, lemma_applied_finite, lemma_scan_exists, same_at, DbView, OpView,
};
use crate::engine::conflict::{
    both, clearing, inside, lock_of, on_indexed, on_paths, overlapping, readers_below, readers_of,
    readers_on, readers_under, BlockerView, Found, claims_on,
};
use crate::engine::ops::{
    acquire_plan, alive_steps, all_holdings, check_request, check_requests, grant, grants, holdings,
    holds, release_all_plan, release_plan, release_steps, renew_plan, renew_steps,
};
use crate::engine::path::{ancestors, conflicting};
use crate::engine::places::{
    hold_at, in_index, index_place, is_lock_cf, lemma_ancestors_nul_free, lemma_drop, lemma_forget,
    lemma_hold, lemma_hold_at_unique, lemma_index_place_unique, lemma_lock_place_unique,
    lemma_other_step, of_lock, text_at,
};
use crate::engine::steps::{
    hold_text, lemma_steps_concat, lock_index, lock_place, reader_text, step_ops, steps_ops,
    StepView,
};
use crate::engine::types::{ArgsView, Mode, Reason, RelView, ReqView, State};
use crate::raft::command::OpKind;
use crate::raft::state_machine::{
    command_effect, command_writes, fence_counter, lemma_effect, next_token, put_counter,
    sweep_writes, swept_rows,
};
use crate::store_keys::{
    is_expired, member_key_spec, member_prefix_spec, nul_free, Cf, MAX_SET_ENUM_MEMBERS,
};
use crate::store_laws::law_sweep_is_invisible;
use crate::store_rocksdb::{live_text, live_texts, member_rows, read_members, ErrorView, RecordView};
use crate::text::{lemma_split_joined, utf8};

verus! {

/// Whether an owner holds a lock at time `t`.
pub open spec fn holding(db: DbView, t: u64, m: Mode, p: Seq<char>, o: Seq<char>) -> bool {
    holds(db, t, o, m, p) == Ok::<bool, ErrorView>(true)
}

/// The expiry of the text at a place.
pub open spec fn exp_at(db: DbView, place: (Cf, Seq<u8>)) -> u64 {
    match db[place] {
        Some(RecordView::Str { exp, .. }) => exp,
        _ => 0,
    }
}

/// A lock is recorded as its owner's; it is in its owner's list of holdings, and
/// listed under every ancestor, for as long.
pub open spec fn recorded(db: DbView, m: Mode, p: Seq<char>, o: Seq<char>) -> bool {
    let exp = exp_at(db, lock_place(m, p, o));
    &&& text_at(db, lock_place(m, p, o), o, exp)
    &&& text_at(db, hold_at(m, p, o), hold_text(m, p), exp)
    &&& forall|i: int|
        0 <= i < ancestors(p).len() ==> text_at(
            db,
            #[trigger] index_place(m, p, o, ancestors(p)[i]),
            lock_index(m, p, o).1,
            exp,
        )
}

/// Every lock that is held is recorded and listed.
pub open spec fn indexed(db: DbView, t: u64) -> bool {
    forall|m: Mode, p: Seq<char>, o: Seq<char>|
        nul_free(p) && nul_free(o) && #[trigger] holding(db, t, m, p, o) ==> recorded(db, m, p, o)
}

/// No two owners hold locks that exclude each other.
pub open spec fn exclusive(db: DbView, t: u64) -> bool {
    forall|m: Mode, p: Seq<char>, x: Seq<char>, n: Mode, q: Seq<char>, y: Seq<char>|
        nul_free(p) && nul_free(x) && nul_free(q) && nul_free(y) && x != y && #[trigger] holding(
            db,
            t,
            m,
            p,
            x,
        ) && #[trigger] holding(db, t, n, q, y) ==> !conflicting(p, m, q, n)
}

/// The state of locks is in order at time `t`.
pub open spec fn sound(db: DbView, t: u64) -> bool {
    &&& db.dom().finite()
    &&& indexed(db, t)
    &&& exclusive(db, t)
}

/// No other owner holds a lock that excludes the given one.
pub open spec fn clear_for(db: DbView, t: u64, o: Seq<char>, m: Mode, p: Seq<char>) -> bool {
    forall|n: Mode, q: Seq<char>, y: Seq<char>|
        nul_free(q) && nul_free(y) && y != o && #[trigger] holding(db, t, n, q, y) ==> !conflicting(
            p,
            m,
            q,
            n,
        )
}

/// What other owners hold in `after`, they held in `before`.
pub open spec fn others_shrink(before: DbView, after: DbView, t: u64, o: Seq<char>) -> bool {
    forall|n: Mode, q: Seq<char>, y: Seq<char>|
        nul_free(q) && nul_free(y) && y != o && #[trigger] holding(after, t, n, q, y) ==> holding(
            before,
            t,
            n,
            q,
            y,
        )
}

proof fn lemma_untouched_lock(
    db: DbView,
    after: DbView,
    t: u64,
    m: Mode,
    p: Seq<char>,
    x: Seq<char>,
    n: Mode,
    q: Seq<char>,
    y: Seq<char>,
)
    requires
        nul_free(q),
        nul_free(y),
        lock_place(m, p, x) != lock_place(n, q, y),
        forall|place: (Cf, Seq<u8>)|
            is_lock_cf(place.0) && !of_lock(m, p, x, place) ==> #[trigger] same_at(after, db, place),
    ensures
        holding(after, t, n, q, y) == holding(db, t, n, q, y),
        recorded(db, n, q, y) ==> recorded(after, n, q, y),
{
    let place = lock_place(n, q, y);
    assert(same_at(after, db, place));
    if recorded(db, n, q, y) {
        if hold_at(m, p, x) == hold_at(n, q, y) {
            lemma_hold_at_unique(m, p, x, n, q, y);
        }
        assert(same_at(after, db, hold_at(n, q, y)));
        assert forall|i: int| 0 <= i < ancestors(q).len() implies text_at(
            after,
            #[trigger] index_place(n, q, y, ancestors(q)[i]),
            lock_index(n, q, y).1,
            exp_at(after, place),
        ) by {
            let b = ancestors(q)[i];
            let at = index_place(n, q, y, b);
            assert(ancestors(q).contains(b));
            lemma_ancestors_nul_free(q, b);
            if in_index(lock_index(m, p, x).0, ancestors(p), lock_index(m, p, x).1, at) {
                let j = choose|j: int|
                    0 <= j < ancestors(p).len() && at == (
                        lock_index(m, p, x).0,
                        member_key_spec(utf8(#[trigger] ancestors(p)[j]), lock_index(m, p, x).1),
                    );
                lemma_index_place_unique(m, p, x, ancestors(p)[j], n, q, y, b);
            }
            assert(at != lock_place(m, p, x));
            assert(same_at(after, db, at));
        }
    }
}

proof fn lemma_step_hold(
    db: DbView,
    now: u64,
    o: Seq<char>,
    m: Mode,
    p: Seq<char>,
    ttl: u64,
)
    requires
        sound(db, now),
        nul_free(o) && nul_free(p) ==> clear_for(db, now, o, m, p),
    ensures
        ({
            let after = applied(
                db,
                step_ops(now, StepView::Hold { owner: o, mode: m, path: p, ttl }),
            );
            sound(after, now) && others_shrink(db, after, now, o)
        }),
{
    let step = StepView::Hold { owner: o, mode: m, path: p, ttl };
    let after = applied(db, step_ops(now, step));
    lemma_hold(db, now, o, m, p, ttl);
    lemma_applied_finite(db, step_ops(now, step));
    assert forall|n: Mode, q: Seq<char>, y: Seq<char>|
        nul_free(q) && nul_free(y) && lock_place(m, p, o) != lock_place(n, q, y) implies (
    #[trigger] holding(after, now, n, q, y) == holding(db, now, n, q, y)) && (recorded(db, n, q, y)
        ==> recorded(after, n, q, y)) by {
        lemma_untouched_lock(db, after, now, m, p, o, n, q, y);
    }
    // A lock at the same place is the one that is now held, by its owner.
    assert forall|n: Mode, q: Seq<char>, y: Seq<char>|
        nul_free(q) && nul_free(y) && lock_place(m, p, o) == lock_place(n, q, y) && #[trigger] holding(
            after,
            now,
            n,
            q,
            y,
        ) implies n == m && q == p && y == o by {
        lemma_lock_place_unique(m, p, o, n, q, y);
    }
    assert(indexed(after, now)) by {
        assert forall|n: Mode, q: Seq<char>, y: Seq<char>|
            nul_free(q) && nul_free(y) && #[trigger] holding(after, now, n, q, y) implies recorded(
            after,
            n,
            q,
            y,
        ) by {
            if lock_place(m, p, o) == lock_place(n, q, y) {
                assert(n == m && q == p && y == o);
            } else {
                assert(holding(db, now, n, q, y));
            }
        }
    }
    assert(exclusive(after, now)) by {
        assert forall|
            n: Mode,
            q: Seq<char>,
            x: Seq<char>,
            l: Mode,
            r: Seq<char>,
            y: Seq<char>,
        |
            nul_free(q) && nul_free(x) && nul_free(r) && nul_free(y) && x != y && #[trigger] holding(
                after,
                now,
                n,
                q,
                x,
            ) && #[trigger] holding(after, now, l, r, y) implies !conflicting(q, n, r, l) by {
            if lock_place(m, p, o) == lock_place(n, q, x) {
                assert(n == m && q == p && x == o);
                assert(lock_place(m, p, o) != lock_place(l, r, y));
                assert(holding(db, now, l, r, y));
            } else if lock_place(m, p, o) == lock_place(l, r, y) {
                assert(l == m && r == p && y == o);
                assert(holding(db, now, n, q, x));
                assert(!conflicting(p, m, q, n));
            } else {
                assert(holding(db, now, n, q, x) && holding(db, now, l, r, y));
            }
        }
    }
    assert forall|n: Mode, q: Seq<char>, y: Seq<char>|
        nul_free(q) && nul_free(y) && y != o && #[trigger] holding(after, now, n, q, y) implies holding(
        db,
        now,
        n,
        q,
        y,
    ) by {
        if lock_place(m, p, o) == lock_place(n, q, y) {
            assert(y == o);
        }
    }
}

/// What is held in `after` was held in `before`, by whomever.
pub open spec fn all_shrink(before: DbView, after: DbView, t: u64) -> bool {
    forall|n: Mode, q: Seq<char>, y: Seq<char>|
        nul_free(q) && nul_free(y) && #[trigger] holding(after, t, n, q, y) ==> holding(
            before,
            t,
            n,
            q,
            y,
        )
}

proof fn lemma_step_drop(db: DbView, now: u64, o: Seq<char>, m: Mode, p: Seq<char>)
    requires
        sound(db, now),
    ensures
        ({
            let after = applied(db, step_ops(now, StepView::Drop { owner: o, mode: m, path: p }));
            &&& sound(after, now)
            &&& all_shrink(db, after, now)
            &&& !holding(after, now, m, p, o)
        }),
{
    let step = StepView::Drop { owner: o, mode: m, path: p };
    let after = applied(db, step_ops(now, step));
    lemma_drop(db, now, o, m, p);
    lemma_applied_finite(db, step_ops(now, step));
    assert forall|n: Mode, q: Seq<char>, y: Seq<char>|
        nul_free(q) && nul_free(y) && #[trigger] holding(after, now, n, q, y) implies holding(
        db,
        now,
        n,
        q,
        y,
    ) && (recorded(db, n, q, y) ==> recorded(after, n, q, y)) by {
        if lock_place(m, p, o) != lock_place(n, q, y) {
            lemma_untouched_lock(db, after, now, m, p, o, n, q, y);
        }
    }
}

proof fn lemma_step_forget(db: DbView, now: u64, o: Seq<char>, m: Mode, p: Seq<char>)
    requires
        sound(db, now),
        nul_free(o) && nul_free(p) ==> !holding(db, now, m, p, o),
    ensures
        ({
            let after = applied(db, step_ops(now, StepView::Forget { owner: o, mode: m, path: p }));
            sound(after, now) && all_shrink(db, after, now)
        }),
{
    let step = StepView::Forget { owner: o, mode: m, path: p };
    let after = applied(db, step_ops(now, step));
    lemma_forget(db, now, o, m, p);
    lemma_applied_finite(db, step_ops(now, step));
    assert forall|n: Mode, q: Seq<char>, y: Seq<char>|
        nul_free(q) && nul_free(y) && #[trigger] holding(after, now, n, q, y) implies holding(
        db,
        now,
        n,
        q,
        y,
    ) && recorded(after, n, q, y) by {
        assert(same_at(after, db, lock_place(n, q, y)));
        assert(holding(db, now, n, q, y));
        if hold_at(m, p, o) == hold_at(n, q, y) {
            lemma_hold_at_unique(m, p, o, n, q, y);
        }
        lemma_same_record(db, after, n, q, y);
    }
}

proof fn lemma_same_record(db: DbView, after: DbView, n: Mode, q: Seq<char>, y: Seq<char>)
    requires
        recorded(db, n, q, y),
        forall|place: (Cf, Seq<u8>)|
            of_lock(n, q, y, place) ==> #[trigger] same_at(after, db, place),
    ensures
        recorded(after, n, q, y),
{
    assert(same_at(after, db, lock_place(n, q, y)));
    assert(same_at(after, db, hold_at(n, q, y)));
    assert forall|i: int| 0 <= i < ancestors(q).len() implies text_at(
        after,
        #[trigger] index_place(n, q, y, ancestors(q)[i]),
        lock_index(n, q, y).1,
        exp_at(after, lock_place(n, q, y)),
    ) by {
        let at = index_place(n, q, y, ancestors(q)[i]);
        assert(in_index(lock_index(n, q, y).0, ancestors(q), lock_index(n, q, y).1, at));
        assert(of_lock(n, q, y, at));
        assert(same_at(after, db, at));
    }
}

proof fn lemma_step_other(db: DbView, now: u64, step: StepView)
    requires
        sound(db, now),
        !(step is Hold),
        !(step is Drop),
        !(step is Forget),
    ensures
        ({
            let after = applied(db, step_ops(now, step));
            sound(after, now) && all_shrink(db, after, now)
        }),
{
    let after = applied(db, step_ops(now, step));
    lemma_other_step(db, now, step);
    lemma_applied_finite(db, step_ops(now, step));
    lemma_same_locks(db, after, now);
}

proof fn lemma_same_locks(db: DbView, after: DbView, now: u64)
    requires
        sound(db, now),
        after.dom().finite(),
        forall|place: (Cf, Seq<u8>)| is_lock_cf(place.0) ==> #[trigger] same_at(after, db, place),
    ensures
        sound(after, now),
        all_shrink(db, after, now),
{
    assert forall|n: Mode, q: Seq<char>, y: Seq<char>|
        nul_free(q) && nul_free(y) && #[trigger] holding(after, now, n, q, y) implies holding(
        db,
        now,
        n,
        q,
        y,
    ) && recorded(after, n, q, y) by {
        assert(same_at(after, db, lock_place(n, q, y)));
        assert(holding(db, now, n, q, y));
        assert(recorded(db, n, q, y));
        lemma_same_record(db, after, n, q, y);
    }
}

/// Every lock that a sequence of steps takes is the owner's, and nobody else
/// holds one that excludes it.
pub open spec fn takes_clear(
    db: DbView,
    now: u64,
    o: Seq<char>,
    steps: Seq<StepView>,
) -> bool {
    forall|i: int|
        0 <= i < steps.len() ==> ((#[trigger] steps[i]) matches StepView::Hold {
            owner,
            mode,
            path,
            ..
        } ==> owner == o && (nul_free(o) && nul_free(path) ==> clear_for(db, now, o, mode, path)))
}

/// Whether no step takes a lock.
pub open spec fn takes_none(steps: Seq<StepView>) -> bool {
    forall|i: int| 0 <= i < steps.len() ==> !((#[trigger] steps[i]) is Hold)
}

/// Whether no step forgets a lock.
pub open spec fn forgets_none(steps: Seq<StepView>) -> bool {
    forall|i: int| 0 <= i < steps.len() ==> !((#[trigger] steps[i]) is Forget)
}

/// Every lock that a sequence of steps forgets is not its owner's, and nothing was
/// taken before.
pub open spec fn forgets_lost(db: DbView, now: u64, steps: Seq<StepView>) -> bool {
    forall|i: int|
        0 <= i < steps.len() ==> ((#[trigger] steps[i]) matches StepView::Forget {
            owner,
            mode,
            path,
        } ==> takes_none(steps.take(i)) && (nul_free(owner) && nul_free(path) ==> !holding(
            db,
            now,
            mode,
            path,
            owner,
        )))
}

proof fn lemma_forgets_lost_front(db: DbView, now: u64, steps: Seq<StepView>)
    requires
        steps.len() > 0,
        forgets_lost(db, now, steps),
    ensures
        forgets_lost(db, now, steps.drop_last()),
{
    let front = steps.drop_last();
    assert forall|i: int| 0 <= i < front.len() implies ((#[trigger] front[i]) matches StepView::Forget {
        owner,
        mode,
        path,
    } ==> takes_none(front.take(i)) && (nul_free(owner) && nul_free(path) ==> !holding(
        db,
        now,
        mode,
        path,
        owner,
    ))) by {
        assert(front[i] == steps[i]);
        assert(front.take(i) =~= steps.take(i));
    }
}

/// What was lost stays lost as long as nobody gains a lock.
proof fn lemma_forgets_lost_later(db: DbView, after: DbView, now: u64, steps: Seq<StepView>)
    requires
        forgets_lost(db, now, steps),
        all_shrink(db, after, now),
    ensures
        forgets_lost(after, now, steps),
{
    assert forall|i: int| 0 <= i < steps.len() implies ((#[trigger] steps[i]) matches StepView::Forget {
        owner,
        mode,
        path,
    } ==> takes_none(steps.take(i)) && (nul_free(owner) && nul_free(path) ==> !holding(
        after,
        now,
        mode,
        path,
        owner,
    ))) by {
        if let StepView::Forget { owner, mode, path } = steps[i] {
            if nul_free(owner) && nul_free(path) && holding(after, now, mode, path, owner) {
                assert(holding(db, now, mode, path, owner));
            }
        }
    }
}

/// Steps that take only locks that are clear, and forget only locks that are lost,
/// keep the state of locks in order.
proof fn lemma_steps_sound(db: DbView, now: u64, o: Seq<char>, steps: Seq<StepView>)
    requires
        sound(db, now),
        takes_clear(db, now, o, steps),
        forgets_lost(db, now, steps),
    ensures
        sound(applied(db, steps_ops(now, steps)), now),
        others_shrink(db, applied(db, steps_ops(now, steps)), now, o),
        takes_none(steps) ==> all_shrink(db, applied(db, steps_ops(now, steps)), now),
    decreases steps.len(),
{
    if steps.len() > 0 {
        let front = steps.drop_last();
        let step = steps.last();
        let mid = applied(db, steps_ops(now, front));
        assert(takes_clear(db, now, o, front)) by {
            assert forall|i: int| 0 <= i < front.len() implies ((#[trigger] front[i]) matches StepView::Hold {
                owner,
                mode,
                path,
                ..
            } ==> owner == o && (nul_free(o) && nul_free(path) ==> clear_for(
                db,
                now,
                o,
                mode,
                path,
            ))) by {
                assert(front[i] == steps[i]);
            }
        }
        lemma_forgets_lost_front(db, now, steps);
        lemma_steps_sound(db, now, o, front);
        if takes_none(steps) {
            assert forall|i: int| 0 <= i < front.len() implies !((#[trigger] front[i]) is Hold) by {
                assert(front[i] == steps[i]);
            }
        }
        lemma_applied_concat(db, steps_ops(now, front), step_ops(now, step));
        let after = applied(mid, step_ops(now, step));
        match step {
            StepView::Hold { owner, mode, path, ttl } => {
                assert(steps[steps.len() - 1] == step);
                if nul_free(o) && nul_free(path) {
                    assert(clear_for(mid, now, o, mode, path));
                }
                lemma_step_hold(mid, now, owner, mode, path, ttl);
            },
            StepView::Drop { owner, mode, path } => {
                lemma_step_drop(mid, now, owner, mode, path);
            },
            StepView::Forget { owner, mode, path } => {
                assert(steps[steps.len() - 1] == step);
                assert(steps.take(steps.len() - 1) =~= front);
                lemma_step_forget(mid, now, owner, mode, path);
            },
            _ => {
                lemma_step_other(mid, now, step);
            },
        }
        assert forall|n: Mode, q: Seq<char>, y: Seq<char>|
            nul_free(q) && nul_free(y) && y != o && #[trigger] holding(after, now, n, q, y) implies holding(
            db,
            now,
            n,
            q,
            y,
        ) by {
            assert(holding(mid, now, n, q, y));
        }
        if takes_none(steps) {
            assert(!(steps[steps.len() - 1] is Hold));
            assert forall|n: Mode, q: Seq<char>, y: Seq<char>|
                nul_free(q) && nul_free(y) && #[trigger] holding(after, now, n, q, y) implies holding(
                db,
                now,
                n,
                q,
                y,
            ) by {
                assert(holding(mid, now, n, q, y));
            }
        }
    }
}

/// Steps that only drop locks and claims.
pub open spec fn only_drops(steps: Seq<StepView>) -> bool {
    forall|i: int|
        0 <= i < steps.len() ==> (#[trigger] steps[i]) is Drop || steps[i] is DropClaim
}

/// Dropping locks: nobody gains one, and the dropped ones are not held.
proof fn lemma_drops(db: DbView, now: u64, steps: Seq<StepView>)
    requires
        sound(db, now),
        only_drops(steps),
    ensures
        sound(applied(db, steps_ops(now, steps)), now),
        all_shrink(db, applied(db, steps_ops(now, steps)), now),
        forall|m: Mode, p: Seq<char>, x: Seq<char>|
            nul_free(p) && nul_free(x) && #[trigger] steps.contains(
                StepView::Drop { owner: x, mode: m, path: p },
            ) ==> !holding(applied(db, steps_ops(now, steps)), now, m, p, x),
    decreases steps.len(),
{
    if steps.len() > 0 {
        let front = steps.drop_last();
        let step = steps.last();
        let mid = applied(db, steps_ops(now, front));
        assert(steps[steps.len() - 1] == step);
        assert forall|i: int| 0 <= i < front.len() implies (#[trigger] front[i]) is Drop || front[i] is DropClaim by {
            assert(front[i] == steps[i]);
        }
        lemma_drops(db, now, front);
        lemma_applied_concat(db, steps_ops(now, front), step_ops(now, step));
        let after = applied(mid, step_ops(now, step));
        match step {
            StepView::Drop { owner, mode, path } => {
                lemma_step_drop(mid, now, owner, mode, path);
            },
            _ => {
                lemma_step_other(mid, now, step);
            },
        }
        assert forall|n: Mode, q: Seq<char>, y: Seq<char>|
            nul_free(q) && nul_free(y) && #[trigger] holding(after, now, n, q, y) implies holding(
            db,
            now,
            n,
            q,
            y,
        ) by {
            assert(holding(mid, now, n, q, y));
        }
        assert forall|m: Mode, p: Seq<char>, x: Seq<char>|
            nul_free(p) && nul_free(x) && #[trigger] steps.contains(
                StepView::Drop { owner: x, mode: m, path: p },
            ) implies !holding(after, now, m, p, x) by {
            let d = StepView::Drop { owner: x, mode: m, path: p };
            let i = steps.index_of(d);
            if i < front.len() {
                assert(front[i] == d);
                assert(front.contains(d));
                if holding(after, now, m, p, x) {
                    assert(holding(mid, now, m, p, x));
                }
            }
        }
    }
}

/// Steps that take no lock give nobody one, and end those that they drop.
pub proof fn lemma_drops_keep_out(
    db: DbView,
    now: u64,
    steps: Seq<StepView>,
    m: Mode,
    p: Seq<char>,
    o: Seq<char>,
)
    requires
        sound(db, now),
        nul_free(p),
        nul_free(o),
        takes_none(steps),
        forgets_lost(db, now, steps),
        steps.contains(StepView::Drop { owner: o, mode: m, path: p }) || !holding(db, now, m, p, o),
    ensures
        !holding(applied(db, steps_ops(now, steps)), now, m, p, o),
        sound(applied(db, steps_ops(now, steps)), now),
    decreases steps.len(),
{
    if steps.len() > 0 {
        let front = steps.drop_last();
        let step = steps.last();
        let d = StepView::Drop { owner: o, mode: m, path: p };
        assert(steps[steps.len() - 1] == step);
        assert forall|i: int| 0 <= i < front.len() implies !((#[trigger] front[i]) is Hold) by {
            assert(front[i] == steps[i]);
        }
        lemma_forgets_lost_front(db, now, steps);
        lemma_steps_sound(db, now, o, front);
        lemma_applied_concat(db, steps_ops(now, front), step_ops(now, step));
        let mid = applied(db, steps_ops(now, front));
        if step == d {
            lemma_step_drop(mid, now, o, m, p);
        } else {
            if steps.contains(d) {
                let i = steps.index_of(d);
                assert(front[i] == d);
                assert(front.contains(d));
            }
            lemma_drops_keep_out(db, now, front, m, p, o);
            match step {
                StepView::Drop { owner, mode, path } => {
                    lemma_step_drop(mid, now, owner, mode, path);
                },
                StepView::Forget { owner, mode, path } => {
                    if nul_free(owner) && nul_free(path) {
                        assert(!holding(mid, now, mode, path, owner));
                    }
                    lemma_step_forget(mid, now, owner, mode, path);
                },
                _ => {
                    lemma_step_other(mid, now, step);
                },
            }
        }
    }
}

// ---------------------------------------------------------------------------
// A search finds every lock that is in the way
// ---------------------------------------------------------------------------

/// Whether a lock is among the blockers.
pub open spec fn found_lock(
    found: Seq<BlockerView>,
    n: Mode,
    q: Seq<char>,
    y: Seq<char>,
) -> bool {
    exists|i: int|
        0 <= i < found.len() && (#[trigger] found[i]).path == q && found[i].owner == y && lock_of(
            found[i].reason,
        ) == Some(n)
}

proof fn lemma_found_in_both(
    a: Found,
    b: Found,
    n: Mode,
    q: Seq<char>,
    y: Seq<char>,
)
    requires
        both(a, b) is Ok,
        (a matches Ok(f) && found_lock(f, n, q, y)) || (b matches Ok(f) && found_lock(f, n, q, y)),
    ensures
        found_lock(both(a, b)->Ok_0, n, q, y),
{
    let (x, z) = (a->Ok_0, b->Ok_0);
    let all = x + z;
    if found_lock(x, n, q, y) {
        let i = choose|i: int|
            0 <= i < x.len() && (#[trigger] x[i]).path == q && x[i].owner == y && lock_of(
                x[i].reason,
            ) == Some(n);
        assert(all[i] == x[i]);
    } else {
        let i = choose|i: int|
            0 <= i < z.len() && (#[trigger] z[i]).path == q && z[i].owner == y && lock_of(
                z[i].reason,
            ) == Some(n);
        assert(all[x.len() + i] == z[i]);
    }
}

proof fn lemma_on_paths_finds(
    db: DbView,
    now: u64,
    paths: Seq<Seq<char>>,
    reason: Reason,
    q: Seq<char>,
    y: Seq<char>,
)
    requires
        on_paths(db, now, Cf::WriteLocks, paths, reason) is Ok,
        paths.contains(q),
        holding(db, now, Mode::Write, q, y),
        lock_of(reason) == Some(Mode::Write),
    ensures
        found_lock(
            on_paths(db, now, Cf::WriteLocks, paths, reason)->Ok_0,
            Mode::Write,
            q,
            y,
        ),
    decreases paths.len(),
{
    let front = paths.drop_last();
    let found = on_paths(db, now, Cf::WriteLocks, paths, reason)->Ok_0;
    let i = paths.index_of(q);
    if i == paths.len() - 1 {
        assert(paths.last() == q);
        assert(found[found.len() - 1].path == q);
    } else {
        assert(front[i] == q);
        assert(front.contains(q));
        lemma_on_paths_finds(db, now, front, reason, q, y);
        let rest = on_paths(db, now, Cf::WriteLocks, front, reason)->Ok_0;
        let j = choose|j: int|
            0 <= j < rest.len() && (#[trigger] rest[j]).path == q && rest[j].owner == y && lock_of(
                rest[j].reason,
            ) == Some(Mode::Write);
        assert(found[j] == rest[j]);
    }
}

pub proof fn lemma_live_texts_has(
    db: DbView,
    now: u64,
    cf: Cf,
    ks: Seq<Seq<u8>>,
    k: Seq<u8>,
    v: Seq<char>,
)
    requires
        ks.contains(k),
        live_text(db[(cf, k)], now) == Some(v),
    ensures
        live_texts(db, now, cf, ks).contains(v),
    decreases ks.len(),
{
    let front = ks.drop_last();
    let all = live_texts(db, now, cf, ks);
    let rest = live_texts(db, now, cf, front);
    let i = ks.index_of(k);
    if i == ks.len() - 1 {
        assert(all[all.len() - 1] == v);
    } else {
        assert(front[i] == k);
        lemma_live_texts_has(db, now, cf, front, k, v);
        let j = rest.index_of(v);
        assert(all[j] == v);
    }
}

/// A live member is among the live texts of its set.
pub proof fn lemma_live_member(
    db: DbView,
    now: u64,
    cf: Cf,
    key: Seq<u8>,
    member: Seq<char>,
    exp: u64,
)
    requires
        db.dom().finite(),
        text_at(db, (cf, member_key_spec(key, member)), member, exp),
        !is_expired(exp, now),
    ensures
        live_texts(db, now, cf, member_rows(db, cf, key)).contains(member),
{
    let k = member_key_spec(key, member);
    let prefix = member_prefix_spec(key);
    lemma_scan_exists(db, cf, prefix);
    assert(k.take(prefix.len() as int) =~= prefix);
    assert(prefix.is_prefix_of(k));
    assert(member_rows(db, cf, key).contains(k));
    lemma_live_texts_has(db, now, cf, member_rows(db, cf, key), k, member);
}

/// A live member is among the members that are read.
pub proof fn lemma_members_has(
    db: DbView,
    now: u64,
    cf: Cf,
    key: Seq<u8>,
    member: Seq<char>,
    exp: u64,
)
    requires
        db.dom().finite(),
        read_members(db, now, cf, key, MAX_SET_ENUM_MEMBERS) is Ok,
        text_at(db, (cf, member_key_spec(key, member)), member, exp),
        !is_expired(exp, now),
    ensures
        read_members(db, now, cf, key, MAX_SET_ENUM_MEMBERS)->Ok_0.contains(member),
{
    lemma_live_member(db, now, cf, key, member, exp);
}

proof fn lemma_readers_below_finds(
    db: DbView,
    now: u64,
    entries: Seq<Seq<char>>,
    q: Seq<char>,
    y: Seq<char>,
)
    requires
        readers_below(db, now, entries) is Ok,
        nul_free(q),
        entries.contains(reader_text(q, y)),
        holding(db, now, Mode::Read, q, y),
    ensures
        found_lock(readers_below(db, now, entries)->Ok_0, Mode::Read, q, y),
    decreases entries.len(),
{
    let e = reader_text(q, y);
    let front = entries.drop_last();
    let found = readers_below(db, now, entries)->Ok_0;
    let i = entries.index_of(e);
    if i == entries.len() - 1 {
        assert(entries.last() == e);
        lemma_split_joined(q, y);
        assert(found[found.len() - 1].path == q);
    } else {
        assert(front[i] == e);
        assert(front.contains(e));
        lemma_readers_below_finds(db, now, front, q, y);
        let rest = readers_below(db, now, front)->Ok_0;
        let j = choose|j: int|
            0 <= j < rest.len() && (#[trigger] rest[j]).path == q && rest[j].owner == y && lock_of(
                rest[j].reason,
            ) == Some(Mode::Read);
        assert(found[j] == rest[j]);
    }
}

/// A lock listed under an ancestor is live there as long as it is held.
proof fn lemma_listed(
    db: DbView,
    now: u64,
    n: Mode,
    q: Seq<char>,
    y: Seq<char>,
    p: Seq<char>,
)
    requires
        recorded(db, n, q, y),
        holding(db, now, n, q, y),
        ancestors(q).contains(p),
    ensures
        ({
            let exp = exp_at(db, lock_place(n, q, y));
            &&& text_at(db, index_place(n, q, y, p), lock_index(n, q, y).1, exp)
            &&& !is_expired(exp, now)
        }),
{
    let i = ancestors(q).index_of(p);
    assert(ancestors(q)[i] == p);
    assert(text_at(
        db,
        index_place(n, q, y, ancestors(q)[i]),
        lock_index(n, q, y).1,
        exp_at(db, lock_place(n, q, y)),
    ));
}

/// The search for what overlaps a lock finds every lock that excludes it.
pub proof fn lemma_search_finds(
    db: DbView,
    now: u64,
    p: Seq<char>,
    m: Mode,
    n: Mode,
    q: Seq<char>,
    y: Seq<char>,
)
    requires
        sound(db, now),
        overlapping(db, now, p, m) is Ok,
        nul_free(q),
        nul_free(y),
        holding(db, now, n, q, y),
        conflicting(p, m, q, n),
    ensures
        found_lock(overlapping(db, now, p, m)->Ok_0, n, q, y),
{
    assert(recorded(db, n, q, y));
    let above = on_paths(db, now, Cf::WriteLocks, ancestors(p), Reason::AncestorLocked);
    let here = on_paths(db, now, Cf::WriteLocks, seq![p], Reason::WriteLocked);
    let within: Found = match m {
        Mode::Read => Ok(Seq::empty()),
        Mode::Write => inside(db, now, p),
    };
    let claims = claims_on(db, now, p, m);
    let tail = both(within, claims);
    let rest = both(here, tail);
    if n == Mode::Write && ancestors(p).contains(q) {
        lemma_on_paths_finds(db, now, ancestors(p), Reason::AncestorLocked, q, y);
    } else {
        if n == Mode::Write && q == p {
            assert(seq![p][0] == q);
            assert(seq![p].contains(q));
            lemma_on_paths_finds(db, now, seq![p], Reason::WriteLocked, q, y);
        } else {
            let readers = readers_on(db, now, p);
            let writes = on_indexed(
                db,
                now,
                Cf::DescWrite,
                p,
                Cf::WriteLocks,
                Reason::DescendantWriteLocked,
            );
            let below = readers_under(db, now, p);
            let exp = exp_at(db, lock_place(n, q, y));
            if n == Mode::Write {
                lemma_listed(db, now, n, q, y, p);
                lemma_members_has(db, now, Cf::DescWrite, utf8(p), q, exp);
                let paths = read_members(
                    db,
                    now,
                    Cf::DescWrite,
                    utf8(p),
                    MAX_SET_ENUM_MEMBERS,
                )->Ok_0;
                lemma_on_paths_finds(db, now, paths, Reason::DescendantWriteLocked, q, y);
                lemma_found_in_both(writes, below, n, q, y);
            } else if q == p {
                lemma_members_has(db, now, Cf::ReadLocks, utf8(p), y, exp);
                let owners = read_members(
                    db,
                    now,
                    Cf::ReadLocks,
                    utf8(p),
                    MAX_SET_ENUM_MEMBERS,
                )->Ok_0;
                let i = owners.index_of(y);
                let list = readers_of(p, owners);
                assert(list[i].owner == y);
                assert(found_lock(list, n, q, y));
            } else {
                lemma_listed(db, now, n, q, y, p);
                lemma_members_has(db, now, Cf::DescRead, utf8(p), reader_text(q, y), exp);
                let entries = read_members(
                    db,
                    now,
                    Cf::DescRead,
                    utf8(p),
                    MAX_SET_ENUM_MEMBERS,
                )->Ok_0;
                lemma_readers_below_finds(db, now, entries, q, y);
                lemma_found_in_both(writes, below, n, q, y);
            }
            lemma_found_in_both(readers, both(writes, below), n, q, y);
            lemma_found_in_both(within, claims, n, q, y);
        }
        lemma_found_in_both(here, tail, n, q, y);
    }
    lemma_found_in_both(above, rest, n, q, y);
}

proof fn lemma_clearing(o: Seq<char>, found: Seq<BlockerView>, n: Mode, q: Seq<char>, y: Seq<char>)
    requires
        y != o,
    ensures
        only_drops(clearing(o, found)),
        found_lock(found, n, q, y) ==> clearing(o, found).contains(
            StepView::Drop { owner: y, mode: n, path: q },
        ),
    decreases found.len(),
{
    if found.len() > 0 {
        let front = found.drop_last();
        let (rest, all) = (clearing(o, front), clearing(o, found));
        let d = StepView::Drop { owner: y, mode: n, path: q };
        lemma_clearing(o, front, n, q, y);
        assert forall|i: int| 0 <= i < all.len() implies (#[trigger] all[i]) is Drop || all[i] is DropClaim by {
            if i < rest.len() {
                assert(all[i] == rest[i]);
            }
        }
        if found_lock(found, n, q, y) {
            let i = choose|i: int|
                0 <= i < found.len() && (#[trigger] found[i]).path == q && found[i].owner == y
                    && lock_of(found[i].reason) == Some(n);
            if i == found.len() - 1 {
                assert(all[all.len() - 1] == d);
            } else {
                assert(front[i] == found[i]);
                assert(found_lock(front, n, q, y));
                let j = rest.index_of(d);
                assert(all[j] == d);
            }
        }
    }
}

/// When a request passes, dropping what it clears away leaves nobody in its way.
proof fn lemma_request_clear(
    db: DbView,
    now: u64,
    o: Seq<char>,
    token: i64,
    req: ReqView,
    drops: Seq<StepView>,
)
    requires
        sound(db, now),
        nul_free(o),
        nul_free(req.path),
        only_drops(drops),
        check_request(db, now, o, token, req) matches Ok(Ok(steps)) && (forall|i: int|
            0 <= i < steps.len() ==> drops.contains(#[trigger] steps[i])),
    ensures
        clear_for(applied(db, steps_ops(now, drops)), now, o, req.mode, req.path),
{
    let after = applied(db, steps_ops(now, drops));
    let steps = check_request(db, now, o, token, req)->Ok_0->Ok_0;
    lemma_drops(db, now, drops);
    assert forall|n: Mode, q: Seq<char>, y: Seq<char>|
        nul_free(q) && nul_free(y) && y != o && #[trigger] holding(after, now, n, q, y) implies !conflicting(
        req.path,
        req.mode,
        q,
        n,
    ) by {
        assert(holding(db, now, n, q, y));
        if conflicting(req.path, req.mode, q, n) {
            match req.state {
                State::Held => {
                    assert(holding(db, now, req.mode, req.path, o));
                },
                State::New => {
                    lemma_search_finds(db, now, req.path, req.mode, n, q, y);
                    let found = overlapping(db, now, req.path, req.mode)->Ok_0;
                    lemma_clearing(o, found, n, q, y);
                    let d = StepView::Drop { owner: y, mode: n, path: q };
                    let i = steps.index_of(d);
                    assert(steps[i] == d);
                    assert(drops.contains(d));
                },
            }
        }
    }
}

pub proof fn lemma_check_parts(
    db: DbView,
    now: u64,
    o: Seq<char>,
    token: i64,
    reqs: Seq<ReqView>,
    i: int,
)
    requires
        check_requests(db, now, o, token, reqs) matches Ok(Ok(_)),
        0 <= i < reqs.len(),
    ensures
        ({
            let all = check_requests(db, now, o, token, reqs)->Ok_0->Ok_0;
            check_request(db, now, o, token, reqs[i]) matches Ok(Ok(steps)) && (forall|j: int|
                0 <= j < steps.len() ==> all.contains(#[trigger] steps[j]))
        }),
    decreases reqs.len(),
{
    let front = reqs.drop_last();
    let all = check_requests(db, now, o, token, reqs)->Ok_0->Ok_0;
    let rest = check_requests(db, now, o, token, front)->Ok_0->Ok_0;
    let more = check_request(db, now, o, token, reqs.last())->Ok_0->Ok_0;
    assert(all == rest + more);
    if i == reqs.len() - 1 {
        assert forall|j: int| 0 <= j < more.len() implies all.contains(#[trigger] more[j]) by {
            assert(all[rest.len() + j] == more[j]);
        }
    } else {
        lemma_check_parts(db, now, o, token, front, i);
        assert(front[i] == reqs[i]);
        let steps = check_request(db, now, o, token, reqs[i])->Ok_0->Ok_0;
        assert forall|j: int| 0 <= j < steps.len() implies all.contains(#[trigger] steps[j]) by {
            assert(rest.contains(steps[j]));
            let k = rest.index_of(steps[j]);
            assert(all[k] == steps[j]);
        }
    }
}

pub proof fn lemma_check_only_drops(
    db: DbView,
    now: u64,
    o: Seq<char>,
    token: i64,
    reqs: Seq<ReqView>,
)
    requires
        check_requests(db, now, o, token, reqs) matches Ok(Ok(_)),
    ensures
        only_drops(check_requests(db, now, o, token, reqs)->Ok_0->Ok_0),
    decreases reqs.len(),
{
    if reqs.len() > 0 {
        let front = reqs.drop_last();
        lemma_check_only_drops(db, now, o, token, front);
        let all = check_requests(db, now, o, token, reqs)->Ok_0->Ok_0;
        let rest = check_requests(db, now, o, token, front)->Ok_0->Ok_0;
        let req = reqs.last();
        let more = check_request(db, now, o, token, req)->Ok_0->Ok_0;
        if req.state == State::New {
            let found = overlapping(db, now, req.path, req.mode)->Ok_0;
            let other = o.push('x');
            assert(other.len() != o.len());
            lemma_clearing(o, found, Mode::Read, Seq::empty(), other);
        }
        assert forall|i: int| 0 <= i < all.len() implies (#[trigger] all[i]) is Drop || all[i] is DropClaim by {
            if i < rest.len() {
                assert(all[i] == rest[i]);
            } else {
                assert(all[i] == more[i - rest.len()]);
            }
        }
    }
}

pub proof fn lemma_grants_take(o: Seq<char>, ttl: u64, token: i64, reqs: Seq<ReqView>, i: int)
    requires
        0 <= i < grants(o, ttl, token, reqs).len(),
    ensures
        grants(o, ttl, token, reqs)[i] matches StepView::Hold { owner, mode, path, .. } ==> owner
            == o && exists|j: int|
            0 <= j < reqs.len() && (#[trigger] reqs[j]).mode == mode && reqs[j].path == path,
        !(grants(o, ttl, token, reqs)[i] is Drop),
        !(grants(o, ttl, token, reqs)[i] is Forget),
    decreases reqs.len(),
{
    let front = reqs.drop_last();
    let rest = grants(o, ttl, token, front);
    let more = grant(o, ttl, token, reqs.last());
    let step = grants(o, ttl, token, reqs)[i];
    assert(grants(o, ttl, token, reqs) == rest + more);
    if i < rest.len() {
        lemma_grants_take(o, ttl, token, front, i);
        if let StepView::Hold { owner, mode, path, .. } = step {
            let j = choose|j: int|
                0 <= j < front.len() && (#[trigger] front[j]).mode == mode && front[j].path == path;
            assert(reqs[j] == front[j]);
        }
    } else {
        assert(step == more[i - rest.len()]);
        assert(reqs[reqs.len() - 1] == reqs.last());
    }
}

/// The steps of a release take nothing, and forget only locks that are lost.
pub proof fn lemma_release_steps(
    db: DbView,
    now: u64,
    o: Seq<char>,
    rels: Seq<RelView>,
)
    requires
        release_steps(db, now, o, rels) is Ok,
    ensures
        takes_none(release_steps(db, now, o, rels)->Ok_0),
        forgets_lost(db, now, release_steps(db, now, o, rels)->Ok_0),
    decreases rels.len(),
{
    if rels.len() > 0 {
        lemma_release_steps(db, now, o, rels.drop_last());
        let all = release_steps(db, now, o, rels)->Ok_0;
        let rest = release_steps(db, now, o, rels.drop_last())->Ok_0;
        assert(all.drop_last() =~= rest);
        assert forall|i: int| 0 <= i < all.len() implies !((#[trigger] all[i]) is Hold) by {
            if i < rest.len() {
                assert(all[i] == rest[i]);
            }
        }
        assert forall|i: int| 0 <= i < all.len() implies ((#[trigger] all[i]) matches StepView::Forget {
            owner,
            mode,
            path,
        } ==> takes_none(all.take(i)) && (nul_free(owner) && nul_free(path) ==> !holding(
            db,
            now,
            mode,
            path,
            owner,
        ))) by {
            if i < rest.len() {
                assert(all[i] == rest[i]);
                assert(all.take(i) =~= rest.take(i));
            } else {
                assert(all.take(i) =~= rest);
            }
        }
    }
}

/// The same with steps around it: those before it take nothing, and none forgets a
/// lock.
pub proof fn lemma_release_among(
    db: DbView,
    now: u64,
    o: Seq<char>,
    rels: Seq<RelView>,
    before: Seq<StepView>,
    after: Seq<StepView>,
)
    requires
        release_steps(db, now, o, rels) is Ok,
        takes_none(before),
        forgets_none(before),
        forgets_none(after),
    ensures
        forgets_lost(db, now, before + release_steps(db, now, o, rels)->Ok_0 + after),
        takes_none(after) ==> takes_none(before + release_steps(db, now, o, rels)->Ok_0 + after),
{
    lemma_release_steps(db, now, o, rels);
    let middle = release_steps(db, now, o, rels)->Ok_0;
    let all = before + middle + after;
    assert forall|i: int| 0 <= i < all.len() && takes_none(after) implies !((#[trigger] all[i]) is Hold) by {
        if i < before.len() {
            assert(all[i] == before[i]);
        } else if i < before.len() + middle.len() {
            assert(all[i] == middle[i - before.len()]);
        } else {
            assert(all[i] == after[i - before.len() - middle.len()]);
        }
    }
    assert forall|i: int| 0 <= i < all.len() implies ((#[trigger] all[i]) matches StepView::Forget {
        owner,
        mode,
        path,
    } ==> takes_none(all.take(i)) && (nul_free(owner) && nul_free(path) ==> !holding(
        db,
        now,
        mode,
        path,
        owner,
    ))) by {
        if i < before.len() {
            assert(all[i] == before[i]);
        } else if i < before.len() + middle.len() {
            assert(all[i] == middle[i - before.len()]);
            assert forall|j: int| 0 <= j < i implies !((#[trigger] all.take(i)[j]) is Hold) by {
                if j < before.len() {
                    assert(all.take(i)[j] == before[j]);
                } else {
                    assert(all.take(i)[j] == middle[j - before.len()]);
                }
            }
        } else {
            assert(all[i] == after[i - before.len() - middle.len()]);
        }
    }
}

/// A release takes nothing, and forgets only locks that are lost.
pub proof fn lemma_release_plan(
    db: DbView,
    now: u64,
    o: Seq<char>,
    rels: Seq<RelView>,
    del_wait: bool,
)
    requires
        release_plan(db, now, o, rels, del_wait) is Ok,
    ensures
        takes_none(release_plan(db, now, o, rels, del_wait)->Ok_0),
        forgets_lost(db, now, release_plan(db, now, o, rels, del_wait)->Ok_0),
{
    let steps = release_plan(db, now, o, rels, del_wait)->Ok_0;
    let released = release_steps(db, now, o, rels)->Ok_0;
    let none = Seq::<StepView>::empty();
    let tail = steps.skip(released.len() as int);
    assert(steps =~= none + released + tail);
    lemma_release_among(db, now, o, rels, none, tail);
}

/// Giving up everything takes nothing, and forgets only locks that are lost.
pub proof fn lemma_release_all_plan(db: DbView, now: u64, o: Seq<char>, del_wait: bool)
    requires
        release_all_plan(db, now, o, del_wait) is Ok,
    ensures
        takes_none(release_all_plan(db, now, o, del_wait)->Ok_0),
        forgets_lost(db, now, release_all_plan(db, now, o, del_wait)->Ok_0),
{
    let steps = release_all_plan(db, now, o, del_wait)->Ok_0;
    let rels = all_holdings(db, now, o);
    let released = release_steps(db, now, o, rels)->Ok_0;
    let none = Seq::<StepView>::empty();
    let tail = steps.skip(released.len() as int);
    assert(steps =~= none + released + tail);
    lemma_release_among(db, now, o, rels, none, tail);
}

/// An acquire keeps the state of locks in order.
proof fn lemma_acquire_sound(db: DbView, now: u64, args: ArgsView)
    requires
        sound(db, now),
        acquire_plan(db, now, args) is Ok,
    ensures
        sound(applied(db, steps_ops(now, acquire_plan(db, now, args)->Ok_0.1)), now),
{
    let (outcome, steps) = acquire_plan(db, now, args)->Ok_0;
    let o = args.owner;
    if steps.len() > 0 {
        let clear = check_requests(db, now, o, args.token, args.requests)->Ok_0->Ok_0;
        let released = release_steps(db, now, o, args.releases)->Ok_0;
        let granted = grants(o, args.ttl, args.token, args.requests);
        let middle = alive_steps(o, args.ttl, args.requests) + released;
        let rest = middle + granted;
        assert(steps =~= clear + rest);
        lemma_steps_concat(now, clear, rest);
        lemma_applied_concat(db, steps_ops(now, clear), steps_ops(now, rest));
        lemma_check_only_drops(db, now, o, args.token, args.requests);
        lemma_drops(db, now, clear);
        let mid = applied(db, steps_ops(now, clear));
        lemma_release_steps(db, now, o, args.releases);
        assert forall|i: int| 0 <= i < granted.len() implies !((#[trigger] granted[i]) is Forget) by {
            lemma_grants_take(o, args.ttl, args.token, args.requests, i);
        }
        let alive = alive_steps(o, args.ttl, args.requests);
        lemma_release_among(db, now, o, args.releases, alive, granted);
        assert(rest =~= alive + released + granted);
        lemma_forgets_lost_later(db, mid, now, rest);
        assert forall|i: int| 0 <= i < rest.len() implies ((#[trigger] rest[i]) matches StepView::Hold {
            owner,
            mode,
            path,
            ..
        } ==> owner == o && (nul_free(o) && nul_free(path) ==> clear_for(mid, now, o, mode, path))) by {
            if i < middle.len() {
                assert(rest[i] == middle[i]);
            } else {
                let k = i - middle.len();
                assert(rest[i] == granted[k]);
                lemma_grants_take(o, args.ttl, args.token, args.requests, k);
                if let StepView::Hold { owner, mode, path, .. } = granted[k] {
                    let j = choose|j: int|
                        0 <= j < args.requests.len() && (#[trigger] args.requests[j]).mode == mode
                            && args.requests[j].path == path;
                    if nul_free(o) && nul_free(path) {
                        lemma_check_parts(db, now, o, args.token, args.requests, j);
                        lemma_request_clear(db, now, o, args.token, args.requests[j], clear);
                    }
                }
            }
        }
        lemma_steps_sound(mid, now, o, rest);
    } else {
        assert(steps_ops(now, steps) =~= Seq::<OpView>::empty());
    }
}

proof fn lemma_no_takes(db: DbView, now: u64, o: Seq<char>, steps: Seq<StepView>)
    requires
        sound(db, now),
        takes_none(steps),
        forgets_lost(db, now, steps),
    ensures
        sound(applied(db, steps_ops(now, steps)), now),
{
    lemma_steps_sound(db, now, o, steps);
}

pub proof fn lemma_renew_takes_held(
    db: DbView,
    now: u64,
    o: Seq<char>,
    ttl: u64,
    locks: Seq<RelView>,
)
    requires
        sound(db, now),
        renew_steps(db, now, o, ttl, locks) matches Ok(Ok(_)),
    ensures
        takes_clear(db, now, o, renew_steps(db, now, o, ttl, locks)->Ok_0->Ok_0),
        forgets_none(renew_steps(db, now, o, ttl, locks)->Ok_0->Ok_0),
    decreases locks.len(),
{
    if locks.len() > 0 {
        let front = locks.drop_last();
        let lock = locks.last();
        lemma_renew_takes_held(db, now, o, ttl, front);
        let all = renew_steps(db, now, o, ttl, locks)->Ok_0->Ok_0;
        let rest = renew_steps(db, now, o, ttl, front)->Ok_0->Ok_0;
        assert(holding(db, now, lock.mode, lock.path, o));
        assert forall|i: int| 0 <= i < all.len() implies ((#[trigger] all[i]) matches StepView::Hold {
            owner,
            mode,
            path,
            ..
        } ==> owner == o && (nul_free(o) && nul_free(path) ==> clear_for(db, now, o, mode, path))) by {
            if i < rest.len() {
                assert(all[i] == rest[i]);
            }
        }
        assert forall|i: int| 0 <= i < all.len() implies !((#[trigger] all[i]) is Forget) by {
            if i < rest.len() {
                assert(all[i] == rest[i]);
            }
        }
    }
}

/// A renewal keeps the state of locks in order.
proof fn lemma_renew_sound(db: DbView, now: u64, o: Seq<char>, ttl: u64)
    requires
        sound(db, now),
        renew_plan(db, now, o, ttl) is Ok,
    ensures
        sound(applied(db, steps_ops(now, renew_plan(db, now, o, ttl)->Ok_0.1)), now),
{
    let (outcome, steps) = renew_plan(db, now, o, ttl)->Ok_0;
    if steps.len() > 0 {
        let locks = holdings(db, now, o)->Ok_0;
        let renewed = renew_steps(db, now, o, ttl, locks)->Ok_0->Ok_0;
        lemma_renew_takes_held(db, now, o, ttl, locks);
        assert(takes_clear(db, now, o, steps)) by {
            assert forall|i: int| 0 <= i < steps.len() implies ((#[trigger] steps[i]) matches StepView::Hold {
                owner,
                mode,
                path,
                ..
            } ==> owner == o && (nul_free(o) && nul_free(path) ==> clear_for(
                db,
                now,
                o,
                mode,
                path,
            ))) by {
                if i < renewed.len() {
                    assert(steps[i] == renewed[i]);
                }
            }
        }
        assert forall|i: int| 0 <= i < steps.len() implies !((#[trigger] steps[i]) is Forget) by {
            if i < renewed.len() {
                assert(steps[i] == renewed[i]);
            }
        }
        lemma_steps_sound(db, now, o, steps);
    } else {
        assert(steps_ops(now, steps) =~= Seq::<OpView>::empty());
    }
}

/// Time passing keeps the state of locks in order.
pub proof fn law_time_passes(db: DbView, t: u64, later: u64)
    requires
        sound(db, t),
        t <= later,
    ensures
        sound(db, later),
{
    assert forall|n: Mode, q: Seq<char>, y: Seq<char>| #[trigger]
        holding(db, later, n, q, y) implies holding(db, t, n, q, y) by {}
}

/// The time at which a command takes effect: a sweep brings its own.
pub open spec fn effect_time(now: u64, op: OpKind) -> u64 {
    match op {
        OpKind::GcSweep { now_ms, .. } => if now_ms > now {
            now_ms
        } else {
            now
        },
        _ => now,
    }
}

/// A store without rows is in order.
pub proof fn law_empty_store_is_sound(t: u64)
    ensures
        sound(Map::<(Cf, Seq<u8>), Option<RecordView>>::empty(), t),
{
}

/// No command breaks mutual exclusion. In a store in which no two owners hold
/// locks that exclude each other (and every lock is listed under its ancestors),
/// any command at a time that is not earlier leaves the store so: whatever is
/// asked for, by whomever, with whatever outcome.
pub proof fn law_commands_keep_exclusion(db: DbView, t: u64, now: u64, op: OpKind)
    requires
        sound(db, t),
        t <= now,
        command_effect(db, now, op) is Ok,
    ensures
        sound(applied(db, command_effect(db, now, op)->Ok_0.1), effect_time(now, op)),
{
    law_time_passes(db, t, now);
    lemma_effect(db, now, op);
    lemma_writes_keep_exclusion(db, now, op);
    lemma_same_locks(
        applied(db, command_writes(db, now, op)->Ok_0.1),
        applied(db, command_effect(db, now, op)->Ok_0.1),
        effect_time(now, op),
    );
}

proof fn lemma_writes_keep_exclusion(db: DbView, now: u64, op: OpKind)
    requires
        sound(db, now),
        command_writes(db, now, op) is Ok,
    ensures
        sound(applied(db, command_writes(db, now, op)->Ok_0.1), effect_time(now, op)),
{
    match op {
        OpKind::Acquire(args) => {
            lemma_acquire_sound(db, now, args);
        },
        OpKind::Release { owner, reqs, del_wait } => {
            lemma_release_plan(db, now, owner, reqs, del_wait);
            lemma_no_takes(
                db,
                now,
                owner,
                release_plan(db, now, owner, reqs, del_wait)->Ok_0,
            );
        },
        OpKind::ReleaseAll { owner, del_wait } => {
            lemma_release_all_sound(db, now, owner, del_wait);
        },
        OpKind::Renew { owner, ttl_ms } => {
            lemma_renew_sound(db, now, owner, ttl_ms);
        },
        OpKind::ForceRelease { victim } => {
            lemma_release_all_sound(db, now, victim, true);
        },
        OpKind::SetClaim { path, claimant, ttl_ms } => {
            lemma_no_takes(
                db,
                now,
                claimant,
                seq![
                    StepView::Claim { path, claimant, ttl: crate::engine::ops::claim_ttl(ttl_ms) },
                ],
            );
        },
        OpKind::SetWaitEdge { owner, conflict_owner, metadata, ttl_ms } => {
            lemma_no_takes(
                db,
                now,
                owner,
                seq![
                    StepView::Wait {
                        owner,
                        edge: crate::engine::edge::edge_text(conflict_owner, metadata),
                        ttl: ttl_ms,
                    },
                ],
            );
        },
        OpKind::ClearWaitEdge { owner } => {
            lemma_no_takes(db, now, owner, seq![StepView::NoWait { owner }]);
        },
        OpKind::GcSweep { now_ms, batch } => {
            lemma_sweep_sound(db, now, now_ms, batch as nat);
        },
        OpKind::IncrFence => {
            let current = fence_counter(db)->Ok_0;
            let put = put_counter(next_token(current));
            crate::engine::places::lemma_single(db, put);
            lemma_applied_finite(db, seq![put]);
            lemma_same_locks(db, applied(db, seq![put]), now);
        },
    }
}

proof fn lemma_release_all_sound(db: DbView, now: u64, owner: Seq<char>, del_wait: bool)
    requires
        sound(db, now),
        release_all_plan(db, now, owner, del_wait) is Ok,
    ensures
        sound(
            applied(db, steps_ops(now, release_all_plan(db, now, owner, del_wait)->Ok_0)),
            now,
        ),
{
    lemma_release_all_plan(db, now, owner, del_wait);
    lemma_no_takes(db, now, owner, release_all_plan(db, now, owner, del_wait)->Ok_0);
}

proof fn lemma_sweep_sound(db: DbView, now: u64, sweep_now: u64, batch: nat)
    requires
        sound(db, now),
    ensures
        sound(
            applied(db, sweep_writes(db, swept_rows(db, sweep_now, batch), sweep_now)),
            if sweep_now > now {
                sweep_now
            } else {
                now
            },
        ),
{
    let ops = sweep_writes(db, swept_rows(db, sweep_now, batch), sweep_now);
    let after = applied(db, ops);
    let later = if sweep_now > now {
        sweep_now
    } else {
        now
    };
    law_sweep_is_invisible(db, sweep_now, batch, later, Cf::WriteLocks);
    lemma_applied_finite(db, ops);
    law_time_passes(db, now, later);
    assert forall|n: Mode, q: Seq<char>, y: Seq<char>|
        nul_free(q) && nul_free(y) && #[trigger] holding(after, later, n, q, y) implies holding(
        db,
        later,
        n,
        q,
        y,
    ) && recorded(after, n, q, y) by {
        let place = lock_place(n, q, y);
        assert(after.dom().contains(place));
        assert(holding(db, later, n, q, y));
        assert(text_at(db, hold_at(n, q, y), hold_text(n, q), exp_at(db, place)));
        assert(after.dom().contains(hold_at(n, q, y)));
        assert forall|i: int| 0 <= i < ancestors(q).len() implies text_at(
            after,
            #[trigger] index_place(n, q, y, ancestors(q)[i]),
            lock_index(n, q, y).1,
            exp_at(after, place),
        ) by {
            let at = index_place(n, q, y, ancestors(q)[i]);
            assert(text_at(db, at, lock_index(n, q, y).1, exp_at(db, place)));
            assert(db.dom().contains(at));
            assert(after.dom().contains(at));
        }
    }
}

/// What a sequence of commands makes of a store; one that fails changes nothing.
pub open spec fn run(db: DbView, commands: Seq<(u64, OpKind)>) -> DbView
    decreases commands.len(),
{
    if commands.len() == 0 {
        db
    } else {
        let before = run(db, commands.drop_last());
        let (now, op) = commands.last();
        match command_effect(before, now, op) {
            Ok((_, ops)) => applied(before, ops),
            Err(_) => before,
        }
    }
}

/// Whether no command is given an earlier time than one before it took effect at.
pub open spec fn in_order(commands: Seq<(u64, OpKind)>) -> bool {
    forall|i: int, j: int|
        0 <= i < j < commands.len() ==> effect_time(
            (#[trigger] commands[i]).0,
            commands[i].1,
        ) <= (#[trigger] commands[j]).0
}

/// Mutual exclusion holds throughout: whatever commands are applied to an empty
/// store, one after the other as the clock goes on, no two owners ever hold locks
/// that exclude each other.
pub proof fn law_history_keeps_exclusion(commands: Seq<(u64, OpKind)>, t: u64)
    requires
        in_order(commands),
        forall|i: int|
            0 <= i < commands.len() ==> effect_time((#[trigger] commands[i]).0, commands[i].1) <= t,
    ensures
        sound(run(Map::<(Cf, Seq<u8>), Option<RecordView>>::empty(), commands), t),
    decreases commands.len(),
{
    let empty = Map::<(Cf, Seq<u8>), Option<RecordView>>::empty();
    if commands.len() == 0 {
        law_empty_store_is_sound(t);
    } else {
        let front = commands.drop_last();
        let (now, op) = commands.last();
        assert forall|i: int| 0 <= i < front.len() implies effect_time(
            (#[trigger] front[i]).0,
            front[i].1,
        ) <= now by {
            assert(front[i] == commands[i]);
            assert(commands[commands.len() - 1] == commands.last());
        }
        assert forall|i: int, j: int| 0 <= i < j < front.len() implies effect_time(
            (#[trigger] front[i]).0,
            front[i].1,
        ) <= (#[trigger] front[j]).0 by {
            assert(front[i] == commands[i] && front[j] == commands[j]);
        }
        law_history_keeps_exclusion(front, now);
        let before = run(empty, front);
        assert(commands[commands.len() - 1] == (now, op));
        if command_effect(before, now, op) is Ok {
            law_commands_keep_exclusion(before, now, now, op);
            law_time_passes(run(empty, commands), effect_time(now, op), t);
        } else {
            law_time_passes(before, now, t);
        }
    }
}

} // verus!
