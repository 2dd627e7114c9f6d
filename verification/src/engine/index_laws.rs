//! The sets of the store say what they are for: a reader stands under its own name,
//! what is listed under a path lies below it, and a holding names a path.

use vstd::prelude::*;
use crate::db::{applied, lemma_applied_concat, lemma_scan_exists, same_at, DbView, OpView};
use crate::engine::edge::edge_text;
use crate::engine::laws::{lemma_check_only_drops, lemma_grants_take};
use crate::engine::ops::{
    acquire_plan, alive_steps, all_holdings, check_requests, claim_ttl, grants, holdings,
    keep_fence, release_all_plan, release_plan, release_steps, renew_plan, renew_steps,
};
use crate::engine::path::ancestors;
use crate::engine::places::{
    hold_at, in_index, index_place, lemma_ancestors_nul_free, lemma_hold, lemma_put_index,
    lemma_single, of_lock, text_at,
};
use crate::engine::query_laws::lemma_listed_both_ways;
use crate::engine::refusal_laws::lemma_text_has_row;
use crate::engine::steps::{
    hold_text, law_hold_reads_back, lock_index, lock_place, parse_hold, put_index, step_ops,
    steps_ops, StepView,
};
use crate::engine::tenure_laws::lemma_release_gives_up;
use crate::engine::types::{ArgsView, Mode, RelView, ReqView};
use crate::raft::command::OpKind;
use crate::raft::state_machine::{
    command_effect, command_writes, fence_counter, lemma_effect, next_token, put_counter,
    swept_rows,
};
use crate::store_keys::{
    expiry_time, lemma_nul_free_bytes, member_key_spec, member_prefix_spec, nul_free, Cf,
    MAX_SET_ENUM_MEMBERS,
};
use crate::store_laws::{cursor_place, lemma_put_text_places, lemma_sweep_writes};
use crate::store_rocksdb::{live_text, member_rows, put_text, read_members, RecordView};
use crate::text::{lemma_split_joined, lemma_utf8_injective, split_nul, utf8};

verus! {

/// Whether a text belongs under the key `k` in the set of `p`.
pub open spec fn belongs(cf: Cf, p: Seq<char>, k: Seq<u8>, v: Seq<char>) -> bool {
    match cf {
        Cf::ReadLocks => k == member_key_spec(utf8(p), v),
        Cf::DescWrite => ancestors(v).contains(p),
        Cf::DescClaim => ancestors(v).contains(p),
        Cf::DescRead => split_nul(v) matches Some((q, _)) && ancestors(q).contains(p),
        _ => true,
    }
}

/// The row of a set holds a text.
pub open spec fn row_says(db: DbView, cf: Cf, k: Seq<u8>, v: Seq<char>) -> bool {
    db.dom().contains((cf, k)) && (db[(cf, k)] matches Some(RecordView::Str { v: w, .. }) && w == v)
}

/// The sets of the store say what they are for.
pub open spec fn honest(db: DbView) -> bool {
    &&& forall|cf: Cf, p: Seq<char>, k: Seq<u8>, v: Seq<char>|
        nul_free(p) && member_prefix_spec(utf8(p)).is_prefix_of(k) && #[trigger] row_says(
            db,
            cf,
            k,
            v,
        ) ==> #[trigger] belongs(cf, p, k, v)
    &&& forall|k: Seq<u8>, v: Seq<char>| #[trigger]
        row_says(db, Cf::OwnerHolds, k, v) ==> (parse_hold(v) matches Some((_, q)) ==> nul_free(q))
}

/// The row of a set whose name has no NUL is a row of no other such set.
proof fn lemma_set_of_row(p: Seq<char>, q: Seq<char>, rest: Seq<u8>)
    requires
        nul_free(p),
        nul_free(q),
        member_prefix_spec(utf8(p)).is_prefix_of(member_prefix_spec(utf8(q)) + rest),
    ensures
        p == q,
{
    let k = member_prefix_spec(utf8(q)) + rest;
    let (a, b) = (utf8(p), utf8(q));
    lemma_nul_free_bytes(p);
    lemma_nul_free_bytes(q);
    assert(k[a.len() as int] == member_prefix_spec(a)[a.len() as int]);
    assert(k[b.len() as int] == 0);
    if a.len() < b.len() {
        assert(k[a.len() as int] == b[a.len() as int]);
    }
    if b.len() < a.len() {
        assert(k[b.len() as int] == member_prefix_spec(a)[b.len() as int]);
        assert(member_prefix_spec(a)[b.len() as int] == a[b.len() as int]);
    }
    assert(a =~= b) by {
        assert forall|i: int| 0 <= i < a.len() implies a[i] == b[i] by {
            assert(member_prefix_spec(a)[i] == k[i]);
        }
    }
    lemma_utf8_injective(p, q);
}

/// `after` holds nothing that `before` does not hold.
spec fn shrinks(before: DbView, after: DbView) -> bool {
    forall|place: (Cf, Seq<u8>)| #[trigger]
        after.dom().contains(place) ==> before.dom().contains(place) && after[place]
            == before[place]
}

proof fn lemma_deletes_shrink(db: DbView, ops: Seq<OpView>)
    requires
        forall|i: int| 0 <= i < ops.len() ==> (#[trigger] ops[i]) is Delete,
    ensures
        shrinks(db, applied(db, ops)),
    decreases ops.len(),
{
    if ops.len() > 0 {
        let front = ops.drop_last();
        assert forall|i: int| 0 <= i < front.len() implies (#[trigger] front[i]) is Delete by {
            assert(front[i] == ops[i]);
        }
        lemma_deletes_shrink(db, front);
        assert(ops[ops.len() - 1] is Delete);
    }
}

proof fn lemma_shrunk_is_honest(before: DbView, after: DbView)
    requires
        honest(before),
        shrinks(before, after),
    ensures
        honest(after),
{
    assert forall|cf: Cf, k: Seq<u8>, v: Seq<char>| #[trigger]
        row_says(after, cf, k, v) implies row_says(before, cf, k, v) by {
        assert(after.dom().contains((cf, k)));
    }
}

/// The families whose sets must say what they are for.
spec fn is_listed_cf(cf: Cf) -> bool {
    cf == Cf::ReadLocks || cf == Cf::DescWrite || cf == Cf::DescRead || cf == Cf::DescClaim || cf
        == Cf::OwnerHolds
}

proof fn lemma_elsewhere_is_honest(before: DbView, after: DbView)
    requires
        honest(before),
        forall|place: (Cf, Seq<u8>)|
            is_listed_cf(place.0) ==> #[trigger] same_at(after, before, place),
    ensures
        honest(after),
{
    assert forall|cf: Cf, p: Seq<char>, k: Seq<u8>, v: Seq<char>|
        nul_free(p) && member_prefix_spec(utf8(p)).is_prefix_of(k) && #[trigger] row_says(
            after,
            cf,
            k,
            v,
        ) implies #[trigger] belongs(cf, p, k, v) by {
        if is_listed_cf(cf) {
            assert(same_at(after, before, (cf, k)));
            assert(row_says(before, cf, k, v));
        }
    }
    assert forall|k: Seq<u8>, v: Seq<char>| #[trigger]
        row_says(after, Cf::OwnerHolds, k, v) implies (parse_hold(v) matches Some((_, q))
        ==> nul_free(q)) by {
        assert(same_at(after, before, (Cf::OwnerHolds, k)));
        assert(row_says(before, Cf::OwnerHolds, k, v));
    }
}

proof fn lemma_hold_is_honest(
    db: DbView,
    now: u64,
    o: Seq<char>,
    m: Mode,
    path: Seq<char>,
    ttl: u64,
)
    requires
        honest(db),
        nul_free(path),
    ensures
        honest(
            applied(db, step_ops(now, StepView::Hold { owner: o, mode: m, path, ttl })),
        ),
{
    let after = applied(db, step_ops(now, StepView::Hold { owner: o, mode: m, path, ttl }));
    let entry = lock_index(m, path, o).1;
    lemma_hold(db, now, o, m, path, ttl);
    lemma_hold_leaves_claims(db, now, o, m, path, ttl);
    law_hold_reads_back(m, path);
    lemma_split_joined(path, o);
    assert forall|cf: Cf, p: Seq<char>, k: Seq<u8>, v: Seq<char>|
        nul_free(p) && member_prefix_spec(utf8(p)).is_prefix_of(k) && #[trigger] row_says(
            after,
            cf,
            k,
            v,
        ) implies #[trigger] belongs(cf, p, k, v) by {
        let place = (cf, k);
        if !is_listed_cf(cf) {
        } else if !of_lock(m, path, o, place) {
            assert(same_at(after, db, place));
            assert(row_says(db, cf, k, v));
        } else if place == lock_place(m, path, o) {
            assert(k =~= member_prefix_spec(utf8(path)) + utf8(o));
            lemma_set_of_row(p, path, utf8(o));
        } else if place != hold_at(m, path, o) {
            let ups = ancestors(path);
            let i = choose|i: int|
                0 <= i < ups.len() && place == (
                    lock_index(m, path, o).0,
                    member_key_spec(utf8(#[trigger] ups[i]), entry),
                );
            let a = ups[i];
            assert(place == index_place(m, path, o, a));
            let exp = expiry_time(now, ttl);
            assert(text_at(after, index_place(m, path, o, ups[i]), entry, exp));
            assert(ups.contains(a));
            lemma_ancestors_nul_free(path, a);
            assert(k =~= member_prefix_spec(utf8(a)) + utf8(entry));
            lemma_set_of_row(p, a, utf8(entry));
        }
    }
    assert forall|k: Seq<u8>, v: Seq<char>| #[trigger]
        row_says(after, Cf::OwnerHolds, k, v) implies (parse_hold(v) matches Some((_, q))
        ==> nul_free(q)) by {
        let place = (Cf::OwnerHolds, k);
        if place != hold_at(m, path, o) {
            assert(!of_lock(m, path, o, place));
            assert(same_at(after, db, place));
            assert(row_says(db, Cf::OwnerHolds, k, v));
        }
    }
}

/// Holding a lock leaves the index of claims as it was.
proof fn lemma_hold_leaves_claims(
    db: DbView,
    now: u64,
    o: Seq<char>,
    m: Mode,
    path: Seq<char>,
    ttl: u64,
)
    ensures
        forall|k: Seq<u8>| #[trigger]
            same_at(
                applied(db, step_ops(now, StepView::Hold { owner: o, mode: m, path, ttl })),
                db,
                (Cf::DescClaim, k),
            ),
{
    let (cf, key) = lock_place(m, path, o);
    let (index, entry) = lock_index(m, path, o);
    let first = put_text(now, cf, key, o, ttl);
    let second = put_index(now, index, ancestors(path), entry, ttl);
    let third = put_text(now, Cf::OwnerHolds, hold_at(m, path, o).1, hold_text(m, path), ttl);
    let one = applied(db, first);
    let two = applied(one, second);
    lemma_applied_concat(db, first, second);
    lemma_applied_concat(db, first + second, third);
    lemma_put_text_places(db, now, cf, key, o, ttl);
    lemma_put_text_places(two, now, Cf::OwnerHolds, hold_at(m, path, o).1, hold_text(m, path), ttl);
    assert forall|k: Seq<u8>| #[trigger] same_at(applied(two, third), db, (Cf::DescClaim, k)) by {
        lemma_put_index(one, now, index, ancestors(path), entry, ttl, (Cf::DescClaim, k));
    }
}

proof fn lemma_claim_is_honest(
    db: DbView,
    now: u64,
    path: Seq<char>,
    claimant: Seq<char>,
    ttl: u64,
)
    requires
        honest(db),
        nul_free(path),
    ensures
        honest(applied(db, step_ops(now, StepView::Claim { path, claimant, ttl }))),
{
    let first = put_text(now, Cf::Claims, utf8(path), claimant, ttl);
    let second = put_index(now, Cf::DescClaim, ancestors(path), path, ttl);
    let mid = applied(db, first);
    let after = applied(mid, second);
    let ups = ancestors(path);
    lemma_applied_concat(db, first, second);
    lemma_put_text_places(db, now, Cf::Claims, utf8(path), claimant, ttl);
    assert forall|cf: Cf, p: Seq<char>, k: Seq<u8>, v: Seq<char>|
        nul_free(p) && member_prefix_spec(utf8(p)).is_prefix_of(k) && #[trigger] row_says(
            after,
            cf,
            k,
            v,
        ) implies #[trigger] belongs(cf, p, k, v) by {
        let place = (cf, k);
        if is_listed_cf(cf) {
            lemma_put_index(mid, now, Cf::DescClaim, ups, path, ttl, place);
            if in_index(Cf::DescClaim, ups, path, place) {
                let i = choose|i: int|
                    0 <= i < ups.len() && place == (
                        Cf::DescClaim,
                        member_key_spec(utf8(#[trigger] ups[i]), path),
                    );
                let a = ups[i];
                assert(ups.contains(a));
                lemma_ancestors_nul_free(path, a);
                assert(k =~= member_prefix_spec(utf8(a)) + utf8(path));
                lemma_set_of_row(p, a, utf8(path));
            } else {
                assert(row_says(db, cf, k, v));
            }
        }
    }
    assert forall|k: Seq<u8>, v: Seq<char>| #[trigger]
        row_says(after, Cf::OwnerHolds, k, v) implies (parse_hold(v) matches Some((_, q))
        ==> nul_free(q)) by {
        lemma_put_index(mid, now, Cf::DescClaim, ups, path, ttl, (Cf::OwnerHolds, k));
        assert(row_says(db, Cf::OwnerHolds, k, v));
    }
}

/// Whether a step that lists something lists a path without NUL.
spec fn plain(step: StepView) -> bool {
    match step {
        StepView::Hold { path, .. } => nul_free(path),
        StepView::Claim { path, .. } => nul_free(path),
        _ => true,
    }
}

proof fn lemma_step_is_honest(db: DbView, now: u64, step: StepView)
    requires
        honest(db),
        plain(step),
    ensures
        honest(applied(db, step_ops(now, step))),
{
    let ops = step_ops(now, step);
    let after = applied(db, ops);
    match step {
        StepView::Hold { owner, mode, path, ttl } => {
            lemma_hold_is_honest(db, now, owner, mode, path, ttl);
        },
        StepView::Claim { path, claimant, ttl } => {
            lemma_claim_is_honest(db, now, path, claimant, ttl);
        },
        StepView::Alive { owner, ttl } => {
            lemma_put_text_places(db, now, Cf::OwnerAlive, utf8(owner), "1"@, ttl);
            lemma_elsewhere_is_honest(db, after);
        },
        StepView::Fence { path, token, ttl } => {
            lemma_put_text_places(
                db,
                now,
                Cf::Fences,
                utf8(path),
                token,
                crate::engine::steps::fence_ttl(ttl),
            );
            lemma_elsewhere_is_honest(db, after);
        },
        StepView::Wait { owner, edge, ttl } => {
            lemma_put_text_places(db, now, Cf::WaitEdges, utf8(owner), edge, ttl);
            lemma_elsewhere_is_honest(db, after);
        },
        _ => {
            assert forall|i: int| 0 <= i < ops.len() implies (#[trigger] ops[i]) is Delete by {}
            lemma_deletes_shrink(db, ops);
            lemma_shrunk_is_honest(db, after);
        },
    }
}

proof fn lemma_steps_are_honest(db: DbView, now: u64, steps: Seq<StepView>)
    requires
        honest(db),
        forall|i: int| 0 <= i < steps.len() ==> plain(#[trigger] steps[i]),
    ensures
        honest(applied(db, steps_ops(now, steps))),
    decreases steps.len(),
{
    if steps.len() > 0 {
        let front = steps.drop_last();
        assert forall|i: int| 0 <= i < front.len() implies plain(#[trigger] front[i]) by {
            assert(front[i] == steps[i]);
        }
        lemma_steps_are_honest(db, now, front);
        assert(plain(steps[steps.len() - 1]));
        lemma_applied_concat(db, steps_ops(now, front), step_ops(now, steps.last()));
        lemma_step_is_honest(applied(db, steps_ops(now, front)), now, steps.last());
    } else {
        assert(steps_ops(now, steps) =~= Seq::<OpView>::empty());
    }
}

/// Whether the paths that a command takes locks on have no NUL.
pub open spec fn plain_paths(op: OpKind) -> bool {
    match op {
        OpKind::Acquire(args) => forall|j: int|
            0 <= j < args.requests.len() ==> nul_free((#[trigger] args.requests[j]).path),
        OpKind::SetClaim { path, .. } => nul_free(path),
        _ => true,
    }
}

proof fn lemma_acquire_is_plain(db: DbView, now: u64, args: ArgsView, i: int)
    requires
        acquire_plan(db, now, args) is Ok,
        plain_paths(OpKind::Acquire(args)),
        0 <= i < acquire_plan(db, now, args)->Ok_0.1.len(),
    ensures
        plain(acquire_plan(db, now, args)->Ok_0.1[i]),
{
    let steps = acquire_plan(db, now, args)->Ok_0.1;
    let clear = check_requests(db, now, args.owner, args.token, args.requests)->Ok_0->Ok_0;
    let alive = alive_steps(args.owner, args.ttl, args.requests);
    let released = release_steps(db, now, args.owner, args.releases)->Ok_0;
    let granted = grants(args.owner, args.ttl, args.token, args.requests);
    assert(steps == clear + alive + released + granted);
    if i < clear.len() {
        lemma_check_only_drops(db, now, args.owner, args.token, args.requests);
        assert(steps[i] == clear[i]);
    } else if i < clear.len() + alive.len() {
        assert(steps[i] == alive[i - clear.len()]);
    } else if i < clear.len() + alive.len() + released.len() {
        let k = i - clear.len() - alive.len();
        assert(steps[i] == released[k]);
        lemma_release_gives_up(db, now, args.owner, args.releases, k);
    } else {
        let k = i - clear.len() - alive.len() - released.len();
        assert(steps[i] == granted[k]);
        lemma_grants_take(args.owner, args.ttl, args.token, args.requests, k);
        lemma_grants_claim_nothing(args.owner, args.ttl, args.token, args.requests, k);
        if let StepView::Hold { mode, path, .. } = granted[k] {
            let j = choose|j: int|
                0 <= j < args.requests.len() && (#[trigger] args.requests[j]).mode == mode
                    && args.requests[j].path == path;
            assert(nul_free(args.requests[j].path));
        }
    }
}

proof fn lemma_grants_claim_nothing(
    o: Seq<char>,
    ttl: u64,
    token: i64,
    reqs: Seq<ReqView>,
    i: int,
)
    requires
        0 <= i < grants(o, ttl, token, reqs).len(),
    ensures
        !(grants(o, ttl, token, reqs)[i] is Claim),
    decreases reqs.len(),
{
    let rest = grants(o, ttl, token, reqs.drop_last());
    if i < rest.len() {
        lemma_grants_claim_nothing(o, ttl, token, reqs.drop_last(), i);
        assert(grants(o, ttl, token, reqs)[i] == rest[i]);
    }
}

/// The locks in an owner's list of holdings have paths without NUL.
proof fn lemma_holdings_are_plain(db: DbView, now: u64, o: Seq<char>, lock: RelView)
    requires
        honest(db),
        db.dom().finite(),
        holdings(db, now, o) matches Ok(locks) && locks.contains(lock),
    ensures
        nul_free(lock.path),
{
    let entries = read_members(db, now, Cf::OwnerHolds, utf8(o), MAX_SET_ENUM_MEMBERS)->Ok_0;
    let rows = member_rows(db, Cf::OwnerHolds, utf8(o));
    lemma_scan_exists(db, Cf::OwnerHolds, member_prefix_spec(utf8(o)));
    lemma_listed_both_ways(entries, lock);
    let i = choose|i: int|
        0 <= i < entries.len() && parse_hold(#[trigger] entries[i]) == Some(
            (lock.mode, lock.path),
        );
    assert(entries.contains(entries[i]));
    lemma_text_has_row(db, now, Cf::OwnerHolds, rows, entries[i]);
    let k = choose|k: Seq<u8>|
        rows.contains(k) && live_text(#[trigger] db[(Cf::OwnerHolds, k)], now) == Some(entries[i]);
    assert(row_says(db, Cf::OwnerHolds, k, entries[i]));
}

proof fn lemma_renewal_is_plain(
    db: DbView,
    now: u64,
    o: Seq<char>,
    ttl: u64,
    locks: Seq<RelView>,
    i: int,
)
    requires
        forall|j: int| 0 <= j < locks.len() ==> nul_free((#[trigger] locks[j]).path),
        renew_steps(db, now, o, ttl, locks) matches Ok(Ok(_)),
        0 <= i < renew_steps(db, now, o, ttl, locks)->Ok_0->Ok_0.len(),
    ensures
        plain(renew_steps(db, now, o, ttl, locks)->Ok_0->Ok_0[i]),
    decreases locks.len(),
{
    let front = locks.drop_last();
    let all = renew_steps(db, now, o, ttl, locks)->Ok_0->Ok_0;
    let rest = renew_steps(db, now, o, ttl, front)->Ok_0->Ok_0;
    let fence = keep_fence(db, now, ttl, locks.last())->Ok_0;
    assert(locks[locks.len() - 1] == locks.last());
    if i < rest.len() {
        assert forall|j: int| 0 <= j < front.len() implies nul_free((#[trigger] front[j]).path) by {
            assert(front[j] == locks[j]);
        }
        lemma_renewal_is_plain(db, now, o, ttl, front, i);
        assert(all[i] == rest[i]);
    } else if i > rest.len() {
        assert(all[i] == fence[i - rest.len() - 1]);
    }
}

/// A store without rows is honest.
pub proof fn law_empty_store_is_honest()
    ensures
        honest(Map::<(Cf, Seq<u8>), Option<RecordView>>::empty()),
{
}

/// The sets of the store go on to say what they are for, whatever commands are applied, as
/// long as the paths of locks have no NUL.
pub proof fn law_commands_keep_the_sets(db: DbView, now: u64, op: OpKind)
    requires
        honest(db),
        db.dom().finite(),
        plain_paths(op),
        command_effect(db, now, op) is Ok,
    ensures
        honest(applied(db, command_effect(db, now, op)->Ok_0.1)),
{
    lemma_effect(db, now, op);
    let ops = command_writes(db, now, op)->Ok_0.1;
    let after = applied(db, ops);
    match op {
        OpKind::Acquire(args) => {
            let steps = acquire_plan(db, now, args)->Ok_0.1;
            assert forall|i: int| 0 <= i < steps.len() implies plain(#[trigger] steps[i]) by {
                lemma_acquire_is_plain(db, now, args, i);
            }
            lemma_steps_are_honest(db, now, steps);
        },
        OpKind::Release { owner, reqs, del_wait } => {
            let steps = release_plan(db, now, owner, reqs, del_wait)->Ok_0;
            let released = release_steps(db, now, owner, reqs)->Ok_0;
            assert forall|i: int| 0 <= i < steps.len() implies plain(#[trigger] steps[i]) by {
                if i < released.len() {
                    assert(steps[i] == released[i]);
                    lemma_release_gives_up(db, now, owner, reqs, i);
                }
            }
            lemma_steps_are_honest(db, now, steps);
        },
        OpKind::ReleaseAll { owner, del_wait } => {
            lemma_release_all_is_honest(db, now, owner, del_wait);
        },
        OpKind::ForceRelease { victim } => {
            lemma_release_all_is_honest(db, now, victim, true);
        },
        OpKind::Renew { owner, ttl_ms } => {
            let steps = renew_plan(db, now, owner, ttl_ms)->Ok_0.1;
            if steps.len() > 0 {
                let locks = holdings(db, now, owner)->Ok_0;
                let renewed = renew_steps(db, now, owner, ttl_ms, locks)->Ok_0->Ok_0;
                assert forall|j: int| 0 <= j < locks.len() implies nul_free(
                    (#[trigger] locks[j]).path,
                ) by {
                    assert(locks.contains(locks[j]));
                    lemma_holdings_are_plain(db, now, owner, locks[j]);
                }
                assert forall|i: int| 0 <= i < steps.len() implies plain(#[trigger] steps[i]) by {
                    if i < renewed.len() {
                        assert(steps[i] == renewed[i]);
                        lemma_renewal_is_plain(db, now, owner, ttl_ms, locks, i);
                    }
                }
            }
            lemma_steps_are_honest(db, now, steps);
        },
        OpKind::SetClaim { path, claimant, ttl_ms } => {
            let step = StepView::Claim { path, claimant, ttl: claim_ttl(ttl_ms) };
            lemma_steps_are_honest(db, now, seq![step]);
        },
        OpKind::SetWaitEdge { owner, conflict_owner, metadata, ttl_ms } => {
            let step = StepView::Wait {
                owner,
                edge: edge_text(conflict_owner, metadata),
                ttl: ttl_ms,
            };
            lemma_steps_are_honest(db, now, seq![step]);
        },
        OpKind::ClearWaitEdge { owner } => {
            lemma_steps_are_honest(db, now, seq![StepView::NoWait { owner }]);
        },
        OpKind::GcSweep { now_ms, batch } => {
            lemma_sweep_writes(db, swept_rows(db, now_ms, batch as nat), now_ms);
            let cursor = cursor_place();
            let pruned = after.remove(cursor);
            assert(shrinks(db, pruned));
            lemma_shrunk_is_honest(db, pruned);
            lemma_elsewhere_is_honest(pruned, after);
        },
        OpKind::IncrFence => {
            lemma_single(db, put_counter(next_token(fence_counter(db)->Ok_0)));
            lemma_elsewhere_is_honest(db, after);
        },
    }
    lemma_elsewhere_is_honest(after, applied(db, command_effect(db, now, op)->Ok_0.1));
}

proof fn lemma_release_all_is_honest(db: DbView, now: u64, o: Seq<char>, del_wait: bool)
    requires
        honest(db),
        release_all_plan(db, now, o, del_wait) is Ok,
    ensures
        honest(applied(db, steps_ops(now, release_all_plan(db, now, o, del_wait)->Ok_0))),
{
    let steps = release_all_plan(db, now, o, del_wait)->Ok_0;
    let rels = all_holdings(db, now, o);
    let released = release_steps(db, now, o, rels)->Ok_0;
    assert forall|i: int| 0 <= i < steps.len() implies plain(#[trigger] steps[i]) by {
        if i < released.len() {
            assert(steps[i] == released[i]);
            lemma_release_gives_up(db, now, o, rels, i);
        }
    }
    lemma_steps_are_honest(db, now, steps);
}

} // verus!
