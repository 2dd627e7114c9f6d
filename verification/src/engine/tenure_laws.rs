//! How long an owner keeps what it has: a write lock stands until its owner gives it
//! up or it expires, and an owner lives no longer than its last lock.

use vstd::prelude::*;
use crate::db::{applied, lemma_applied_concat, same_at, DbView, OpView};
use crate::engine::conflict::{clearing, is_alive, lock_of, overlapping, BlockerView};
use crate::engine::edge::edge_text;
use crate::engine::laws::{effect_time, exp_at, holding, lemma_search_finds, recorded, sound};
use crate::engine::lease_laws::lemma_nobody_live;
use crate::engine::ops::{
    acquire_plan, alive_steps, all_holdings, check_request, check_requests, claim_ttl, grant,
    grants, holdings, keep_fence, release_all_plan, release_plan, release_steps, renew_plan,
    renew_steps,
};
use crate::engine::outcome_laws::{
    lemma_avoids_same, lemma_check_never_grants, lemma_grants_hold, lemma_one_step,
    lemma_overlapping_real, lemma_step_avoids,
};
use crate::engine::places::{
    lemma_drop, lemma_forget, lemma_hold, lemma_lock_place_unique, lemma_other_step, lemma_single,
    of_lock, text_at,
};
use crate::engine::steps::{
    hold_place, hold_text, law_hold_reads_back, lemma_steps_concat, lock_place, step_ops, steps_ops,
    StepView,
};
use crate::engine::types::{AcquireView, ArgsView, Mode, RelView, ReqView, State};
use crate::raft::command::{OpKind, ResponseView};
use crate::raft::state_machine::{
    command_effect, command_writes, fence_counter, lemma_effect, next_token, put_counter,
};
use crate::store_keys::{expiry_time, is_expired, member_key_spec, member_prefix_spec, nul_free, Cf};
use crate::store_laws::{law_sweep_is_invisible, lemma_put_text_places};
use crate::store_rocksdb::{has_live, live_text, ErrorView, RecordView};
use crate::text::{lemma_utf8_injective, utf8};

verus! {

// ---------------------------------------------------------------------------
// Steps and liveness markers
// ---------------------------------------------------------------------------

/// Whether a step says nothing of the life of owner `x`.
pub open spec fn silent_on(step: StepView, x: Seq<char>) -> bool {
    match step {
        StepView::Alive { owner, .. } => owner != x,
        StepView::NotAlive { owner } => owner != x,
        _ => true,
    }
}

/// Where the liveness marker of an owner stands.
pub open spec fn life_at(x: Seq<char>) -> (Cf, Seq<u8>) {
    (Cf::OwnerAlive, utf8(x))
}

proof fn lemma_silent_step(db: DbView, now: u64, step: StepView, x: Seq<char>)
    requires
        silent_on(step, x),
    ensures
        same_at(applied(db, step_ops(now, step)), db, life_at(x)),
{
    match step {
        StepView::Alive { owner, ttl } => {
            lemma_put_text_places(db, now, Cf::OwnerAlive, utf8(owner), "1"@, ttl);
            if utf8(owner) == utf8(x) {
                lemma_utf8_injective(owner, x);
            }
        },
        StepView::NotAlive { owner } => {
            lemma_single(db, step_ops(now, step)[0]);
            if utf8(owner) == utf8(x) {
                lemma_utf8_injective(owner, x);
            }
        },
        _ => {
            lemma_step_avoids(now, step, Cf::OwnerAlive);
            lemma_avoids_same(db, step_ops(now, step), life_at(x));
        },
    }
}

proof fn lemma_silent_steps(db: DbView, now: u64, steps: Seq<StepView>, x: Seq<char>)
    requires
        forall|i: int| 0 <= i < steps.len() ==> silent_on(#[trigger] steps[i], x),
    ensures
        same_at(applied(db, steps_ops(now, steps)), db, life_at(x)),
    decreases steps.len(),
{
    if steps.len() > 0 {
        let front = steps.drop_last();
        assert forall|i: int| 0 <= i < front.len() implies silent_on(#[trigger] front[i], x) by {
            assert(front[i] == steps[i]);
        }
        lemma_silent_steps(db, now, front, x);
        assert(silent_on(steps[steps.len() - 1], x));
        lemma_applied_concat(db, steps_ops(now, front), step_ops(now, steps.last()));
        lemma_silent_step(applied(db, steps_ops(now, front)), now, steps.last(), x);
    }
}

// ---------------------------------------------------------------------------
// The last lock
// ---------------------------------------------------------------------------

/// Whether a row is that of one of the given members of a set.
pub open spec fn is_row_of(key: Seq<u8>, members: Seq<Seq<char>>, k: Seq<u8>) -> bool {
    exists|i: int| 0 <= i < members.len() && k == member_key_spec(key, #[trigger] members[i])
}

/// Whether an owner has a live holding besides the locks named.
pub open spec fn holds_besides(db: DbView, now: u64, owner: Seq<char>, rels: Seq<RelView>) -> bool {
    exists|k: Seq<u8>| #[trigger]
        db.dom().contains((Cf::OwnerHolds, k)) && member_prefix_spec(utf8(owner)).is_prefix_of(k)
            && live_text(db[(Cf::OwnerHolds, k)], now) is Some && !is_row_of(
            utf8(owner),
            rel_entries(rels),
            k,
        )
}

/// The entries of the named locks in their owner's list of holdings.
pub open spec fn rel_entries(rels: Seq<RelView>) -> Seq<Seq<char>> {
    Seq::new(rels.len(), |i: int| hold_text(rels[i].mode, rels[i].path))
}

/// Whether a row of a list of holdings is gone if it is one of the given entries,
/// and as it was if not.
pub open spec fn left_of_list(
    after: DbView,
    before: DbView,
    key: Seq<u8>,
    gone: Seq<Seq<char>>,
    k: Seq<u8>,
) -> bool {
    if is_row_of(key, gone, k) {
        !after.dom().contains((Cf::OwnerHolds, k))
    } else {
        same_at(after, before, (Cf::OwnerHolds, k))
    }
}

/// Giving up locks removes their entries from the list of holdings, and no others.
proof fn lemma_released_entries(db: DbView, now: u64, owner: Seq<char>, rels: Seq<RelView>)
    requires
        release_steps(db, now, owner, rels) is Ok,
    ensures
        forall|k: Seq<u8>| #[trigger]
            left_of_list(
                applied(db, steps_ops(now, release_steps(db, now, owner, rels)->Ok_0)),
                db,
                utf8(owner),
                rel_entries(rels),
                k,
            ),
    decreases rels.len(),
{
    let steps = release_steps(db, now, owner, rels)->Ok_0;
    let after = applied(db, steps_ops(now, steps));
    let key = utf8(owner);
    let entries = rel_entries(rels);
    if rels.len() == 0 {
        assert(steps_ops(now, steps) =~= Seq::<OpView>::empty());
    } else {
        let front = rels.drop_last();
        let rel = rels.last();
        let before = applied(db, steps_ops(now, steps.drop_last()));
        lemma_released_entries(db, now, owner, front);
        assert(steps.drop_last() =~= release_steps(db, now, owner, front)->Ok_0);
        lemma_applied_concat(
            db,
            steps_ops(now, steps.drop_last()),
            step_ops(now, steps.last()),
        );
        lemma_gives_up_entry(before, now, owner, rel.mode, rel.path, steps.last());
        assert(rel_entries(front) =~= entries.drop_last());
        assert forall|k: Seq<u8>| #[trigger] left_of_list(after, db, key, entries, k) by {
            let place = (Cf::OwnerHolds, k);
            let own = hold_place(rel.mode, rel.path, owner);
            assert(left_of_list(before, db, key, rel_entries(front), k));
            if is_row_of(key, rel_entries(front), k) {
                let i = choose|i: int|
                    0 <= i < front.len() && k == member_key_spec(
                        key,
                        #[trigger] rel_entries(front)[i],
                    );
                assert(entries[i] == rel_entries(front)[i]);
            }
            if is_row_of(key, entries, k) && k != own {
                let i = choose|i: int|
                    0 <= i < rels.len() && k == member_key_spec(key, #[trigger] entries[i]);
                assert(i < front.len());
                assert(rel_entries(front)[i] == entries[i]);
            }
            if k == own {
                assert(entries[rels.len() - 1] == hold_text(rel.mode, rel.path));
            } else {
                assert(same_at(after, before, place));
            }
        }
    }
}

proof fn lemma_gives_up_entry(
    db: DbView,
    now: u64,
    owner: Seq<char>,
    mode: Mode,
    path: Seq<char>,
    step: StepView,
)
    requires
        step == (StepView::Drop { owner, mode, path }) || step == (StepView::Forget {
            owner,
            mode,
            path,
        }),
    ensures
        !applied(db, step_ops(now, step)).dom().contains(
            (Cf::OwnerHolds, hold_place(mode, path, owner)),
        ),
        forall|k: Seq<u8>|
            k != hold_place(mode, path, owner) ==> #[trigger] same_at(
                applied(db, step_ops(now, step)),
                db,
                (Cf::OwnerHolds, k),
            ),
{
    let own = hold_place(mode, path, owner);
    let ops = step_ops(now, step);
    assert(ops.last() == (OpView::Delete { cf: Cf::OwnerHolds, key: own }));
    if step is Drop {
        lemma_drop(db, now, owner, mode, path);
        assert forall|k: Seq<u8>| k != own implies #[trigger] same_at(
            applied(db, ops),
            db,
            (Cf::OwnerHolds, k),
        ) by {
            assert(!of_lock(mode, path, owner, (Cf::OwnerHolds, k)));
        }
    } else {
        lemma_forget(db, now, owner, mode, path);
    }
}

/// The live holdings that are left once locks are given up are those that were not
/// named.
proof fn lemma_live_after_release(db: DbView, now: u64, owner: Seq<char>, rels: Seq<RelView>)
    requires
        release_steps(db, now, owner, rels) is Ok,
    ensures
        holds_besides(db, now, owner, rels) == has_live(
            applied(db, steps_ops(now, release_steps(db, now, owner, rels)->Ok_0)),
            now,
            Cf::OwnerHolds,
            utf8(owner),
        ),
{
    let cf = Cf::OwnerHolds;
    let after = applied(db, steps_ops(now, release_steps(db, now, owner, rels)->Ok_0));
    let prefix = member_prefix_spec(utf8(owner));
    let entries = rel_entries(rels);
    lemma_released_entries(db, now, owner, rels);
    if holds_besides(db, now, owner, rels) {
        let k = choose|k: Seq<u8>| #[trigger]
            db.dom().contains((cf, k)) && prefix.is_prefix_of(k) && live_text(db[(cf, k)], now)
                is Some && !is_row_of(utf8(owner), entries, k);
        assert(left_of_list(after, db, utf8(owner), entries, k));
        assert(after.dom().contains((cf, k)));
    }
    if has_live(after, now, cf, utf8(owner)) {
        let k = choose|k: Seq<u8>| #[trigger]
            after.dom().contains((cf, k)) && prefix.is_prefix_of(k) && live_text(
                after[(cf, k)],
                now,
            ) is Some;
        assert(left_of_list(after, db, utf8(owner), entries, k));
        assert(db.dom().contains((cf, k)));
    }
}

/// The steps that give up locks do nothing else, and drop only what is held.
pub proof fn lemma_release_gives_up(db: DbView, now: u64, o: Seq<char>, rels: Seq<RelView>, i: int)
    requires
        release_steps(db, now, o, rels) is Ok,
        0 <= i < release_steps(db, now, o, rels)->Ok_0.len(),
    ensures
        match release_steps(db, now, o, rels)->Ok_0[i] {
            StepView::Drop { owner, mode, path } => owner == o && rels.contains(
                RelView { path, mode },
            ) && (mode == Mode::Write ==> holding(db, now, Mode::Write, path, o)),
            StepView::Forget { owner, mode, path } => owner == o && mode == Mode::Write
                && rels.contains(RelView { path, mode }),
            _ => false,
        },
    decreases rels.len(),
{
    let front = rels.drop_last();
    let all = release_steps(db, now, o, rels)->Ok_0;
    let rest = release_steps(db, now, o, front)->Ok_0;
    if i < rest.len() {
        lemma_release_gives_up(db, now, o, front, i);
        assert(all[i] == rest[i]);
        if let StepView::Drop { mode, path, .. } = all[i] {
            let k = front.index_of(RelView { path, mode });
            assert(rels[k] == front[k]);
        }
        if let StepView::Forget { mode, path, .. } = all[i] {
            let k = front.index_of(RelView { path, mode });
            assert(rels[k] == front[k]);
        }
    } else {
        let rel = rels.last();
        assert(rels[rels.len() - 1] == rel);
        assert(rel == (RelView { path: rel.path, mode: rel.mode }));
    }
}

proof fn lemma_same_list(before: DbView, after: DbView, now: u64, key: Seq<u8>)
    requires
        forall|k: Seq<u8>| #[trigger] same_at(after, before, (Cf::OwnerHolds, k)),
    ensures
        has_live(after, now, Cf::OwnerHolds, key) == has_live(before, now, Cf::OwnerHolds, key),
{
    let cf = Cf::OwnerHolds;
    let prefix = member_prefix_spec(key);
    if has_live(after, now, cf, key) {
        let k = choose|k: Seq<u8>| #[trigger]
            after.dom().contains((cf, k)) && prefix.is_prefix_of(k) && live_text(
                after[(cf, k)],
                now,
            ) is Some;
        assert(same_at(after, before, (cf, k)));
        assert(before.dom().contains((cf, k)));
    }
    if has_live(before, now, cf, key) {
        let k = choose|k: Seq<u8>| #[trigger]
            before.dom().contains((cf, k)) && prefix.is_prefix_of(k) && live_text(
                before[(cf, k)],
                now,
            ) is Some;
        assert(same_at(after, before, (cf, k)));
        assert(after.dom().contains((cf, k)));
    }
}

/// An owner lives no longer than its last lock: after a release that leaves it
/// without a live holding, which is one that names every live holding, the owner is
/// not alive. While a live holding is left, a release says nothing of its life.
pub proof fn law_last_release_ends_life(
    db: DbView,
    now: u64,
    owner: Seq<char>,
    rels: Seq<RelView>,
    del_wait: bool,
)
    requires
        release_plan(db, now, owner, rels, del_wait) is Ok,
        rels.len() > 0,
    ensures
        ({
            let after = applied(
                db,
                steps_ops(now, release_plan(db, now, owner, rels, del_wait)->Ok_0),
            );
            let left = has_live(after, now, Cf::OwnerHolds, utf8(owner));
            &&& left == holds_besides(db, now, owner, rels)
            &&& !left ==> is_alive(after, now, owner) == Ok::<bool, ErrorView>(false)
            &&& left ==> is_alive(after, now, owner) == is_alive(db, now, owner)
        }),
{
    let steps = release_plan(db, now, owner, rels, del_wait)->Ok_0;
    let released = release_steps(db, now, owner, rels)->Ok_0;
    let mid = applied(db, steps_ops(now, released));
    let tail = steps.skip(released.len() as int);
    let left = has_live(mid, now, Cf::OwnerHolds, utf8(owner));
    assert(steps =~= released + tail);
    lemma_steps_concat(now, released, tail);
    lemma_applied_concat(db, steps_ops(now, released), steps_ops(now, tail));
    lemma_live_after_release(db, now, owner, rels);
    assert forall|i: int| 0 <= i < released.len() implies silent_on(#[trigger] released[i], owner) by {
        lemma_release_gives_up(db, now, owner, rels, i);
    }
    lemma_silent_steps(db, now, released, owner);
    let end = StepView::NotAlive { owner };
    let quiet = StepView::NoWait { owner };
    let after = applied(mid, steps_ops(now, tail));
    let wait: Seq<StepView> = if del_wait {
        seq![quiet]
    } else {
        Seq::empty()
    };
    if del_wait {
        lemma_one_step(now, quiet);
    } else {
        assert(steps_ops(now, wait) =~= Seq::empty());
    }
    let told = if left {
        mid
    } else {
        applied(mid, step_ops(now, end))
    };
    if left {
        assert(tail =~= wait);
    } else {
        assert(tail =~= seq![end] + wait);
        lemma_one_step(now, end);
        lemma_steps_concat(now, seq![end], wait);
        lemma_applied_concat(mid, step_ops(now, end), steps_ops(now, wait));
        lemma_single(mid, step_ops(now, end)[0]);
        lemma_other_step(mid, now, end);
    }
    assert(after == applied(told, steps_ops(now, wait)));
    lemma_silent_steps(told, now, wait, owner);
    if del_wait {
        lemma_other_step(told, now, quiet);
    }
    assert forall|k: Seq<u8>| #[trigger] same_at(after, mid, (Cf::OwnerHolds, k)) by {
        assert(same_at(told, mid, (Cf::OwnerHolds, k)));
        assert(same_at(after, told, (Cf::OwnerHolds, k)));
    }
    lemma_same_list(mid, after, now, utf8(owner));
}

// ---------------------------------------------------------------------------
// A lock stands
// ---------------------------------------------------------------------------

/// The store records a lock as the owner's, and the owner as alive, each with
/// its own expiry.
pub open spec fn stands(db: DbView, m: Mode, p: Seq<char>, x: Seq<char>) -> bool {
    let lock = lock_place(m, p, x);
    &&& text_at(db, lock, x, exp_at(db, lock))
    &&& db.dom().contains(life_at(x))
    &&& db[life_at(x)] matches Some(RecordView::Str { .. })
}

/// Whether a record that stands at a place has expired at time `t`.
pub open spec fn lapsed_at(db: DbView, t: u64, place: (Cf, Seq<u8>)) -> bool {
    db.dom().contains(place) && is_expired(exp_at(db, place), t)
}

/// Whether a lock, or the life of its owner, has expired at time `t`.
pub open spec fn lapsed(db: DbView, t: u64, m: Mode, p: Seq<char>, x: Seq<char>) -> bool {
    lapsed_at(db, t, lock_place(m, p, x)) || lapsed_at(db, t, life_at(x))
}

/// Whether a command gives up the lock of an owner.
pub open spec fn gives_up(op: OpKind, m: Mode, p: Seq<char>, x: Seq<char>) -> bool {
    let lock = RelView { path: p, mode: m };
    match op {
        OpKind::Acquire(args) => args.owner == x && args.releases.contains(lock),
        OpKind::Release { owner, reqs, .. } => owner == x && reqs.contains(lock),
        OpKind::ReleaseAll { owner, .. } => owner == x,
        OpKind::ForceRelease { victim } => victim == x,
        _ => false,
    }
}

/// Until it has expired, a lock that stands is held, by an owner that is alive.
pub proof fn lemma_stands(db: DbView, t: u64, m: Mode, p: Seq<char>, x: Seq<char>)
    requires
        stands(db, m, p, x),
        !lapsed(db, t, m, p, x),
    ensures
        holding(db, t, m, p, x),
        is_alive(db, t, x) == Ok::<bool, ErrorView>(true),
{
}

/// A granted lock stands, with its owner alive, until the lease is over and no longer:
/// lock and life end together, when the lifetime that was asked for has passed.
pub proof fn law_granted_stands(db: DbView, now: u64, args: ArgsView, i: int)
    requires
        acquire_plan(db, now, args) matches Ok((AcquireView::Granted, _)),
        0 <= i < args.requests.len(),
    ensures
        ({
            let after = applied(db, steps_ops(now, acquire_plan(db, now, args)->Ok_0.1));
            let lease = expiry_time(now, args.ttl);
            let (m, p) = (args.requests[i].mode, args.requests[i].path);
            &&& stands(after, m, p, args.owner)
            &&& exp_at(after, lock_place(m, p, args.owner)) == lease
            &&& exp_at(after, life_at(args.owner)) == lease
        }),
{
    let o = args.owner;
    lemma_check_never_grants(db, now, o, args.token, args.requests);
    let steps = acquire_plan(db, now, args)->Ok_0.1;
    let clear = check_requests(db, now, o, args.token, args.requests)->Ok_0->Ok_0;
    let alive = alive_steps(o, args.ttl, args.requests);
    let released = release_steps(db, now, o, args.releases)->Ok_0;
    let granted = grants(o, args.ttl, args.token, args.requests);
    let cleared = applied(db, steps_ops(now, clear));
    let living = applied(cleared, steps_ops(now, alive));
    let freed = applied(living, steps_ops(now, released));
    lemma_steps_concat(now, clear, alive);
    lemma_steps_concat(now, clear + alive, released);
    lemma_steps_concat(now, clear + alive + released, granted);
    lemma_applied_concat(db, steps_ops(now, clear), steps_ops(now, alive));
    lemma_applied_concat(db, steps_ops(now, clear + alive), steps_ops(now, released));
    lemma_applied_concat(db, steps_ops(now, clear + alive + released), steps_ops(now, granted));
    lemma_one_step(now, alive[0]);
    assert(alive =~= seq![alive[0]]);
    lemma_put_text_places(cleared, now, Cf::OwnerAlive, utf8(o), "1"@, args.ttl);
    assert forall|k: int| 0 <= k < released.len() implies silent_on(#[trigger] released[k], o) by {
        lemma_release_gives_up(db, now, o, args.releases, k);
    }
    lemma_silent_steps(living, now, released, o);
    lemma_grants_silent(o, args.ttl, args.token, args.requests, o);
    lemma_silent_steps(freed, now, granted, o);
    lemma_grants_hold(freed, now, o, args.ttl, args.token, args.requests, i);
}

/// The same of the command: what it leaves in the store is the lock and the life of its
/// owner, with one expiry.
pub proof fn law_granted_command_stands(db: DbView, now: u64, args: ArgsView, i: int)
    requires
        command_effect(db, now, OpKind::Acquire(args)) matches Ok((response, _)) && response
            == ResponseView::Acquire(AcquireView::Granted),
        0 <= i < args.requests.len(),
    ensures
        ({
            let after = applied(db, command_effect(db, now, OpKind::Acquire(args))->Ok_0.1);
            let lease = expiry_time(now, args.ttl);
            let (m, p) = (args.requests[i].mode, args.requests[i].path);
            &&& stands(after, m, p, args.owner)
            &&& exp_at(after, lock_place(m, p, args.owner)) == lease
            &&& exp_at(after, life_at(args.owner)) == lease
        }),
{
    lemma_effect(db, now, OpKind::Acquire(args));
    law_granted_stands(db, now, args, i);
}

proof fn lemma_grants_silent(
    o: Seq<char>,
    ttl: u64,
    token: i64,
    reqs: Seq<ReqView>,
    x: Seq<char>,
)
    ensures
        forall|i: int|
            0 <= i < grants(o, ttl, token, reqs).len() ==> silent_on(
                #[trigger] grants(o, ttl, token, reqs)[i],
                x,
            ),
    decreases reqs.len(),
{
    if reqs.len() > 0 {
        let rest = grants(o, ttl, token, reqs.drop_last());
        let more = grant(o, ttl, token, reqs.last());
        let all = grants(o, ttl, token, reqs);
        lemma_grants_silent(o, ttl, token, reqs.drop_last(), x);
        assert forall|i: int| 0 <= i < all.len() implies silent_on(#[trigger] all[i], x) by {
            if i < rest.len() {
                assert(all[i] == rest[i]);
            } else {
                assert(all[i] == more[i - rest.len()]);
            }
        }
    }
}

/// Whether a step leaves the lock of `x` on `p` to it, and `x` alive.
spec fn spares(step: StepView, m: Mode, p: Seq<char>, x: Seq<char>) -> bool {
    match step {
        StepView::Hold { owner, mode, path, .. } => m == Mode::Write && mode == m && path == p
            ==> owner == x,
        StepView::Drop { owner, mode, path } => !(mode == m && path == p && (m == Mode::Write
            || owner == x)),
        StepView::NotAlive { owner } => owner != x,
        _ => true,
    }
}

spec fn all_spare(steps: Seq<StepView>, m: Mode, p: Seq<char>, x: Seq<char>) -> bool {
    forall|i: int| 0 <= i < steps.len() ==> spares(#[trigger] steps[i], m, p, x)
}

proof fn lemma_spared(db: DbView, now: u64, step: StepView, m: Mode, p: Seq<char>, x: Seq<char>)
    requires
        nul_free(p),
        nul_free(x),
        stands(db, m, p, x),
        spares(step, m, p, x),
    ensures
        stands(applied(db, step_ops(now, step)), m, p, x),
{
    let after = applied(db, step_ops(now, step));
    let lock = lock_place(m, p, x);
    match step {
        StepView::Hold { owner, mode, path, ttl } => {
            lemma_hold(db, now, owner, mode, path, ttl);
            if lock_place(mode, path, owner) == lock {
                lemma_lock_place_unique(mode, path, owner, m, p, x);
            } else {
                assert(!of_lock(mode, path, owner, lock));
                assert(same_at(after, db, lock));
            }
        },
        StepView::Drop { owner, mode, path } => {
            lemma_drop(db, now, owner, mode, path);
            if lock_place(mode, path, owner) == lock {
                lemma_lock_place_unique(mode, path, owner, m, p, x);
            }
            assert(!of_lock(mode, path, owner, lock));
            assert(same_at(after, db, lock));
        },
        StepView::Forget { owner, mode, path } => {
            lemma_forget(db, now, owner, mode, path);
            assert(same_at(after, db, lock));
        },
        _ => {
            lemma_other_step(db, now, step);
            assert(same_at(after, db, lock));
        },
    }
    if silent_on(step, x) {
        lemma_silent_step(db, now, step, x);
    } else if let StepView::Alive { owner, ttl } = step {
        lemma_put_text_places(db, now, Cf::OwnerAlive, utf8(owner), "1"@, ttl);
    }
}

proof fn lemma_all_spared(db: DbView, now: u64, steps: Seq<StepView>, m: Mode, p: Seq<char>, x: Seq<char>)
    requires
        nul_free(p),
        nul_free(x),
        stands(db, m, p, x),
        all_spare(steps, m, p, x),
    ensures
        stands(applied(db, steps_ops(now, steps)), m, p, x),
    decreases steps.len(),
{
    if steps.len() > 0 {
        let front = steps.drop_last();
        assert forall|i: int| 0 <= i < front.len() implies spares(#[trigger] front[i], m, p, x) by {
            assert(front[i] == steps[i]);
        }
        lemma_all_spared(db, now, front, m, p, x);
        assert(spares(steps[steps.len() - 1], m, p, x));
        lemma_applied_concat(db, steps_ops(now, front), step_ops(now, steps.last()));
        lemma_spared(applied(db, steps_ops(now, front)), now, steps.last(), m, p, x);
    }
}

proof fn lemma_spare_concat(a: Seq<StepView>, b: Seq<StepView>, m: Mode, p: Seq<char>, x: Seq<char>)
    requires
        all_spare(a, m, p, x),
        all_spare(b, m, p, x),
    ensures
        all_spare(a + b, m, p, x),
{
    let all = a + b;
    assert forall|i: int| 0 <= i < all.len() implies spares(#[trigger] all[i], m, p, x) by {
        if i < a.len() {
            assert(all[i] == a[i]);
        } else {
            assert(all[i] == b[i - a.len()]);
        }
    }
}

/// Giving up locks spares a lock that is held and not among them.
proof fn lemma_release_spares(
    db: DbView,
    now: u64,
    o: Seq<char>,
    rels: Seq<RelView>,
    m: Mode,
    p: Seq<char>,
    x: Seq<char>,
)
    requires
        release_steps(db, now, o, rels) is Ok,
        holding(db, now, m, p, x),
        o == x ==> !rels.contains(RelView { path: p, mode: m }),
    ensures
        all_spare(release_steps(db, now, o, rels)->Ok_0, m, p, x),
{
    let steps = release_steps(db, now, o, rels)->Ok_0;
    assert forall|i: int| 0 <= i < steps.len() implies spares(#[trigger] steps[i], m, p, x) by {
        lemma_release_gives_up(db, now, o, rels, i);
    }
}

/// What is cleared away was found, with another owner.
proof fn lemma_cleared_was_found(o: Seq<char>, found: Seq<BlockerView>, i: int)
    requires
        0 <= i < clearing(o, found).len(),
    ensures
        match clearing(o, found)[i] {
            StepView::Drop { owner, mode, path } => owner != o && exists|j: int|
                0 <= j < found.len() && (#[trigger] found[j]).owner == owner && found[j].path
                    == path && lock_of(found[j].reason) == Some(mode),
            StepView::DropClaim { .. } => true,
            _ => false,
        },
    decreases found.len(),
{
    let front = found.drop_last();
    let rest = clearing(o, front);
    let step = clearing(o, found)[i];
    if i < rest.len() {
        lemma_cleared_was_found(o, front, i);
        assert(step == rest[i]);
        if let StepView::Drop { owner, mode, path } = step {
            let j = choose|j: int|
                0 <= j < front.len() && (#[trigger] front[j]).owner == owner && front[j].path
                    == path && lock_of(front[j].reason) == Some(mode);
            assert(found[j] == front[j]);
        }
    } else {
        assert(found[found.len() - 1] == found.last());
    }
}

/// Taking locks clears no lock of a live owner away.
proof fn lemma_check_spares(
    db: DbView,
    now: u64,
    o: Seq<char>,
    token: i64,
    reqs: Seq<ReqView>,
    m: Mode,
    p: Seq<char>,
    x: Seq<char>,
)
    requires
        check_requests(db, now, o, token, reqs) matches Ok(Ok(_)),
        holding(db, now, m, p, x),
        is_alive(db, now, x) == Ok::<bool, ErrorView>(true),
    ensures
        all_spare(check_requests(db, now, o, token, reqs)->Ok_0->Ok_0, m, p, x),
    decreases reqs.len(),
{
    if reqs.len() > 0 {
        let front = reqs.drop_last();
        let req = reqs.last();
        lemma_check_spares(db, now, o, token, front, m, p, x);
        let rest = check_requests(db, now, o, token, front)->Ok_0->Ok_0;
        let more = check_request(db, now, o, token, req)->Ok_0->Ok_0;
        if req.state == State::New {
            let found = overlapping(db, now, req.path, req.mode)->Ok_0;
            lemma_overlapping_real(db, now, req.path, req.mode);
            assert forall|i: int| 0 <= i < more.len() implies spares(#[trigger] more[i], m, p, x) by {
                lemma_cleared_was_found(o, found, i);
                if let StepView::Drop { owner, mode, path } = more[i] {
                    if mode == m && path == p && (m == Mode::Write || owner == x) {
                        let j = choose|j: int|
                            0 <= j < found.len() && (#[trigger] found[j]).owner == owner
                                && found[j].path == path && lock_of(found[j].reason) == Some(mode);
                        assert(holding(db, now, m, p, found[j].owner));
                        lemma_nobody_live(db, now, o, found, j);
                    }
                }
            }
        }
        lemma_spare_concat(rest, more, m, p, x);
    }
}

/// Nobody else is granted a lock that a live owner holds.
proof fn lemma_grants_spare(
    db: DbView,
    now: u64,
    o: Seq<char>,
    ttl: u64,
    token: i64,
    reqs: Seq<ReqView>,
    m: Mode,
    p: Seq<char>,
    x: Seq<char>,
)
    requires
        sound(db, now),
        nul_free(p),
        nul_free(x),
        check_requests(db, now, o, token, reqs) matches Ok(Ok(_)),
        holding(db, now, m, p, x),
        is_alive(db, now, x) == Ok::<bool, ErrorView>(true),
    ensures
        all_spare(grants(o, ttl, token, reqs), m, p, x),
    decreases reqs.len(),
{
    if reqs.len() > 0 {
        let front = reqs.drop_last();
        let req = reqs.last();
        lemma_grants_spare(db, now, o, ttl, token, front, m, p, x);
        if m == Mode::Write && req.mode == m && req.path == p && o != x {
            assert(check_request(db, now, o, token, req) matches Ok(Ok(_)));
            match req.state {
                State::Held => {
                    assert(holding(db, now, Mode::Write, p, o));
                },
                State::New => {
                    let found = overlapping(db, now, p, Mode::Write)->Ok_0;
                    lemma_search_finds(db, now, p, Mode::Write, Mode::Write, p, x);
                    let k = choose|k: int|
                        0 <= k < found.len() && (#[trigger] found[k]).path == p && found[k].owner
                            == x && lock_of(found[k].reason) == Some(Mode::Write);
                    lemma_nobody_live(db, now, o, found, k);
                },
            }
        }
        let more = grant(o, ttl, token, req);
        assert forall|i: int| 0 <= i < more.len() implies spares(#[trigger] more[i], m, p, x) by {}
        lemma_spare_concat(grants(o, ttl, token, front), more, m, p, x);
    }
}

proof fn lemma_acquire_spares(db: DbView, now: u64, args: ArgsView, m: Mode, p: Seq<char>, x: Seq<char>)
    requires
        sound(db, now),
        nul_free(p),
        nul_free(x),
        acquire_plan(db, now, args) is Ok,
        holding(db, now, m, p, x),
        is_alive(db, now, x) == Ok::<bool, ErrorView>(true),
        !gives_up(OpKind::Acquire(args), m, p, x),
    ensures
        all_spare(acquire_plan(db, now, args)->Ok_0.1, m, p, x),
{
    let (outcome, steps) = acquire_plan(db, now, args)->Ok_0;
    if steps.len() > 0 {
        let clear = check_requests(db, now, args.owner, args.token, args.requests)->Ok_0->Ok_0;
        let alive = alive_steps(args.owner, args.ttl, args.requests);
        let released = release_steps(db, now, args.owner, args.releases)->Ok_0;
        let granted = grants(args.owner, args.ttl, args.token, args.requests);
        lemma_check_spares(db, now, args.owner, args.token, args.requests, m, p, x);
        lemma_release_spares(db, now, args.owner, args.releases, m, p, x);
        lemma_grants_spare(db, now, args.owner, args.ttl, args.token, args.requests, m, p, x);
        assert(all_spare(alive, m, p, x));
        lemma_spare_concat(clear, alive, m, p, x);
        lemma_spare_concat(clear + alive, released, m, p, x);
        lemma_spare_concat(clear + alive + released, granted, m, p, x);
    }
}

/// An owner that keeps a lock has a live holding left.
proof fn lemma_keeps_a_holding(
    db: DbView,
    now: u64,
    x: Seq<char>,
    rels: Seq<RelView>,
    m: Mode,
    p: Seq<char>,
)
    requires
        sound(db, now),
        nul_free(p),
        nul_free(x),
        release_steps(db, now, x, rels) is Ok,
        holding(db, now, m, p, x),
        !rels.contains(RelView { path: p, mode: m }),
    ensures
        has_live(
            applied(db, steps_ops(now, release_steps(db, now, x, rels)->Ok_0)),
            now,
            Cf::OwnerHolds,
            utf8(x),
        ),
{
    let key = utf8(x);
    let k = hold_place(m, p, x);
    let entry = hold_text(m, p);
    let entries = rel_entries(rels);
    let after = applied(db, steps_ops(now, release_steps(db, now, x, rels)->Ok_0));
    assert(recorded(db, m, p, x));
    assert(db.dom().contains((Cf::OwnerHolds, k)));
    lemma_released_entries(db, now, x, rels);
    assert(left_of_list(after, db, key, entries, k));
    if is_row_of(key, entries, k) {
        let i = choose|i: int|
            0 <= i < entries.len() && k == member_key_spec(key, #[trigger] entries[i]);
        let named = hold_text(rels[i].mode, rels[i].path);
        lemma_same_member(key, entry, named);
        law_hold_reads_back(m, p);
        law_hold_reads_back(rels[i].mode, rels[i].path);
        assert(rels[i] == (RelView { path: p, mode: m }));
    }
    assert(member_prefix_spec(key) =~= k.take(member_prefix_spec(key).len() as int));
    assert(after.dom().contains((Cf::OwnerHolds, k)));
}

/// The rows of a set tell its members apart.
proof fn lemma_same_member(key: Seq<u8>, a: Seq<char>, b: Seq<char>)
    requires
        member_key_spec(key, a) == member_key_spec(key, b),
    ensures
        a == b,
{
    let n = member_prefix_spec(key).len() as int;
    assert(member_key_spec(key, a).skip(n) =~= utf8(a));
    assert(member_key_spec(key, b).skip(n) =~= utf8(b));
    lemma_utf8_injective(a, b);
}

proof fn lemma_renew_spares(
    db: DbView,
    now: u64,
    o: Seq<char>,
    ttl: u64,
    locks: Seq<RelView>,
    m: Mode,
    p: Seq<char>,
    x: Seq<char>,
)
    requires
        renew_steps(db, now, o, ttl, locks) matches Ok(Ok(_)),
        holding(db, now, m, p, x),
    ensures
        all_spare(renew_steps(db, now, o, ttl, locks)->Ok_0->Ok_0, m, p, x),
    decreases locks.len(),
{
    if locks.len() > 0 {
        let front = locks.drop_last();
        let lock = locks.last();
        lemma_renew_spares(db, now, o, ttl, front, m, p, x);
        let rest = renew_steps(db, now, o, ttl, front)->Ok_0->Ok_0;
        let fence = keep_fence(db, now, ttl, lock)->Ok_0;
        let hold = StepView::Hold { owner: o, mode: lock.mode, path: lock.path, ttl };
        assert(holding(db, now, lock.mode, lock.path, o));
        assert(spares(hold, m, p, x));
        assert(rest.push(hold) =~= rest + seq![hold]);
        lemma_spare_concat(rest, seq![hold], m, p, x);
        lemma_spare_concat(rest.push(hold), fence, m, p, x);
    }
}

proof fn lemma_release_all_spares(
    db: DbView,
    now: u64,
    o: Seq<char>,
    del_wait: bool,
    m: Mode,
    p: Seq<char>,
    x: Seq<char>,
)
    requires
        release_all_plan(db, now, o, del_wait) is Ok,
        holding(db, now, m, p, x),
        o != x,
    ensures
        all_spare(release_all_plan(db, now, o, del_wait)->Ok_0, m, p, x),
{
    let steps = release_all_plan(db, now, o, del_wait)->Ok_0;
    let rels = all_holdings(db, now, o);
    let released = release_steps(db, now, o, rels)->Ok_0;
    let tail = steps.skip(released.len() as int);
    lemma_release_spares(db, now, o, rels, m, p, x);
    assert(steps =~= released + tail);
    lemma_spare_concat(released, tail, m, p, x);
}

proof fn lemma_release_plan_spares(
    db: DbView,
    now: u64,
    o: Seq<char>,
    rels: Seq<RelView>,
    del_wait: bool,
    m: Mode,
    p: Seq<char>,
    x: Seq<char>,
)
    requires
        sound(db, now),
        nul_free(p),
        nul_free(x),
        release_plan(db, now, o, rels, del_wait) is Ok,
        holding(db, now, m, p, x),
        o == x ==> !rels.contains(RelView { path: p, mode: m }),
    ensures
        all_spare(release_plan(db, now, o, rels, del_wait)->Ok_0, m, p, x),
{
    let steps = release_plan(db, now, o, rels, del_wait)->Ok_0;
    let released = release_steps(db, now, o, rels)->Ok_0;
    let tail = steps.skip(released.len() as int);
    lemma_release_spares(db, now, o, rels, m, p, x);
    if o == x {
        lemma_keeps_a_holding(db, now, x, rels, m, p);
    }
    assert(steps =~= released + tail);
    lemma_spare_concat(released, tail, m, p, x);
}

proof fn lemma_sweep_spares(
    db: DbView,
    now: u64,
    op: OpKind,
    m: Mode,
    p: Seq<char>,
    x: Seq<char>,
)
    requires
        op is GcSweep,
        stands(db, m, p, x),
        !lapsed(db, effect_time(now, op), m, p, x),
    ensures
        stands(applied(db, command_writes(db, now, op)->Ok_0.1), m, p, x),
{
    if let OpKind::GcSweep { now_ms, batch } = op {
        let after = applied(db, command_writes(db, now, op)->Ok_0.1);
        law_sweep_is_invisible(db, now_ms, batch as nat, effect_time(now, op), Cf::WriteLocks);
        assert(db.dom().contains(lock_place(m, p, x)));
        assert(after.dom().contains(lock_place(m, p, x)));
        assert(after.dom().contains(life_at(x)));
    }
}

proof fn lemma_writes_spare(db: DbView, now: u64, op: OpKind, m: Mode, p: Seq<char>, x: Seq<char>)
    requires
        sound(db, now),
        nul_free(p),
        nul_free(x),
        command_writes(db, now, op) is Ok,
        stands(db, m, p, x),
        !lapsed(db, effect_time(now, op), m, p, x),
        !gives_up(op, m, p, x),
    ensures
        stands(applied(db, command_writes(db, now, op)->Ok_0.1), m, p, x),
{
    lemma_stands(db, now, m, p, x);
    match op {
        OpKind::Acquire(args) => {
            lemma_acquire_spares(db, now, args, m, p, x);
            lemma_all_spared(db, now, acquire_plan(db, now, args)->Ok_0.1, m, p, x);
        },
        OpKind::Release { owner, reqs, del_wait } => {
            lemma_release_plan_spares(db, now, owner, reqs, del_wait, m, p, x);
            let steps = release_plan(db, now, owner, reqs, del_wait)->Ok_0;
            lemma_all_spared(db, now, steps, m, p, x);
        },
        OpKind::ReleaseAll { owner, del_wait } => {
            lemma_release_all_spares(db, now, owner, del_wait, m, p, x);
            let steps = release_all_plan(db, now, owner, del_wait)->Ok_0;
            lemma_all_spared(db, now, steps, m, p, x);
        },
        OpKind::ForceRelease { victim } => {
            lemma_release_all_spares(db, now, victim, true, m, p, x);
            lemma_all_spared(db, now, release_all_plan(db, now, victim, true)->Ok_0, m, p, x);
        },
        OpKind::Renew { owner, ttl_ms } => {
            let (_, steps) = renew_plan(db, now, owner, ttl_ms)->Ok_0;
            if steps.len() > 0 {
                let locks = holdings(db, now, owner)->Ok_0;
                let renewed = renew_steps(db, now, owner, ttl_ms, locks)->Ok_0->Ok_0;
                let alive = StepView::Alive { owner, ttl: ttl_ms };
                lemma_renew_spares(db, now, owner, ttl_ms, locks, m, p, x);
                assert(steps =~= renewed + seq![alive]);
                lemma_spare_concat(renewed, seq![alive], m, p, x);
            }
            lemma_all_spared(db, now, steps, m, p, x);
        },
        OpKind::SetClaim { path, claimant, ttl_ms } => {
            let step = StepView::Claim { path, claimant, ttl: claim_ttl(ttl_ms) };
            lemma_all_spared(db, now, seq![step], m, p, x);
        },
        OpKind::SetWaitEdge { owner, conflict_owner, metadata, ttl_ms } => {
            let step = StepView::Wait {
                owner,
                edge: edge_text(conflict_owner, metadata),
                ttl: ttl_ms,
            };
            lemma_all_spared(db, now, seq![step], m, p, x);
        },
        OpKind::ClearWaitEdge { owner } => {
            lemma_all_spared(db, now, seq![StepView::NoWait { owner }], m, p, x);
        },
        OpKind::GcSweep { .. } => {
            lemma_sweep_spares(db, now, op, m, p, x);
        },
        OpKind::IncrFence => {
            lemma_single(db, put_counter(next_token(fence_counter(db)->Ok_0)));
        },
    }
}

/// A lock stands: no command takes it from its owner, or ends its owner's life,
/// unless it is one by which the owner gives it up (or is made to), or one of the two
/// has expired when the command takes effect.
pub proof fn law_lock_stands(db: DbView, now: u64, op: OpKind, m: Mode, p: Seq<char>, x: Seq<char>)
    requires
        sound(db, now),
        nul_free(p),
        nul_free(x),
        command_effect(db, now, op) is Ok,
        stands(db, m, p, x),
        !lapsed(db, effect_time(now, op), m, p, x),
        !gives_up(op, m, p, x),
    ensures
        stands(applied(db, command_effect(db, now, op)->Ok_0.1), m, p, x),
{
    lemma_effect(db, now, op);
    lemma_writes_spare(db, now, op, m, p, x);
}

} // verus!
