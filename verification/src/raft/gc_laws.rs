//! Garbage collection misses nothing: every record that expires is listed in the
//! expiry index, ahead of the sweep's position, until a sweep takes it.

use vstd::prelude::*;
use crate::db::{applied, lemma_applied_concat, lemma_applied_finite, DbView, OpView};
use crate::engine::edge::edge_text;
use crate::engine::laws::effect_time;
use crate::engine::ops::{acquire_plan, claim_ttl, release_all_plan, release_plan, renew_plan};
use crate::engine::path::ancestors;
use crate::engine::places::lemma_single;
use crate::engine::steps::{
    delete_index, fence_ttl, hold_place, hold_text, lock_index, lock_place, put_index, step_ops,
    steps_ops, StepView,
};
use crate::order::{
    lemma_be64_order, lemma_lex_irreflexive, lemma_lex_total, lemma_lex_transitive, lex_lt,
};
use crate::raft::command::{OpKind, ResponseView};
use crate::raft::state_machine::{
    command_effect, command_writes, fence_counter, fence_counter_key, gc_cursor, gc_cursor_key,
    holds_expired, last_applied, last_applied_key, leading_below, lemma_effect,
    lemma_meta_keys_differ, lemma_reclaimed_step, next_token, points_at, put_counter, reclaimed,
    sweep_entry, sweep_ops, sweep_writes, swept_rows, unswept_rows,
};
use crate::store_keys::{
    be64, decode_expiry_spec, expiry_key_spec, expiry_scan_upper_spec, expiry_time, index_time,
    law_index_follows_expiry, lemma_expiry_key_decodes, member_key_spec, Cf, INDEX_SLOT_MS,
};
use crate::store_laws::{
    law_sweep_takes_what_is_due, lemma_keys_after, lemma_leading_all, lemma_put_text_places,
    lemma_sweep_writes,
};
use crate::store_rocksdb::{put_text, RecordView};
use crate::text::utf8;

verus! {

/// Whether a column family holds records that sweeps reclaim.
pub open spec fn is_swept_cf(cf: Cf) -> bool {
    cf != Cf::Expiry && cf != Cf::Meta
}

/// Whether the index lists a place under time `t`, ahead of the sweep's position.
pub open spec fn listed_at(db: DbView, cf: Cf, key: Seq<u8>, t: u64) -> bool {
    &&& db.dom().contains((Cf::Expiry, expiry_key_spec(t, cf, key)))
    &&& gc_cursor(db) matches Some(c) ==> lex_lt(c, expiry_key_spec(t, cf, key))
}

/// Whether the index lists a record that expires at `exp`: no earlier than that, and
/// less than a slot later.
pub open spec fn listed(db: DbView, cf: Cf, key: Seq<u8>, exp: u64) -> bool {
    exists|t: u64| exp <= t < exp + INDEX_SLOT_MS && #[trigger] listed_at(db, cf, key, t)
}

/// Whether a record at a place expires at `exp`.
pub open spec fn expires_at(db: DbView, cf: Cf, key: Seq<u8>, exp: u64) -> bool {
    exp != 0 && db.dom().contains((cf, key)) && (db[(cf, key)] matches Some(
        RecordView::Str { exp: e, .. },
    ) && e == exp)
}

/// Whether the index lists only records that sweeps reclaim.
pub open spec fn lists_records(db: DbView) -> bool {
    forall|k: Seq<u8>| #[trigger]
        db.dom().contains((Cf::Expiry, k)) ==> (decode_expiry_spec(k) matches Some((_, cf, _))
            ==> is_swept_cf(cf))
}

/// Whether every record that expires is listed, nothing else is, and the sweep's
/// position lies in the past.
pub open spec fn all_listed(db: DbView, clock: u64) -> bool {
    &&& db.dom().finite()
    &&& lists_records(db)
    &&& gc_cursor(db) matches Some(c) ==> lex_lt(c, expiry_scan_upper_spec(clock))
    &&& forall|cf: Cf, key: Seq<u8>, exp: u64|
        is_swept_cf(cf) && #[trigger] expires_at(db, cf, key, exp) ==> listed(db, cf, key, exp)
}

/// What sorts before the entries due by one time sorts before those due by a later one.
proof fn lemma_upper_grows(c: Seq<u8>, now: u64, later: u64)
    requires
        lex_lt(c, expiry_scan_upper_spec(now)),
        now <= later,
    ensures
        lex_lt(c, expiry_scan_upper_spec(later)),
{
    let a: u64 = if now == u64::MAX { now } else { (now + 1) as u64 };
    let b: u64 = if later == u64::MAX { later } else { (later + 1) as u64 };
    if a < b {
        lemma_be64_order(a, Seq::empty(), b);
        assert(be64(a) + Seq::<u8>::empty() =~= be64(a));
        lemma_lex_transitive(c, be64(a), be64(b));
    }
}

/// An entry for a time after `now` sorts behind everything before the entries due by
/// `now`.
proof fn lemma_entry_is_ahead(c: Seq<u8>, now: u64, t: u64, cf: Cf, key: Seq<u8>)
    requires
        lex_lt(c, expiry_scan_upper_spec(now)),
        t > now || t == u64::MAX,
    ensures
        lex_lt(c, expiry_key_spec(t, cf, key)),
{
    let b: u64 = if now == u64::MAX { now } else { (now + 1) as u64 };
    let k = expiry_key_spec(t, cf, key);
    let tail = k.skip(8);
    assert(k =~= be64(t) + tail);
    lemma_be64_order(t, tail, b);
    lemma_lex_total(k, be64(b));
    if k != be64(b) {
        lemma_lex_transitive(c, be64(b), k);
    }
}

/// Time passing keeps everything listed.
pub proof fn law_listing_lasts(db: DbView, clock: u64, later: u64)
    requires
        all_listed(db, clock),
        clock <= later,
    ensures
        all_listed(db, later),
{
    if let Some(c) = gc_cursor(db) {
        lemma_upper_grows(c, clock, later);
    }
}

/// A store without rows lists everything.
pub proof fn law_empty_store_is_listed(clock: u64)
    ensures
        all_listed(Map::<(Cf, Seq<u8>), Option<RecordView>>::empty(), clock),
{
}

/// A store that has the same position and at least the same entries lists what it
/// listed.
proof fn lemma_still_listed(db: DbView, after: DbView, cf: Cf, key: Seq<u8>, exp: u64)
    requires
        listed(db, cf, key, exp),
        gc_cursor(after) == gc_cursor(db),
        forall|k: Seq<u8>|
            db.dom().contains((Cf::Expiry, k)) ==> #[trigger] after.dom().contains((Cf::Expiry, k)),
    ensures
        listed(after, cf, key, exp),
{
    let t = choose|t: u64| exp <= t < exp + INDEX_SLOT_MS && #[trigger] listed_at(db, cf, key, t);
    assert(listed_at(after, cf, key, t));
}

/// Writing a text keeps everything listed.
proof fn lemma_put_keeps(db: DbView, now: u64, cf: Cf, key: Seq<u8>, v: Seq<char>, ttl: u64)
    requires
        all_listed(db, now),
        is_swept_cf(cf),
    ensures
        all_listed(applied(db, put_text(now, cf, key, v, ttl)), now),
{
    let after = applied(db, put_text(now, cf, key, v, ttl));
    let exp = expiry_time(now, ttl);
    let slot = index_time(exp, ttl);
    lemma_put_text_places(db, now, cf, key, v, ttl);
    lemma_applied_finite(db, put_text(now, cf, key, v, ttl));
    law_index_follows_expiry(exp, ttl);
    lemma_expiry_key_decodes(slot, cf, key);
    assert(gc_cursor(after) == gc_cursor(db));
    assert forall|c: Cf, k: Seq<u8>, e: u64|
        is_swept_cf(c) && #[trigger] expires_at(after, c, k, e) implies listed(after, c, k, e) by {
        if (c, k) == (cf, key) {
            assert(e == exp && ttl > 0);
            if let Some(cursor) = gc_cursor(db) {
                lemma_entry_is_ahead(cursor, now, slot, cf, key);
            }
            assert(listed_at(after, cf, key, slot));
        } else {
            assert(expires_at(db, c, k, e));
            lemma_still_listed(db, after, c, k, e);
        }
    }
}

/// Removing a record keeps everything listed.
proof fn lemma_delete_keeps(db: DbView, now: u64, cf: Cf, key: Seq<u8>)
    requires
        all_listed(db, now),
        is_swept_cf(cf),
    ensures
        all_listed(applied(db, seq![OpView::Delete { cf, key }]), now),
{
    let op = OpView::Delete { cf, key };
    let after = applied(db, seq![op]);
    lemma_single(db, op);
    lemma_applied_finite(db, seq![op]);
    assert forall|c: Cf, k: Seq<u8>, e: u64|
        is_swept_cf(c) && #[trigger] expires_at(after, c, k, e) implies listed(after, c, k, e) by {
        assert(expires_at(db, c, k, e));
        lemma_still_listed(db, after, c, k, e);
    }
}

proof fn lemma_put_index_keeps(
    db: DbView,
    now: u64,
    cf: Cf,
    ups: Seq<Seq<char>>,
    entry: Seq<char>,
    ttl: u64,
)
    requires
        all_listed(db, now),
        is_swept_cf(cf),
    ensures
        all_listed(applied(db, put_index(now, cf, ups, entry, ttl)), now),
    decreases ups.len(),
{
    if ups.len() > 0 {
        let front = put_index(now, cf, ups.drop_last(), entry, ttl);
        let key = member_key_spec(utf8(ups.last()), entry);
        lemma_put_index_keeps(db, now, cf, ups.drop_last(), entry, ttl);
        lemma_applied_concat(db, front, put_text(now, cf, key, entry, ttl));
        lemma_put_keeps(applied(db, front), now, cf, key, entry, ttl);
    }
}

proof fn lemma_delete_index_keeps(
    db: DbView,
    now: u64,
    cf: Cf,
    ups: Seq<Seq<char>>,
    entry: Seq<char>,
)
    requires
        all_listed(db, now),
        is_swept_cf(cf),
    ensures
        all_listed(applied(db, delete_index(cf, ups, entry)), now),
    decreases ups.len(),
{
    let all = delete_index(cf, ups, entry);
    if ups.len() > 0 {
        let front = delete_index(cf, ups.drop_last(), entry);
        let key = member_key_spec(utf8(ups.last()), entry);
        let last = seq![OpView::Delete { cf, key }];
        assert(all =~= front + last);
        lemma_delete_index_keeps(db, now, cf, ups.drop_last(), entry);
        lemma_applied_concat(db, front, last);
        lemma_delete_keeps(applied(db, front), now, cf, key);
    } else {
        assert(all =~= Seq::<OpView>::empty());
    }
}

/// Every step keeps everything listed.
proof fn lemma_step_keeps(db: DbView, now: u64, step: StepView)
    requires
        all_listed(db, now),
    ensures
        all_listed(applied(db, step_ops(now, step)), now),
{
    match step {
        StepView::Alive { owner, ttl } => {
            lemma_put_keeps(db, now, Cf::OwnerAlive, utf8(owner), "1"@, ttl);
        },
        StepView::NotAlive { owner } => {
            lemma_delete_keeps(db, now, Cf::OwnerAlive, utf8(owner));
        },
        StepView::Hold { owner, mode, path, ttl } => {
            let (cf, key) = lock_place(mode, path, owner);
            let (index, entry) = lock_index(mode, path, owner);
            let hold = hold_place(mode, path, owner);
            let first = put_text(now, cf, key, owner, ttl);
            let second = put_index(now, index, ancestors(path), entry, ttl);
            let third = put_text(now, Cf::OwnerHolds, hold, hold_text(mode, path), ttl);
            let one = applied(db, first);
            let two = applied(one, second);
            lemma_applied_concat(db, first, second);
            lemma_applied_concat(db, first + second, third);
            lemma_put_keeps(db, now, cf, key, owner, ttl);
            lemma_put_index_keeps(one, now, index, ancestors(path), entry, ttl);
            lemma_put_keeps(two, now, Cf::OwnerHolds, hold, hold_text(mode, path), ttl);
        },
        StepView::Drop { owner, mode, path } => {
            let (cf, key) = lock_place(mode, path, owner);
            let (index, entry) = lock_index(mode, path, owner);
            let hold = hold_place(mode, path, owner);
            let first = seq![OpView::Delete { cf, key }];
            let second = delete_index(index, ancestors(path), entry);
            let third = seq![OpView::Delete { cf: Cf::OwnerHolds, key: hold }];
            let one = applied(db, first);
            let two = applied(one, second);
            lemma_applied_concat(db, first, second);
            lemma_applied_concat(db, first + second, third);
            lemma_delete_keeps(db, now, cf, key);
            lemma_delete_index_keeps(one, now, index, ancestors(path), entry);
            lemma_delete_keeps(two, now, Cf::OwnerHolds, hold);
        },
        StepView::Forget { owner, mode, path } => {
            lemma_delete_keeps(db, now, Cf::OwnerHolds, hold_place(mode, path, owner));
        },
        StepView::Fence { path, token, ttl } => {
            lemma_put_keeps(db, now, Cf::Fences, utf8(path), token, fence_ttl(ttl));
        },
        StepView::Claim { path, claimant, ttl } => {
            let first = put_text(now, Cf::Claims, utf8(path), claimant, ttl);
            let second = put_index(now, Cf::DescClaim, ancestors(path), path, ttl);
            lemma_applied_concat(db, first, second);
            lemma_put_keeps(db, now, Cf::Claims, utf8(path), claimant, ttl);
            lemma_put_index_keeps(
                applied(db, first),
                now,
                Cf::DescClaim,
                ancestors(path),
                path,
                ttl,
            );
        },
        StepView::DropClaim { path } => {
            let first = seq![OpView::Delete { cf: Cf::Claims, key: utf8(path) }];
            let second = delete_index(Cf::DescClaim, ancestors(path), path);
            lemma_applied_concat(db, first, second);
            lemma_delete_keeps(db, now, Cf::Claims, utf8(path));
            lemma_delete_index_keeps(
                applied(db, first),
                now,
                Cf::DescClaim,
                ancestors(path),
                path,
            );
        },
        StepView::Wait { owner, edge, ttl } => {
            lemma_put_keeps(db, now, Cf::WaitEdges, utf8(owner), edge, ttl);
        },
        StepView::NoWait { owner } => {
            lemma_delete_keeps(db, now, Cf::WaitEdges, utf8(owner));
        },
    }
}

proof fn lemma_steps_keep(db: DbView, now: u64, steps: Seq<StepView>)
    requires
        all_listed(db, now),
    ensures
        all_listed(applied(db, steps_ops(now, steps)), now),
    decreases steps.len(),
{
    if steps.len() > 0 {
        let front = steps_ops(now, steps.drop_last());
        lemma_steps_keep(db, now, steps.drop_last());
        lemma_applied_concat(db, front, step_ops(now, steps.last()));
        lemma_step_keeps(applied(db, front), now, steps.last());
    }
}

/// Writing a counter keeps everything listed.
proof fn lemma_meta_keeps(db: DbView, clock: u64, key: Seq<u8>, v: i64)
    requires
        all_listed(db, clock),
        key != gc_cursor_key(),
    ensures
        all_listed(db.insert((Cf::Meta, key), Some(RecordView::Counter { v })), clock),
{
    let after = db.insert((Cf::Meta, key), Some(RecordView::Counter { v }));
    assert forall|c: Cf, k: Seq<u8>, e: u64|
        is_swept_cf(c) && #[trigger] expires_at(after, c, k, e) implies listed(after, c, k, e) by {
        assert(expires_at(db, c, k, e));
        lemma_still_listed(db, after, c, k, e);
    }
}

/// A sweep removes the expired records that its entries point at.
proof fn lemma_sweep_takes(
    db: DbView,
    ks: Seq<Seq<u8>>,
    now: u64,
    k: Seq<u8>,
    place: (Cf, Seq<u8>),
)
    requires
        ks.contains(k),
        points_at(k, place),
        holds_expired(db, place.0, place.1, now),
    ensures
        !applied(db, sweep_ops(db, ks, now)).dom().contains(place),
    decreases ks.len(),
{
    let front = ks.drop_last();
    let entry = sweep_entry(db, ks.last(), now);
    lemma_applied_concat(db, sweep_ops(db, front, now), entry);
    reveal_with_fuel(applied, 3);
    if entry.len() == 2 {
        assert(entry.drop_last() =~= seq![entry[0]]);
        assert(entry.drop_last().drop_last() =~= Seq::<OpView>::empty());
    } else {
        assert(entry.drop_last() =~= Seq::<OpView>::empty());
    }
    let i = ks.index_of(k);
    if i < front.len() {
        assert(front[i] == k);
        lemma_sweep_takes(db, front, now, k, place);
    }
}

/// Entries stay that a sweep does not process.
proof fn lemma_sweep_leaves(db: DbView, ks: Seq<Seq<u8>>, now: u64, k: Seq<u8>)
    requires
        !ks.contains(k),
        db.dom().contains((Cf::Expiry, k)),
        forall|i: int| 0 <= i < ks.len() ==> !points_at(#[trigger] ks[i], (Cf::Expiry, k)),
    ensures
        applied(db, sweep_ops(db, ks, now)).dom().contains((Cf::Expiry, k)),
    decreases ks.len(),
{
    if ks.len() > 0 {
        let front = ks.drop_last();
        let entry = sweep_entry(db, ks.last(), now);
        lemma_applied_concat(db, sweep_ops(db, front, now), entry);
        reveal_with_fuel(applied, 3);
        if entry.len() == 2 {
            assert(entry.drop_last() =~= seq![entry[0]]);
            assert(entry.drop_last().drop_last() =~= Seq::<OpView>::empty());
        } else {
            assert(entry.drop_last() =~= Seq::<OpView>::empty());
        }
        assert(ks[ks.len() - 1] == ks.last());
        if front.contains(k) {
            let i = front.index_of(k);
            assert(ks[i] == k);
        }
        assert forall|i: int| 0 <= i < front.len() implies !points_at(
            #[trigger] front[i],
            (Cf::Expiry, k),
        ) by {
            assert(ks[i] == front[i]);
        }
        lemma_sweep_leaves(db, front, now, k);
    }
}

/// A sweep keeps everything listed that it leaves.
proof fn lemma_sweep_keeps(db: DbView, clock: u64, now: u64, batch: nat)
    requires
        all_listed(db, clock),
        now <= clock,
    ensures
        all_listed(applied(db, sweep_writes(db, swept_rows(db, now, batch), now)), clock),
{
    let ks = swept_rows(db, now, batch);
    let rows = unswept_rows(db);
    let upper = expiry_scan_upper_spec(now);
    let ops = sweep_writes(db, ks, now);
    let mid = applied(db, sweep_ops(db, ks, now));
    let after = applied(db, ops);
    lemma_sweep_writes(db, ks, now);
    lemma_applied_finite(db, ops);
    lemma_keys_after(db, Cf::Expiry, gc_cursor(db));
    lemma_leading_all(rows, upper);
    if ks.len() == 0 {
        assert(ops =~= Seq::<OpView>::empty());
    } else {
        assert(ops.drop_last() =~= sweep_ops(db, ks, now));
        assert(ks.last() == rows[ks.len() - 1]);
        lemma_upper_grows(ks.last(), now, clock);
        assert forall|c: Cf, key: Seq<u8>, e: u64|
            is_swept_cf(c) && #[trigger] expires_at(after, c, key, e) implies listed(
            after,
            c,
            key,
            e,
        ) by {
            assert(expires_at(db, c, key, e));
            let t = choose|t: u64|
                e <= t < e + INDEX_SLOT_MS && #[trigger] listed_at(db, c, key, t);
            let k = expiry_key_spec(t, c, key);
            lemma_expiry_key_decodes(t, c, key);
            assert(rows.contains(k));
            let j = rows.index_of(k);
            if ks.contains(k) {
                let i = ks.index_of(k);
                assert(rows[i] == k);
                lemma_due(t, c, key, now);
                assert(points_at(k, (c, key)));
                lemma_sweep_takes(db, ks, now, k, (c, key));
                assert(!mid.dom().contains((c, key)));
            } else {
                if j < ks.len() {
                    assert(ks[j] == k);
                }
                assert(lex_lt(rows[ks.len() - 1], rows[j]));
                assert forall|i: int| 0 <= i < ks.len() implies !points_at(
                    #[trigger] ks[i],
                    (Cf::Expiry, k),
                ) by {
                    assert(rows.contains(rows[i]));
                    assert(db.dom().contains((Cf::Expiry, ks[i])));
                }
                lemma_sweep_leaves(db, ks, now, k);
                assert(after.dom().contains((Cf::Expiry, k)));
                assert(listed_at(after, c, key, t));
            }
        }
        assert(lists_records(after)) by {
            assert forall|k: Seq<u8>| #[trigger] after.dom().contains((Cf::Expiry, k)) implies (
            decode_expiry_spec(k) matches Some((_, cf, _)) ==> is_swept_cf(cf)) by {
                assert(db.dom().contains((Cf::Expiry, k)));
            }
        }
    }
}

/// An entry that sorts before what is due by `now` is for a time that has come.
proof fn lemma_due(t: u64, cf: Cf, key: Seq<u8>, now: u64)
    requires
        lex_lt(expiry_key_spec(t, cf, key), expiry_scan_upper_spec(now)),
    ensures
        t <= now,
{
    let b: u64 = if now == u64::MAX { now } else { (now + 1) as u64 };
    let k = expiry_key_spec(t, cf, key);
    let tail = k.skip(8);
    assert(k =~= be64(t) + tail);
    lemma_be64_order(t, tail, b);
}

/// Every command keeps everything listed, at any time that is not earlier.
pub proof fn law_commands_keep_the_listing(db: DbView, clock: u64, now: u64, op: OpKind)
    requires
        all_listed(db, clock),
        clock <= now,
        command_effect(db, now, op) is Ok,
    ensures
        all_listed(applied(db, command_effect(db, now, op)->Ok_0.1), effect_time(now, op)),
{
    law_listing_lasts(db, clock, now);
    lemma_effect(db, now, op);
    lemma_writes_keep(db, now, op);
    lemma_meta_keys_differ();
    lemma_meta_keeps(
        applied(db, command_writes(db, now, op)->Ok_0.1),
        effect_time(now, op),
        last_applied_key(),
        next_token(last_applied(db)->Ok_0),
    );
}

proof fn lemma_writes_keep(db: DbView, now: u64, op: OpKind)
    requires
        all_listed(db, now),
        command_writes(db, now, op) is Ok,
    ensures
        all_listed(applied(db, command_writes(db, now, op)->Ok_0.1), effect_time(now, op)),
{
    match op {
        OpKind::Acquire(args) => {
            lemma_steps_keep(db, now, acquire_plan(db, now, args)->Ok_0.1);
        },
        OpKind::Release { owner, reqs, del_wait } => {
            lemma_steps_keep(db, now, release_plan(db, now, owner, reqs, del_wait)->Ok_0);
        },
        OpKind::ReleaseAll { owner, del_wait } => {
            lemma_steps_keep(db, now, release_all_plan(db, now, owner, del_wait)->Ok_0);
        },
        OpKind::Renew { owner, ttl_ms } => {
            lemma_steps_keep(db, now, renew_plan(db, now, owner, ttl_ms)->Ok_0.1);
        },
        OpKind::ForceRelease { victim } => {
            lemma_steps_keep(db, now, release_all_plan(db, now, victim, true)->Ok_0);
        },
        OpKind::SetClaim { path, claimant, ttl_ms } => {
            lemma_steps_keep(
                db,
                now,
                seq![StepView::Claim { path, claimant, ttl: claim_ttl(ttl_ms) }],
            );
        },
        OpKind::SetWaitEdge { owner, conflict_owner, metadata, ttl_ms } => {
            lemma_steps_keep(
                db,
                now,
                seq![
                    StepView::Wait { owner, edge: edge_text(conflict_owner, metadata), ttl: ttl_ms },
                ],
            );
        },
        OpKind::ClearWaitEdge { owner } => {
            lemma_steps_keep(db, now, seq![StepView::NoWait { owner }]);
        },
        OpKind::GcSweep { now_ms, batch } => {
            law_listing_lasts(db, now, effect_time(now, op));
            lemma_sweep_keeps(db, effect_time(now, op), now_ms, batch as nat);
        },
        OpKind::IncrFence => {
            let v = next_token(fence_counter(db)->Ok_0);
            lemma_single(db, put_counter(v));
            lemma_meta_keys_differ();
            lemma_meta_keeps(db, now, fence_counter_key(), v);
        },
    }
}

/// Nothing expired is missed: a sweep with room for everything that is due leaves no
/// record that expired a slot or more before it.
pub proof fn law_sweep_misses_nothing(
    db: DbView,
    clock: u64,
    now: u64,
    batch: nat,
    cf: Cf,
    key: Seq<u8>,
    exp: u64,
)
    requires
        all_listed(db, clock),
        now < u64::MAX,
        leading_below(unswept_rows(db), expiry_scan_upper_spec(now)) <= batch,
        is_swept_cf(cf),
        exp + INDEX_SLOT_MS <= now,
    ensures
        !expires_at(applied(db, sweep_writes(db, swept_rows(db, now, batch), now)), cf, key, exp),
{
    let ks = swept_rows(db, now, batch);
    let after = applied(db, sweep_writes(db, ks, now));
    lemma_sweep_writes(db, ks, now);
    if expires_at(after, cf, key, exp) {
        assert(expires_at(db, cf, key, exp));
        let t = choose|t: u64|
            exp <= t < exp + INDEX_SLOT_MS && #[trigger] listed_at(db, cf, key, t);
        let k = expiry_key_spec(t, cf, key);
        law_sweep_takes_what_is_due(db, now, batch, t, cf, key);
        lemma_expiry_key_decodes(t, cf, key);
        assert(points_at(k, (cf, key)));
        lemma_sweep_takes(db, ks, now, k, (cf, key));
        assert(sweep_writes(db, ks, now).drop_last() =~= sweep_ops(db, ks, now));
    }
}

/// A sweep over some entries removes those, and of the records only what it reclaims.
proof fn lemma_sweep_removes(db: DbView, ks: Seq<Seq<u8>>, now: u64, p: (Cf, Seq<u8>))
    requires
        db.dom().contains(p),
        p.0 != Cf::Expiry,
    ensures
        applied(db, sweep_ops(db, ks, now)).dom().contains(p) <==> !reclaimed(
            db,
            ks,
            now,
        ).contains(p),
    decreases ks.len(),
{
    if ks.len() == 0 {
        assert(reclaimed(db, ks, now) =~= Set::<(Cf, Seq<u8>)>::empty());
    } else {
        let front = ks.drop_last();
        let entry = sweep_entry(db, ks.last(), now);
        lemma_sweep_removes(db, front, now, p);
        lemma_reclaimed_step(db, ks, now);
        lemma_applied_concat(db, sweep_ops(db, front, now), entry);
        reveal_with_fuel(applied, 3);
        if entry.len() == 2 {
            assert(entry.drop_last() =~= seq![entry[0]]);
            assert(entry.drop_last().drop_last() =~= Seq::<OpView>::empty());
        } else {
            assert(entry.drop_last() =~= Seq::<OpView>::empty());
        }
    }
}

/// The records that a store holds and another does not.
pub open spec fn gone(before: DbView, after: DbView) -> Set<(Cf, Seq<u8>)> {
    Set::new(
        |p: (Cf, Seq<u8>)|
            is_swept_cf(p.0) && before.dom().contains(p) && !after.dom().contains(p),
    )
}

/// A sweep tells how many records it reclaimed: as many as are gone, all of which had
/// expired by its time. They are no more than it was told to process.
pub proof fn law_sweep_tells(db: DbView, now: u64, now_ms: u64, batch: u32)
    requires
        db.dom().finite(),
        lists_records(db),
        command_effect(db, now, OpKind::GcSweep { now_ms, batch }) is Ok,
    ensures
        ({
            let (response, ops) = command_effect(db, now, OpKind::GcSweep { now_ms, batch })->Ok_0;
            let taken = gone(db, applied(db, ops));
            &&& response matches ResponseView::Gc(n) && n == taken.len() && n <= batch
            &&& taken.finite()
            &&& forall|p: (Cf, Seq<u8>)| #[trigger]
                taken.contains(p) ==> exists|exp: u64|
                    exp <= now_ms && #[trigger] expires_at(db, p.0, p.1, exp)
        }),
{
    let op = OpKind::GcSweep { now_ms, batch };
    let ks = swept_rows(db, now_ms, batch as nat);
    let after = applied(db, command_effect(db, now, op)->Ok_0.1);
    let taken = gone(db, after);
    let all = reclaimed(db, ks, now_ms);
    let own = applied(db, sweep_writes(db, ks, now_ms));
    lemma_effect(db, now, op);
    lemma_keys_after(db, Cf::Expiry, gc_cursor(db));
    lemma_leading_all(unswept_rows(db), expiry_scan_upper_spec(now_ms));
    if ks.len() > 0 {
        assert(sweep_writes(db, ks, now_ms).drop_last() =~= sweep_ops(db, ks, now_ms));
    }
    assert forall|p: (Cf, Seq<u8>)| #[trigger] taken.contains(p) <==> all.contains(p) by {
        if all.contains(p) {
            let i = choose|i: int| 0 <= i < ks.len() && points_at(#[trigger] ks[i], p);
            assert(unswept_rows(db)[i] == ks[i]);
            assert(unswept_rows(db).contains(ks[i]));
            assert(db.dom().contains((Cf::Expiry, ks[i])));
        }
        if db.dom().contains(p) && is_swept_cf(p.0) {
            lemma_sweep_removes(db, ks, now_ms, p);
        }
    }
    assert(taken =~= all);
    assert forall|p: (Cf, Seq<u8>)| #[trigger] taken.contains(p) implies exists|exp: u64|
        exp <= now_ms && #[trigger] expires_at(db, p.0, p.1, exp) by {
        assert(holds_expired(db, p.0, p.1, now_ms));
        if let Some(RecordView::Str { exp, .. }) = db[p] {
            assert(expires_at(db, p.0, p.1, exp));
        }
    }
    lemma_reclaimed_bound(db, ks, now_ms);
}

proof fn lemma_reclaimed_bound(db: DbView, ks: Seq<Seq<u8>>, now: u64)
    ensures
        reclaimed(db, ks, now).finite(),
        reclaimed(db, ks, now).len() <= ks.len(),
    decreases ks.len(),
{
    if ks.len() == 0 {
        assert(reclaimed(db, ks, now) =~= Set::<(Cf, Seq<u8>)>::empty());
    } else {
        lemma_reclaimed_bound(db, ks.drop_last(), now);
        lemma_reclaimed_step(db, ks, now);
    }
}

/// The entries of the expiry index that are due by `now` and not swept yet.
pub open spec fn due(db: DbView, now: u64) -> Set<Seq<u8>> {
    Set::new(
        |k: Seq<u8>|
            db.dom().contains((Cf::Expiry, k)) && (gc_cursor(db) matches Some(c) ==> lex_lt(c, k))
                && lex_lt(k, expiry_scan_upper_spec(now)),
    )
}

/// The entries of the expiry index that a store holds and another does not.
pub open spec fn entries_gone(before: DbView, after: DbView) -> Set<Seq<u8>> {
    Set::new(
        |k: Seq<u8>|
            before.dom().contains((Cf::Expiry, k)) && !after.dom().contains((Cf::Expiry, k)),
    )
}

/// A sweep makes full use of its room: it processes as many of the entries that are due as it
/// was told to, or all of them if there are no more, the earliest first.
pub proof fn law_sweep_uses_its_room(db: DbView, now: u64, now_ms: u64, batch: u32)
    requires
        db.dom().finite(),
        lists_records(db),
        command_effect(db, now, OpKind::GcSweep { now_ms, batch }) is Ok,
    ensures
        ({
            let ops = command_effect(db, now, OpKind::GcSweep { now_ms, batch })->Ok_0.1;
            let taken = entries_gone(db, applied(db, ops));
            &&& taken.finite()
            &&& taken.subset_of(due(db, now_ms))
            &&& taken.len() == batch || taken == due(db, now_ms)
            &&& taken.len() <= batch
            &&& forall|a: Seq<u8>, b: Seq<u8>| #[trigger]
                taken.contains(a) && due(db, now_ms).contains(b) && #[trigger] lex_lt(b, a)
                    ==> taken.contains(b)
        }),
{
    let op = OpKind::GcSweep { now_ms, batch };
    let all = unswept_rows(db);
    let ks = swept_rows(db, now_ms, batch as nat);
    let after = applied(db, command_effect(db, now, op)->Ok_0.1);
    let own = applied(db, sweep_writes(db, ks, now_ms));
    let taken = entries_gone(db, after);
    let upper = expiry_scan_upper_spec(now_ms);
    lemma_effect(db, now, op);
    lemma_keys_after(db, Cf::Expiry, gc_cursor(db));
    lemma_leading_all(all, upper);
    lemma_sweep_writes(db, ks, now_ms);
    if ks.len() > 0 {
        assert(sweep_writes(db, ks, now_ms).drop_last() =~= sweep_ops(db, ks, now_ms));
    }
    assert forall|i: int| 0 <= i < ks.len() implies #[trigger] ks[i] == all[i] by {}
    assert forall|k: Seq<u8>| #[trigger] taken.contains(k) <==> ks.contains(k) by {
        if ks.contains(k) {
            let i = ks.index_of(k);
            assert(all[i] == k);
            assert(all.contains(k));
        } else if db.dom().contains((Cf::Expiry, k)) {
            assert forall|i: int| 0 <= i < ks.len() implies !points_at(
                #[trigger] ks[i],
                (Cf::Expiry, k),
            ) by {
                assert(all[i] == ks[i]);
                assert(all.contains(ks[i]));
                assert(db.dom().contains((Cf::Expiry, ks[i])));
            }
            lemma_sweep_leaves(db, ks, now_ms, k);
        }
    }
    assert(ks.no_duplicates()) by {
        assert forall|i: int, j: int| 0 <= i < j < ks.len() implies ks[i] != ks[j] by {
            assert(lex_lt(all[i], all[j]));
            lemma_lex_irreflexive(all[i]);
        }
    }
    assert(taken =~= ks.to_set());
    ks.unique_seq_to_set();
    assert forall|k: Seq<u8>| #[trigger] taken.contains(k) implies due(db, now_ms).contains(k) by {
        let i = ks.index_of(k);
        assert(all[i] == k);
        assert(all.contains(k));
        assert(lex_lt(all[i], upper));
    }
    assert forall|a: Seq<u8>, b: Seq<u8>| #[trigger]
        taken.contains(a) && due(db, now_ms).contains(b) && #[trigger] lex_lt(
        b,
        a,
    ) implies taken.contains(b) by {
        let i = ks.index_of(a);
        assert(all.contains(b));
        let j = all.index_of(b);
        assert(all[i] == a);
        if j >= i {
            if j > i {
                assert(lex_lt(all[i], all[j]));
                lemma_lex_transitive(b, a, b);
            }
            lemma_lex_irreflexive(b);
        } else {
            assert(ks[j] == b);
        }
    }
    if ks.len() < batch {
        assert forall|k: Seq<u8>| #[trigger] due(db, now_ms).contains(k) implies taken.contains(
            k,
        ) by {
            assert(all.contains(k));
            let i = all.index_of(k);
            assert(lex_lt(all[i], upper));
            assert(ks[i] == k);
        }
        assert(taken =~= due(db, now_ms));
    }
}

} // verus!
