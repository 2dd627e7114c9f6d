//! What holds of the store as a whole: reads give back what was written, expiry
//! hides a record, garbage collection is invisible to reads, and fencing tokens
//! rise.

use vstd::prelude::*;
use crate::db::{
    applied, ascending, is_scan, lemma_applied_concat, lemma_scan_exists, scan, DbView, OpView,
};
use crate::order::{lemma_be64_order, lemma_lex_total, lemma_lex_transitive, lex_lt};
use crate::raft::command::{OpKind, ResponseView};
use crate::raft::state_machine::{
    command_effect, counter_at, fence_counter, gc_cursor, gc_cursor_key, holds_expired,
    leading_below, lemma_effect, lemma_meta_keys_differ, next_token, put_counter, sweep_entry,
    sweep_ops, sweep_writes, swept_rows, unswept_rows,
};
use crate::store_keys::{
    expiry_key_spec, expiry_scan_upper_spec, expiry_time, index_time, is_expired,
    law_index_follows_expiry, member_key_spec, member_prefix_spec, Cf,
};
use crate::store_rocksdb::{
    delete_rows, has_live, keys_after, live_text, member_rows, put_text, read_member, read_text,
    rest_after, with_ops, RecordView, TxnView,
};
use crate::text::law_bytes_read_back;

verus! {

/// Where a write of a text puts something: at its own place, and, if it expires,
/// at its entry in the expiry index.
pub proof fn lemma_put_text_places(
    db: DbView,
    now: u64,
    cf: Cf,
    key: Seq<u8>,
    v: Seq<char>,
    ttl: u64,
)
    ensures
        ({
            let exp = expiry_time(now, ttl);
            let rec = Some(RecordView::Str { v, exp });
            let after = applied(db, put_text(now, cf, key, v, ttl));
            let slot = index_time(exp, ttl);
            &&& after.dom().contains((cf, key))
            &&& after[(cf, key)] == rec
            &&& after == (if ttl > 0 {
                db.insert((cf, key), rec).insert(
                    (Cf::Expiry, expiry_key_spec(slot, cf, key)),
                    Some(RecordView::Str { v: Seq::empty(), exp: slot }),
                )
            } else {
                db.insert((cf, key), rec)
            })
        }),
{
    let ops = put_text(now, cf, key, v, ttl);
    let exp = expiry_time(now, ttl);
    let ek = expiry_key_spec(index_time(exp, ttl), cf, key);
    reveal_with_fuel(applied, 3);
    assert(ek.len() > key.len());
    if ttl > 0 {
        assert(ops.drop_last() =~= seq![ops[0]]);
        assert(ops.drop_last().drop_last() =~= Seq::<OpView>::empty());
    } else {
        assert(ops.drop_last() =~= Seq::<OpView>::empty());
    }
}

/// A text that was written is read back, unchanged, until its lifetime is over,
/// and not after; a text written without a lifetime is read back for ever.
pub proof fn law_text_reads_back(
    db: DbView,
    now: u64,
    cf: Cf,
    key: Seq<u8>,
    v: Seq<char>,
    ttl: u64,
    later: u64,
)
    ensures
        read_text(applied(db, put_text(now, cf, key, v, ttl)), later, cf, key) == Ok::<
            Option<Seq<char>>,
            crate::store_rocksdb::ErrorView,
        >(
            if is_expired(expiry_time(now, ttl), later) {
                None
            } else {
                Some(v)
            },
        ),
{
    lemma_put_text_places(db, now, cf, key, v, ttl);
}

/// A transaction reads through its own writes: whatever it has taken so far, it sees
/// what the store holds once that is committed.
pub proof fn law_reads_see_own_writes(t: TxnView, began: DbView, ops: Seq<OpView>)
    requires
        t.db == applied(began, t.ops),
    ensures
        with_ops(t, ops).db == applied(began, with_ops(t, ops).ops),
{
    lemma_applied_concat(began, t.ops, ops);
}

/// A text with a lifetime is live when it is written, unless the clock stands at
/// its end.
pub proof fn law_text_live_when_written(now: u64, ttl: u64)
    requires
        now < u64::MAX,
    ensures
        !is_expired(expiry_time(now, ttl), now),
{
}

/// Once expired, a record stays expired as the clock goes on.
pub proof fn law_expiry_is_final(exp: u64, now: u64, later: u64)
    requires
        is_expired(exp, now),
        now <= later,
    ensures
        is_expired(exp, later),
{
}

/// Writing a text changes no other place that reads see.
pub proof fn law_write_is_local(
    db: DbView,
    now: u64,
    cf: Cf,
    key: Seq<u8>,
    v: Seq<char>,
    ttl: u64,
    place: (Cf, Seq<u8>),
)
    requires
        place != (cf, key),
        place.0 != Cf::Expiry,
    ensures
        ({
            let after = applied(db, put_text(now, cf, key, v, ttl));
            &&& after.dom().contains(place) == db.dom().contains(place)
            &&& db.dom().contains(place) ==> after[place] == db[place]
        }),
{
    lemma_put_text_places(db, now, cf, key, v, ttl);
}

/// A member that was added to a set is a member until its own lifetime is over.
pub proof fn law_member_reads_back(
    db: DbView,
    now: u64,
    cf: Cf,
    key: Seq<u8>,
    member: Seq<char>,
    ttl: u64,
    later: u64,
)
    ensures
        ({
            let mk = member_key_spec(key, member);
            let after = applied(db, put_text(now, cf, mk, member, ttl));
            &&& read_member(after, later, cf, key, member) == Ok::<
                bool,
                crate::store_rocksdb::ErrorView,
            >(!is_expired(expiry_time(now, ttl), later))
            &&& !is_expired(expiry_time(now, ttl), later) ==> has_live(after, later, cf, key)
        }),
{
    let mk = member_key_spec(key, member);
    let after = applied(db, put_text(now, cf, mk, member, ttl));
    lemma_put_text_places(db, now, cf, mk, member, ttl);
    assert(member_prefix_spec(key).is_prefix_of(mk)) by {
        assert(mk.take(member_prefix_spec(key).len() as int) =~= member_prefix_spec(key));
    }
    if !is_expired(expiry_time(now, ttl), later) {
        assert(after.dom().contains((cf, mk)));
    }
}

/// Removing a member ends its membership.
pub proof fn law_member_removed(
    db: DbView,
    now: u64,
    cf: Cf,
    key: Seq<u8>,
    member: Seq<char>,
)
    ensures
        read_member(
            applied(db, seq![OpView::Delete { cf, key: member_key_spec(key, member) }]),
            now,
            cf,
            key,
            member,
        ) == Ok::<bool, crate::store_rocksdb::ErrorView>(false),
{
    let ops = seq![OpView::Delete { cf, key: member_key_spec(key, member) }];
    reveal_with_fuel(applied, 2);
    assert(ops.drop_last() =~= Seq::<OpView>::empty());
}

proof fn lemma_deletes(db: DbView, cf: Cf, ks: Seq<Seq<u8>>)
    ensures
        ({
            let after = applied(db, delete_rows(cf, ks));
            &&& forall|k: Seq<u8>| #[trigger]
                after.dom().contains((cf, k)) <==> db.dom().contains((cf, k)) && !ks.contains(k)
            &&& forall|p: (Cf, Seq<u8>)|
                p.0 != cf ==> (#[trigger] after.dom().contains(p) == db.dom().contains(p))
            &&& forall|p: (Cf, Seq<u8>)|
                after.dom().contains(p) ==> #[trigger] after[p] == db[p]
        }),
    decreases ks.len(),
{
    if ks.len() > 0 {
        let front = ks.drop_last();
        lemma_deletes(db, cf, front);
        assert(delete_rows(cf, ks).drop_last() =~= delete_rows(cf, front));
        let mid = applied(db, delete_rows(cf, front));
        let after = applied(db, delete_rows(cf, ks));
        assert(after == mid.remove((cf, ks.last())));
        assert forall|k: Seq<u8>| #[trigger]
            after.dom().contains((cf, k)) <==> db.dom().contains((cf, k)) && !ks.contains(k) by {
            assert(mid.dom().contains((cf, k)) <==> db.dom().contains((cf, k)) && !front.contains(
                k,
            ));
            if ks.contains(k) {
                let i = ks.index_of(k);
                if i < front.len() {
                    assert(front[i] == k);
                }
            }
            if front.contains(k) {
                let i = front.index_of(k);
                assert(ks[i] == k);
            }
            assert(ks[ks.len() - 1] == ks.last());
        }
    } else {
        assert(delete_rows(cf, ks) =~= Seq::<OpView>::empty());
    }
}

/// Removing a set leaves it without members and every other row as it was.
pub proof fn law_set_removed(db: DbView, now: u64, cf: Cf, key: Seq<u8>)
    requires
        is_scan(db, cf, member_prefix_spec(key), member_rows(db, cf, key)),
    ensures
        ({
            let after = applied(db, delete_rows(cf, member_rows(db, cf, key)));
            &&& !has_live(after, now, cf, key)
            &&& forall|p: (Cf, Seq<u8>)|
                p.0 != cf || !member_prefix_spec(key).is_prefix_of(p.1) ==> (#[trigger]
                after.dom().contains(p) == db.dom().contains(p))
            &&& forall|p: (Cf, Seq<u8>)|
                after.dom().contains(p) ==> #[trigger] after[p] == db[p]
        }),
{
    let ks = member_rows(db, cf, key);
    let after = applied(db, delete_rows(cf, ks));
    lemma_deletes(db, cf, ks);
    assert forall|k: Seq<u8>| #[trigger]
        after.dom().contains((cf, k)) implies !member_prefix_spec(key).is_prefix_of(k) by {
        assert(!ks.contains(k));
    }
    assert forall|p: (Cf, Seq<u8>)|
        p.0 != cf || !member_prefix_spec(key).is_prefix_of(p.1) implies (#[trigger]
    after.dom().contains(p) == db.dom().contains(p)) by {
        if p.0 == cf {
            assert(p == (cf, p.1));
            assert(ks.contains(p.1) ==> member_prefix_spec(key).is_prefix_of(p.1));
            assert(after.dom().contains((cf, p.1)) == db.dom().contains((cf, p.1)));
        }
    }
}

// ---------------------------------------------------------------------------
// Garbage collection
// ---------------------------------------------------------------------------

/// `after` is `before` without some entries of the expiry index and some texts
/// that had expired by `now`, but for the sweep's position.
pub open spec fn only_expired_gone(before: DbView, after: DbView, now: u64) -> bool {
    &&& forall|p: (Cf, Seq<u8>)| #[trigger]
        after.dom().contains(p) && p != cursor_place() ==> before.dom().contains(p) && after[p]
            == before[p]
    &&& forall|p: (Cf, Seq<u8>)| #[trigger]
        before.dom().contains(p) && p.0 != Cf::Expiry && !holds_expired(before, p.0, p.1, now)
            ==> after.dom().contains(p)
}

/// Where the sweep's position stands.
pub open spec fn cursor_place() -> (Cf, Seq<u8>) {
    (Cf::Meta, gc_cursor_key())
}

pub proof fn lemma_sweep_writes(db: DbView, ks: Seq<Seq<u8>>, now: u64)
    ensures
        only_expired_gone(db, applied(db, sweep_writes(db, ks, now)), now),
        forall|k: Seq<u8>| #[trigger]
            ks.contains(k) ==> !applied(db, sweep_writes(db, ks, now)).dom().contains(
                (Cf::Expiry, k),
            ),
        ks.len() > 0 ==> gc_cursor(applied(db, sweep_writes(db, ks, now))) == Some(ks.last()),
{
    lemma_sweep(db, ks, now);
    if ks.len() > 0 {
        let ops = sweep_ops(db, ks, now);
        let all = sweep_writes(db, ks, now);
        assert(all.drop_last() =~= ops);
        law_bytes_read_back(ks.last());
    }
}

proof fn lemma_sweep(db: DbView, ks: Seq<Seq<u8>>, now: u64)
    ensures
        only_expired_gone(db, applied(db, sweep_ops(db, ks, now)), now),
        forall|k: Seq<u8>| #[trigger]
            ks.contains(k) ==> !applied(db, sweep_ops(db, ks, now)).dom().contains((Cf::Expiry, k)),
    decreases ks.len(),
{
    if ks.len() > 0 {
        let front = ks.drop_last();
        let mid = applied(db, sweep_ops(db, front, now));
        let entry = sweep_entry(db, ks.last(), now);
        lemma_sweep(db, front, now);
        lemma_applied_concat(db, sweep_ops(db, front, now), entry);
        reveal_with_fuel(applied, 3);
        if entry.len() == 2 {
            assert(entry.drop_last() =~= seq![entry[0]]);
            assert(entry.drop_last().drop_last() =~= Seq::<OpView>::empty());
        } else {
            assert(entry.drop_last() =~= Seq::<OpView>::empty());
        }
        let after = applied(db, sweep_ops(db, ks, now));
        assert(after == applied(mid, entry));
        assert forall|k: Seq<u8>| #[trigger] ks.contains(k) implies !after.dom().contains(
            (Cf::Expiry, k),
        ) by {
            let i = ks.index_of(k);
            if i < front.len() {
                assert(front[i] == k);
                assert(front.contains(k));
            }
        }
    }
}

/// A sweep is invisible to reads: from the time of the sweep on, every text reads
/// as it would have without the sweep, and every set has a live member if and only
/// if it had one; counters stay as they are. What a sweep removes is texts that had
/// expired and entries of the expiry index, nothing else; the entries that it
/// processed are gone, and the next sweep goes on behind the last of them.
pub proof fn law_sweep_is_invisible(db: DbView, now: u64, batch: nat, later: u64, cf: Cf)
    requires
        now <= later,
        cf != Cf::Expiry,
        cf != Cf::Meta,
    ensures
        ({
            let ks = swept_rows(db, now, batch);
            let after = applied(db, sweep_writes(db, ks, now));
            &&& only_expired_gone(db, after, now)
            &&& forall|key: Seq<u8>| #[trigger]
                read_text(after, later, cf, key) == read_text(db, later, cf, key)
            &&& forall|key: Seq<u8>| #[trigger]
                has_live(after, later, cf, key) == has_live(db, later, cf, key)
            &&& forall|key: Seq<u8>|
                key != gc_cursor_key() ==> #[trigger] counter_at(after, key) == counter_at(db, key)
            &&& forall|k: Seq<u8>| #[trigger]
                ks.contains(k) ==> !after.dom().contains((Cf::Expiry, k))
            &&& gc_cursor(after) == (if ks.len() > 0 {
                Some(ks.last())
            } else {
                gc_cursor(db)
            })
        }),
{
    let ks = swept_rows(db, now, batch);
    let after = applied(db, sweep_writes(db, ks, now));
    lemma_sweep_writes(db, ks, now);
    assert forall|key: Seq<u8>| #[trigger]
        read_text(after, later, cf, key) == read_text(db, later, cf, key) by {
        let p = (cf, key);
        if db.dom().contains(p) && !after.dom().contains(p) {
            assert(holds_expired(db, cf, key, now));
        }
    }
    assert forall|key: Seq<u8>| #[trigger]
        has_live(after, later, cf, key) == has_live(db, later, cf, key) by {
        if has_live(after, later, cf, key) {
            let k = choose|k: Seq<u8>| #[trigger]
                after.dom().contains((cf, k)) && member_prefix_spec(key).is_prefix_of(k)
                    && live_text(after[(cf, k)], later) is Some;
            assert(db.dom().contains((cf, k)));
        }
        if has_live(db, later, cf, key) {
            let k = choose|k: Seq<u8>| #[trigger]
                db.dom().contains((cf, k)) && member_prefix_spec(key).is_prefix_of(k)
                    && live_text(db[(cf, k)], later) is Some;
            assert(after.dom().contains((cf, k)));
        }
    }
}

pub proof fn lemma_leading_all(ks: Seq<Seq<u8>>, upper: Seq<u8>)
    requires
        ascending(ks),
    ensures
        leading_below(ks, upper) <= ks.len(),
        forall|i: int|
            0 <= i < ks.len() ==> (lex_lt(#[trigger] ks[i], upper) <==> i < leading_below(
                ks,
                upper,
            )),
    decreases ks.len(),
{
    if ks.len() > 0 {
        let rest = ks.drop_first();
        assert(ascending(rest)) by {
            assert forall|i: int, j: int| 0 <= i < j < rest.len() implies lex_lt(
                #[trigger] rest[i],
                #[trigger] rest[j],
            ) by {
                assert(lex_lt(ks[i + 1], ks[j + 1]));
            }
        }
        lemma_leading_all(rest, upper);
        assert forall|i: int| 0 <= i < ks.len() implies (lex_lt(#[trigger] ks[i], upper) <==> i
            < leading_below(ks, upper)) by {
            if i > 0 {
                assert(rest[i - 1] == ks[i]);
                assert(lex_lt(ks[0], ks[i]));
                if lex_lt(ks[i], upper) {
                    lemma_lex_transitive(ks[0], ks[i], upper);
                }
            }
        }
    }
}

/// What sorts after a cursor is exactly the keys behind it, in ascending order.
pub proof fn lemma_keys_after(db: DbView, cf: Cf, cursor: Option<Seq<u8>>)
    requires
        db.dom().finite(),
    ensures
        ascending(keys_after(db, cf, cursor)),
        forall|k: Seq<u8>| #[trigger]
            keys_after(db, cf, cursor).contains(k) <==> db.dom().contains((cf, k)) && (
            cursor matches Some(c) ==> lex_lt(c, k)),
{
    let ks = scan(db, cf, Seq::empty());
    lemma_scan_exists(db, cf, Seq::empty());
    if let Some(c) = cursor {
        lemma_rest_after(ks, c);
    }
    assert forall|k: Seq<u8>| #[trigger]
        keys_after(db, cf, cursor).contains(k) <==> db.dom().contains((cf, k)) && (
        cursor matches Some(c) ==> lex_lt(c, k)) by {
        assert(k.take(0) =~= Seq::<u8>::empty());
        assert(Seq::<u8>::empty().is_prefix_of(k));
        assert(ks.contains(k) <==> db.dom().contains((cf, k)));
    }
}

proof fn lemma_rest_after(ks: Seq<Seq<u8>>, c: Seq<u8>)
    requires
        ascending(ks),
    ensures
        ascending(rest_after(ks, c)),
        forall|k: Seq<u8>| #[trigger]
            rest_after(ks, c).contains(k) <==> ks.contains(k) && lex_lt(c, k),
    decreases ks.len(),
{
    if ks.len() == 0 {
    } else if lex_lt(c, ks[0]) {
        assert forall|k: Seq<u8>| #[trigger] ks.contains(k) implies lex_lt(c, k) by {
            let i = ks.index_of(k);
            if i > 0 {
                assert(lex_lt(ks[0], ks[i]));
                lemma_lex_transitive(c, ks[0], ks[i]);
            }
        }
    } else {
        let tail = ks.drop_first();
        assert forall|i: int, j: int| 0 <= i < j < tail.len() implies lex_lt(
            #[trigger] tail[i],
            #[trigger] tail[j],
        ) by {
            assert(lex_lt(ks[i + 1], ks[j + 1]));
        }
        lemma_rest_after(tail, c);
        assert forall|k: Seq<u8>| #[trigger]
            rest_after(ks, c).contains(k) <==> ks.contains(k) && lex_lt(c, k) by {
            if ks.contains(k) && lex_lt(c, k) {
                let i = ks.index_of(k);
                assert(tail[i - 1] == k);
            }
            if tail.contains(k) {
                let i = tail.index_of(k);
                assert(ks[i + 1] == k);
            }
            assert(rest_after(tail, c).contains(k) <==> tail.contains(k) && lex_lt(c, k));
        }
    }
}

/// A sweep with room for all due entries processes exactly those: an entry for a
/// record that expires at `exp`, behind the position of the sweep before, is processed
/// if and only if `exp` has come.
pub proof fn law_sweep_takes_what_is_due(
    db: DbView,
    now: u64,
    batch: nat,
    exp: u64,
    cf: Cf,
    key: Seq<u8>,
)
    requires
        db.dom().finite(),
        db.dom().contains((Cf::Expiry, expiry_key_spec(exp, cf, key))),
        gc_cursor(db) matches Some(c) ==> lex_lt(c, expiry_key_spec(exp, cf, key)),
        now < u64::MAX,
        leading_below(unswept_rows(db), expiry_scan_upper_spec(now)) <= batch,
    ensures
        swept_rows(db, now, batch).contains(expiry_key_spec(exp, cf, key)) <==> exp <= now,
{
    let ks = unswept_rows(db);
    let k = expiry_key_spec(exp, cf, key);
    let upper = expiry_scan_upper_spec(now);
    let tail = k.skip(8);
    lemma_keys_after(db, Cf::Expiry, gc_cursor(db));
    assert(ks.contains(k));
    lemma_leading_all(ks, upper);
    assert(k =~= crate::store_keys::be64(exp) + tail);
    lemma_be64_order(exp, tail, (now + 1) as u64);
    let swept = swept_rows(db, now, batch);
    let i = ks.index_of(k);
    if exp <= now {
        assert(lex_lt(ks[i], upper));
        assert(swept[i] == k);
    }
    if swept.contains(k) {
        let j = swept.index_of(k);
        assert(ks[j] == k);
        assert(lex_lt(ks[j], upper));
    }
}

/// No entry is left behind: a text that is written at a time not before that of a sweep
/// is listed behind the position that the sweep left.
pub proof fn law_new_entries_are_ahead(
    db: DbView,
    now: u64,
    batch: nat,
    later: u64,
    cf: Cf,
    key: Seq<u8>,
    ttl: u64,
)
    requires
        db.dom().finite(),
        swept_rows(db, now, batch).len() > 0,
        now <= later < u64::MAX,
        ttl > 0,
    ensures
        lex_lt(
            swept_rows(db, now, batch).last(),
            expiry_key_spec(index_time(expiry_time(later, ttl), ttl), cf, key),
        ),
{
    let ks = unswept_rows(db);
    let upper = expiry_scan_upper_spec(now);
    let swept = swept_rows(db, now, batch);
    let slot = index_time(expiry_time(later, ttl), ttl);
    let k = expiry_key_spec(slot, cf, key);
    let tail = k.skip(8);
    lemma_keys_after(db, Cf::Expiry, gc_cursor(db));
    lemma_leading_all(ks, upper);
    assert(swept.last() == ks[swept.len() - 1]);
    assert(lex_lt(swept.last(), upper));
    law_index_follows_expiry(expiry_time(later, ttl), ttl);
    assert(k =~= crate::store_keys::be64(slot) + tail);
    lemma_be64_order(slot, tail, (now + 1) as u64);
    lemma_lex_total(k, upper);
    if k != upper {
        lemma_lex_transitive(swept.last(), upper, k);
    }
}

/// A record that was written again since an entry of the index was made for it,
/// with a later expiry, survives a sweep that processes the old entry.
pub proof fn law_refreshed_record_survives(
    db: DbView,
    now: u64,
    batch: nat,
    cf: Cf,
    key: Seq<u8>,
    v: Seq<char>,
    exp: u64,
)
    requires
        cf != Cf::Expiry,
        (cf, key) != cursor_place(),
        db.dom().contains((cf, key)),
        db[(cf, key)] == Some(RecordView::Str { v, exp }),
        !is_expired(exp, now),
    ensures
        applied(db, sweep_writes(db, swept_rows(db, now, batch), now)).dom().contains((cf, key)),
        applied(db, sweep_writes(db, swept_rows(db, now, batch), now))[(cf, key)] == Some(
            RecordView::Str { v, exp },
        ),
{
    lemma_sweep_writes(db, swept_rows(db, now, batch), now);
}

// ---------------------------------------------------------------------------
// Fencing tokens
// ---------------------------------------------------------------------------

/// Tokens rise: each token is one above the one before it (the largest representable
/// token is given again), and the counter then stands at it.
pub proof fn law_tokens_rise(db: DbView, now: u64)
    requires
        command_effect(db, now, OpKind::IncrFence) is Ok,
    ensures
        ({
            let (response, ops) = command_effect(db, now, OpKind::IncrFence)->Ok_0;
            &&& fence_counter(db) matches Ok(current) && response == ResponseView::IncrFence(
                if current < i64::MAX {
                    (current + 1) as i64
                } else {
                    i64::MAX
                },
            )
            &&& response matches ResponseView::IncrFence(token) && fence_counter(applied(db, ops))
                == Ok::<i64, crate::store_rocksdb::ErrorView>(token)
        }),
{
    let ops = seq![put_counter(next_token(fence_counter(db)->Ok_0))];
    lemma_effect(db, now, OpKind::IncrFence);
    lemma_meta_keys_differ();
    reveal_with_fuel(applied, 2);
    assert(ops.drop_last() =~= Seq::<OpView>::empty());
}

} // verus!
