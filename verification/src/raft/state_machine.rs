//! State machine: commands become batches of writes to the store.
//!
//! A command collects its writes in a batch, over which it reads the contents of the
//! store, and the batch is applied as one; it moves the number of the last applied
//! command on with it. Time enters only through the command.

use vstd::prelude::*;
use crate::db::{
    applied, is_scan, lemma_applied_concat, same_at, scan, BatchOp, Cell, Db, DbView, OpView,
    WriteBatch,
};
use crate::engine::edge::edge_text;
use crate::engine::ops::{
    acquire_inner, acquire_plan, claim_ttl, clear_wait_edge_inner, force_release_inner,
    release_all_inner, release_all_plan, release_inner, release_plan, renew_inner, renew_plan,
    set_claim_inner, set_wait_edge_inner,
};
use crate::engine::steps::{steps_ops, StepView};
use crate::raft::command::{ApplyResponse, Command, Op, OpKind, ResponseView};
use crate::order::{lex_less, lex_lt};
use crate::store_keys::{
    decode_expiry_entry, decode_expiry_spec, expired, expiry_at, expiry_key, expiry_scan_upper,
    expiry_scan_upper_spec, index_at, is_expired, member_key, member_key_spec, member_prefix, Cf,
    MAX_SET_ENUM_MEMBERS,
};
use crate::store_rocksdb::{
    agree_under, db_get_str, db_has_live_member, db_member_rows, db_range_after, db_sismember,
    db_smembers_limited, db_smembers_page, delete_rows, keys_after, lemma_agree_set, lemma_with_ops,
    member_rows, opt_key, put_members, put_text, with_ops, ErrorView, RecordView, StoreError,
    StoreTxn, StoredRecord, TxnView,
};
use crate::text::{
    byte_text, bytes_of_text, lemma_utf8_injective, text_bytes, text_of_bytes, texts, utf8,
};

verus! {

// ---------------------------------------------------------------------------
// Durability
// ---------------------------------------------------------------------------

/// Whether applied batches are synced to stable storage before they are
/// acknowledged. Off until it is set.
#[derive(Debug, Clone, Copy)]
pub struct WalSync {
    pub enabled: bool,
}

impl WalSync {
    pub fn new() -> (r: WalSync)
        ensures
            !r.enabled,
    {
        WalSync { enabled: false }
    }
}

/// Sets whether the batches applied from now on are synced.
pub fn set_wal_sync(sync: &mut WalSync, enabled: bool)
    ensures
        final(sync).enabled == enabled,
{
    sync.enabled = enabled;
}

// ---------------------------------------------------------------------------
// The writing transaction
// ---------------------------------------------------------------------------

/// A transaction that collects its writes, and reads the contents of the store through
/// them.
pub struct RocksDbStoreTxn<'a> {
    db: &'a Db,
    batch: WriteBatch,
    now_ms: u64,
}

impl<'a> RocksDbStoreTxn<'a> {
    /// A transaction over `db` at `now_ms`, without writes so far.
    pub fn new(db: &'a Db, now_ms: u64) -> (r: Self)
        ensures
            r.state() == (TxnView { db: db@, now: now_ms, writable: true, ops: Seq::empty() }),
            r.began() == db@,
    {
        RocksDbStoreTxn { db, batch: WriteBatch::new(), now_ms }
    }

    /// The contents that the transaction began with.
    pub closed spec fn began(&self) -> DbView {
        self.db@
    }

    /// The rows of `cf` that begin with `prefix`, among others, as the transaction sees
    /// them; `None` if it has taken no writes and so sees what it began with.
    fn seen(&self, cf: Cf, prefix: &[u8]) -> (r: Option<Db>)
        ensures
            match r {
                Some(rows) => rows@.dom().finite() && agree_under(
                    rows@,
                    self.state().db,
                    cf,
                    prefix@,
                ),
                None => self.state().db == self.began(),
            },
    {
        if self.batch.ops.len() == 0 {
            assert(self.batch@ =~= Seq::<OpView>::empty());
            return None;
        }
        let mut rows = Db::new();
        let (lo, hi) = self.db.scan_range(cf, prefix);
        let ghost ks = scan(self.db@, cf, prefix@);
        let mut i: usize = lo;
        while i < hi
            invariant
                lo <= i <= hi <= self.db.row_count(),
                rows@.dom().finite(),
                is_scan(self.db@, cf, prefix@, ks),
                ks == Seq::new((hi - lo) as nat, |j: int| self.db.row_spec(lo + j).key@),
                forall|j: int| lo <= j < hi ==> (#[trigger] self.db.row_spec(j)).cf == cf,
                forall|k: Seq<u8>| #[trigger]
                    rows@.dom().contains((cf, k)) <==> ks.take(i - lo).contains(k),
                forall|k: Seq<u8>| #[trigger]
                    rows@.dom().contains((cf, k)) ==> rows@[(cf, k)] == self.db@[(cf, k)],
            decreases hi - i,
        {
            let row = self.db.row(i);
            let ghost before = ks.take(i - lo);
            let ghost next = ks.take(i - lo + 1);
            proof {
                assert(ks[i - lo] == row.key@);
                assert(row.place() == (cf, row.key@));
                assert(next =~= before.push(row.key@));
                assert forall|k: Seq<u8>| #[trigger] next.contains(k) <==> before.contains(k) || k
                    == row.key@ by {
                    if before.contains(k) {
                        let j = before.index_of(k);
                        assert(next[j] == k);
                    }
                    assert(next[i - lo] == row.key@);
                }
            }
            rows.put(cf, vstd::slice::slice_to_vec(row.key.as_slice()), row.cell.copy());
            i = i + 1;
        }
        assert(ks.take(hi - lo) =~= ks);
        let ghost all = self.batch@;
        assert(all.take(0) =~= Seq::<OpView>::empty());
        assert(agree_under(rows@, applied(self.db@, all.take(0)), cf, prefix@)) by {
            assert forall|k: Seq<u8>| prefix@.is_prefix_of(k) implies #[trigger] same_at(
                rows@,
                self.db@,
                (cf, k),
            ) by {
                assert(ks.contains(k) <==> self.db@.dom().contains((cf, k)));
            }
        }
        let mut j: usize = 0;
        while j < self.batch.ops.len()
            invariant
                j <= self.batch.ops@.len(),
                rows@.dom().finite(),
                all == self.batch@,
                agree_under(rows@, applied(self.db@, all.take(j as int)), cf, prefix@),
            decreases self.batch.ops@.len() - j,
        {
            let ghost before = applied(self.db@, all.take(j as int));
            let ghost old_rows = rows@;
            proof {
                assert(all.take(j + 1).drop_last() =~= all.take(j as int));
                assert(all.take(j + 1).last() == self.batch.ops@[j as int]@);
            }
            match &self.batch.ops[j] {
                BatchOp::Put { cf: c, key, record } => {
                    if *c == cf {
                        let key = vstd::slice::slice_to_vec(key.as_slice());
                        rows.put(cf, key, Cell::Record(record.copy()));
                    }
                },
                BatchOp::Delete { cf: c, key } => {
                    if *c == cf {
                        rows.delete(cf, key.as_slice());
                    }
                },
            }
            proof {
                let after = applied(self.db@, all.take(j + 1));
                assert forall|k: Seq<u8>| prefix@.is_prefix_of(k) implies #[trigger] same_at(
                    rows@,
                    after,
                    (cf, k),
                ) by {
                    assert(same_at(old_rows, before, (cf, k)));
                }
            }
            j = j + 1;
        }
        assert(all.take(all.len() as int) =~= all);
        Some(rows)
    }

    /// Ends the transaction and gives its writes.
    pub fn commit(self) -> (r: WriteBatch)
        ensures
            r@ == self.state().ops,
    {
        self.batch
    }

    proof fn lemma_took(before: Self, after: Self, ops: Seq<OpView>)
        requires
            after.db == before.db,
            after.now_ms == before.now_ms,
            after.batch@ == before.batch@ + ops,
        ensures
            after.state() == with_ops(before.state(), ops),
    {
        lemma_applied_concat(before.db@, before.batch@, ops);
    }

    /// Adds the entry of the expiry index for the record at (`cf`, `primary_key`), under
    /// the given time.
    fn write_expiry(&mut self, exp: u64, cf: Cf, primary_key: &[u8])
        ensures
            final(self).state() == with_ops(
                old(self).state(),
                seq![
                    OpView::Put {
                        cf: Cf::Expiry,
                        key: crate::store_keys::expiry_key_spec(exp, cf, primary_key@),
                        record: RecordView::Str { v: Seq::empty(), exp },
                    },
                ],
            ),
    {
        let ghost before = *self;
        let ek = expiry_key(exp, cf, primary_key);
        self.batch.put_cf(
            Cf::Expiry,
            ek.as_slice(),
            StoredRecord::Str { v: String::new(), exp },
        );
        proof {
            let put = OpView::Put {
                cf: Cf::Expiry,
                key: ek@,
                record: RecordView::Str { v: Seq::empty(), exp },
            };
            assert(self.batch@ =~= before.batch@ + seq![put]);
            Self::lemma_took(before, *self, seq![put]);
        }
    }

    /// Adds a text and, if it expires, its entry in the expiry index.
    fn put_expiring(&mut self, cf: Cf, key: &[u8], value: &str, ttl_ms: u64)
        ensures
            final(self).state() == with_ops(
                old(self).state(),
                put_text(old(self).state().now, cf, key@, value@, ttl_ms),
            ),
    {
        let ghost before = *self;
        let exp = expiry_at(self.now_ms, ttl_ms);
        self.batch.put_cf(cf, key, StoredRecord::Str { v: value.to_owned(), exp });
        let ghost put = OpView::Put { cf, key: key@, record: RecordView::Str { v: value@, exp } };
        let ghost all = put_text(before.now_ms, cf, key@, value@, ttl_ms);
        proof {
            assert(self.batch@ =~= before.batch@ + seq![put]);
            Self::lemma_took(before, *self, seq![put]);
            lemma_with_ops(before.state(), seq![put], all.skip(1));
            assert(seq![put] + all.skip(1) =~= all);
        }
        if ttl_ms > 0 {
            self.write_expiry(index_at(exp, ttl_ms), cf, key);
            assert(all.skip(1) =~= seq![all[1]]);
        } else {
            assert(all =~= seq![put]);
        }
    }
}

impl<'a> StoreTxn for RocksDbStoreTxn<'a> {
    closed spec fn state(&self) -> TxnView {
        TxnView {
            db: applied(self.db@, self.batch@),
            now: self.now_ms,
            writable: true,
            ops: self.batch@,
        }
    }

    fn now_ms(&self) -> u64 {
        self.now_ms
    }

    fn get_str(&mut self, cf: Cf, key: &[u8]) -> Result<Option<String>, StoreError> {
        match self.seen(cf, key) {
            None => db_get_str(self.db, self.now_ms, cf, key),
            Some(rows) => {
                assert(same_at(rows@, self.state().db, (cf, key@)));
                db_get_str(&rows, self.now_ms, cf, key)
            },
        }
    }

    fn set_str(&mut self, cf: Cf, key: &[u8], value: &str, ttl_ms: u64) -> Result<(), StoreError> {
        self.put_expiring(cf, key, value, ttl_ms);
        Ok(())
    }

    fn pexpire_str(&mut self, cf: Cf, key: &[u8], ttl_ms: u64) -> Result<(), StoreError> {
        match self.get_str(cf, key) {
            Ok(Some(v)) => self.set_str(cf, key, v.as_str(), ttl_ms),
            Ok(None) => {
                assert(self.state().ops + Seq::<OpView>::empty() =~= self.state().ops);
                Ok(())
            },
            Err(e) => Err(e),
        }
    }

    fn del(&mut self, cf: Cf, key: &[u8]) -> Result<(), StoreError> {
        let ghost before = *self;
        self.batch.delete_cf(cf, key);
        proof {
            let gone = OpView::Delete { cf, key: key@ };
            assert(self.batch@ =~= before.batch@ + seq![gone]);
            Self::lemma_took(before, *self, seq![gone]);
        }
        Ok(())
    }

    fn sadd(&mut self, cf: Cf, key: &[u8], member: &str, ttl_ms: u64) -> Result<(), StoreError> {
        let mk = member_key(key, member);
        self.put_expiring(cf, mk.as_slice(), member, ttl_ms);
        Ok(())
    }

    fn srem(&mut self, cf: Cf, key: &[u8], member: &str) -> Result<(), StoreError> {
        let mk = member_key(key, member);
        self.del(cf, mk.as_slice())
    }

    fn smembers_limited(&mut self, cf: Cf, key: &[u8], limit: usize) -> Result<
        Vec<String>,
        StoreError,
    > {
        let prefix = member_prefix(key);
        match self.seen(cf, prefix.as_slice()) {
            None => db_smembers_limited(self.db, self.now_ms, cf, key, limit),
            Some(rows) => {
                proof {
                    lemma_agree_set(rows@, self.state().db, self.now_ms, cf, key@);
                }
                db_smembers_limited(&rows, self.now_ms, cf, key, limit)
            },
        }
    }

    fn smembers_page(&mut self, cf: Cf, key: &[u8], from: usize, limit: usize) -> (Vec<String>, bool) {
        let prefix = member_prefix(key);
        match self.seen(cf, prefix.as_slice()) {
            None => db_smembers_page(self.db, self.now_ms, cf, key, from, limit),
            Some(rows) => {
                proof {
                    lemma_agree_set(rows@, self.state().db, self.now_ms, cf, key@);
                }
                db_smembers_page(&rows, self.now_ms, cf, key, from, limit)
            },
        }
    }

    fn sismember(&mut self, cf: Cf, key: &[u8], member: &str) -> Result<bool, StoreError> {
        let mk = member_key(key, member);
        match self.seen(cf, mk.as_slice()) {
            None => db_sismember(self.db, self.now_ms, cf, key, member),
            Some(rows) => {
                assert(same_at(rows@, self.state().db, (cf, mk@)));
                db_sismember(&rows, self.now_ms, cf, key, member)
            },
        }
    }

    fn has_live_member(&mut self, cf: Cf, key: &[u8]) -> Result<bool, StoreError> {
        let prefix = member_prefix(key);
        match self.seen(cf, prefix.as_slice()) {
            None => Ok(db_has_live_member(self.db, self.now_ms, cf, key)),
            Some(rows) => {
                proof {
                    lemma_agree_set(rows@, self.state().db, self.now_ms, cf, key@);
                }
                Ok(db_has_live_member(&rows, self.now_ms, cf, key))
            },
        }
    }

    fn pexpire_set(&mut self, cf: Cf, key: &[u8], ttl_ms: u64) -> Result<(), StoreError> {
        let members = match self.smembers_limited(cf, key, MAX_SET_ENUM_MEMBERS) {
            Ok(members) => members,
            Err(e) => {
                return Err(e);
            },
        };
        let ghost all = texts(members@);
        let ghost start = self.state();
        let mut i: usize = 0;
        assert(all.take(0) =~= Seq::<Seq<char>>::empty());
        assert(put_members(start.now, cf, key@, all.take(0), ttl_ms) =~= Seq::<OpView>::empty());
        assert(start.ops + Seq::<OpView>::empty() =~= start.ops);
        while i < members.len()
            invariant
                i <= members@.len(),
                all == texts(members@),
                start.writable,
                self.state() == with_ops(
                    start,
                    put_members(start.now, cf, key@, all.take(i as int), ttl_ms),
                ),
            decreases members@.len() - i,
        {
            let _ = self.sadd(cf, key, members[i].as_str(), ttl_ms);
            proof {
                let next = all.take(i + 1);
                assert(next.drop_last() =~= all.take(i as int));
                assert(next.last() == members@[i as int]@);
                lemma_with_ops(
                    start,
                    put_members(start.now, cf, key@, all.take(i as int), ttl_ms),
                    put_text(
                        start.now,
                        cf,
                        member_key_spec(key@, next.last()),
                        next.last(),
                        ttl_ms,
                    ),
                );
            }
            i = i + 1;
        }
        assert(all.take(all.len() as int) =~= all);
        Ok(())
    }

    fn del_set(&mut self, cf: Cf, key: &[u8]) -> Result<(), StoreError> {
        let prefix = member_prefix(key);
        let rows = match self.seen(cf, prefix.as_slice()) {
            None => db_member_rows(self.db, cf, key),
            Some(seen) => {
                proof {
                    lemma_agree_set(seen@, self.state().db, self.now_ms, cf, key@);
                }
                db_member_rows(&seen, cf, key)
            },
        };
        let ghost ks = member_rows(self.state().db, cf, key@);
        let ghost start = self.state();
        let mut i: usize = 0;
        assert(delete_rows(cf, ks).take(0) =~= Seq::<OpView>::empty());
        assert(start.ops + Seq::<OpView>::empty() =~= start.ops);
        while i < rows.len()
            invariant
                i <= rows@.len(),
                ks == Seq::new(rows@.len(), |j: int| rows@[j]@),
                start.writable,
                self.state() == with_ops(start, delete_rows(cf, ks).take(i as int)),
            decreases rows@.len() - i,
        {
            let _ = self.del(cf, rows[i].as_slice());
            proof {
                assert(ks[i as int] == rows@[i as int]@);
                let all = delete_rows(cf, ks);
                lemma_with_ops(start, all.take(i as int), seq![all[i as int]]);
                assert(all.take(i as int) + seq![all[i as int]] =~= all.take(i + 1));
            }
            i = i + 1;
        }
        assert(delete_rows(cf, ks).take(ks.len() as int) =~= delete_rows(cf, ks));
        Ok(())
    }
}

// ---------------------------------------------------------------------------
// GC sweep
// ---------------------------------------------------------------------------

/// The number of leading keys that sort before `upper`.
pub open spec fn leading_below(ks: Seq<Seq<u8>>, upper: Seq<u8>) -> nat
    decreases ks.len(),
{
    if ks.len() == 0 || !lex_lt(ks[0], upper) {
        0
    } else {
        1 + leading_below(ks.drop_first(), upper)
    }
}

/// The key of the sweep's position in the expiry index.
pub open spec fn gc_cursor_key() -> Seq<u8> {
    utf8("gc_cursor"@)
}

/// The entry of the expiry index up to which everything has been swept, if a sweep
/// has left one.
pub open spec fn gc_cursor(db: DbView) -> Option<Seq<u8>> {
    let place = (Cf::Meta, gc_cursor_key());
    if !db.dom().contains(place) {
        None
    } else {
        match db[place] {
            Some(RecordView::Str { v, .. }) => text_bytes(v),
            _ => None,
        }
    }
}

/// Writing the sweep's position.
pub open spec fn put_cursor(k: Seq<u8>) -> OpView {
    OpView::Put {
        cf: Cf::Meta,
        key: gc_cursor_key(),
        record: RecordView::Str { v: byte_text(k), exp: 0 },
    }
}

/// The entries of the expiry index that are not swept yet, in ascending order.
pub open spec fn unswept_rows(db: DbView) -> Seq<Seq<u8>> {
    keys_after(db, Cf::Expiry, gc_cursor(db))
}

/// The entries that one sweep processes: those due by `now`, at most `batch`.
pub open spec fn swept_rows(db: DbView, now: u64, batch: nat) -> Seq<Seq<u8>> {
    let due = leading_below(unswept_rows(db), expiry_scan_upper_spec(now));
    unswept_rows(db).take(if due < batch { due as int } else { batch as int })
}

/// Whether the store holds a text at (`cf`, `key`) that has expired by `now`.
pub open spec fn holds_expired(db: DbView, cf: Cf, key: Seq<u8>, now: u64) -> bool {
    db.dom().contains((cf, key)) && (db[(cf, key)] matches Some(RecordView::Str { exp, .. })
        && is_expired(exp, now))
}

/// Whether an entry of the index points at a place.
pub open spec fn points_at(k: Seq<u8>, place: (Cf, Seq<u8>)) -> bool {
    decode_expiry_spec(k) matches Some((_, cf, key)) && (cf, key) == place
}

/// What a sweep does with one entry: the record that it points at is removed if
/// it has expired, and the entry is removed in any case.
pub open spec fn sweep_entry(db: DbView, k: Seq<u8>, now: u64) -> Seq<OpView> {
    let entry = OpView::Delete { cf: Cf::Expiry, key: k };
    match decode_expiry_spec(k) {
        Some((_, cf, key)) => if holds_expired(db, cf, key, now) {
            seq![OpView::Delete { cf, key }, entry]
        } else {
            seq![entry]
        },
        None => seq![entry],
    }
}

/// The writes of a sweep over the given entries.
pub open spec fn sweep_ops(db: DbView, ks: Seq<Seq<u8>>, now: u64) -> Seq<OpView>
    decreases ks.len(),
{
    if ks.len() == 0 {
        Seq::empty()
    } else {
        sweep_ops(db, ks.drop_last(), now) + sweep_entry(db, ks.last(), now)
    }
}

/// Where the records stand that a sweep over the given entries reclaims.
pub open spec fn reclaimed(db: DbView, ks: Seq<Seq<u8>>, now: u64) -> Set<(Cf, Seq<u8>)> {
    Set::new(
        |p: (Cf, Seq<u8>)|
            holds_expired(db, p.0, p.1, now) && exists|i: int|
                0 <= i < ks.len() && points_at(#[trigger] ks[i], p),
    )
}

/// The number of records that a sweep over the given entries reclaims.
pub open spec fn sweep_count(db: DbView, ks: Seq<Seq<u8>>, now: u64) -> nat {
    reclaimed(db, ks, now).len()
}

/// The writes of a sweep: what it removes, and the position that it leaves.
pub open spec fn sweep_writes(db: DbView, ks: Seq<Seq<u8>>, now: u64) -> Seq<OpView> {
    if ks.len() == 0 {
        Seq::empty()
    } else {
        sweep_ops(db, ks, now).push(put_cursor(ks.last()))
    }
}

/// One more entry reclaims at most one more record.
pub proof fn lemma_reclaimed_step(db: DbView, ks: Seq<Seq<u8>>, now: u64)
    requires
        ks.len() > 0,
    ensures
        ({
            let rest = reclaimed(db, ks.drop_last(), now);
            match decode_expiry_spec(ks.last()) {
                Some((_, cf, key)) => if holds_expired(db, cf, key, now) {
                    reclaimed(db, ks, now) == rest.insert((cf, key))
                } else {
                    reclaimed(db, ks, now) == rest
                },
                None => reclaimed(db, ks, now) == rest,
            }
        }),
{
    let front = ks.drop_last();
    let rest = reclaimed(db, front, now);
    let all = reclaimed(db, ks, now);
    assert(ks[ks.len() - 1] == ks.last());
    assert forall|p: (Cf, Seq<u8>)| #[trigger]
        all.contains(p) <==> rest.contains(p) || (points_at(ks.last(), p) && holds_expired(
            db,
            p.0,
            p.1,
            now,
        )) by {
        if rest.contains(p) {
            let i = choose|i: int| 0 <= i < front.len() && points_at(#[trigger] front[i], p);
            assert(ks[i] == front[i]);
        }
        if all.contains(p) && !points_at(ks.last(), p) {
            let i = choose|i: int| 0 <= i < ks.len() && points_at(#[trigger] ks[i], p);
            assert(front[i] == ks[i]);
        }
    }
    match decode_expiry_spec(ks.last()) {
        Some((_, cf, key)) => {
            if holds_expired(db, cf, key, now) {
                assert(points_at(ks.last(), (cf, key)));
                assert(all =~= rest.insert((cf, key)));
            } else {
                assert(all =~= rest);
            }
        },
        None => {
            assert(all =~= rest);
        },
    }
}

proof fn lemma_leading_below(ks: Seq<Seq<u8>>, upper: Seq<u8>, n: int)
    requires
        0 <= n <= ks.len(),
        forall|i: int| 0 <= i < n ==> lex_lt(#[trigger] ks[i], upper),
    ensures
        leading_below(ks, upper) >= n,
        leading_below(ks, upper) <= ks.len(),
        (n == ks.len() || !lex_lt(ks[n], upper)) ==> leading_below(ks, upper) == n,
    decreases ks.len(),
{
    if ks.len() > 0 && lex_lt(ks[0], upper) {
        let rest = ks.drop_first();
        if n > 0 {
            assert forall|i: int| 0 <= i < n - 1 implies lex_lt(#[trigger] rest[i], upper) by {
                assert(rest[i] == ks[i + 1]);
            }
            lemma_leading_below(rest, upper, n - 1);
        } else {
            lemma_leading_below(rest, upper, 0);
        }
    }
}

/// The entry of the expiry index up to which everything has been swept.
pub fn read_cursor(db: &Db) -> (r: Option<Vec<u8>>)
    ensures
        opt_key(r) == gc_cursor(db@),
{
    match db.get(Cf::Meta, "gc_cursor".as_bytes()) {
        Some(Cell::Record(StoredRecord::Str { v, .. })) => bytes_of_text(v.as_str()),
        _ => None,
    }
}

/// Processes one entry of the expiry index. `seen` holds the places of the records that
/// were reclaimed so far; whether this entry adds one.
fn sweep_one<'a>(txn: &mut RocksDbStoreTxn<'a>, k: &[u8], now_ms: u64, seen: &mut Db) -> (r: bool)
    ensures
        final(txn).state() == with_ops(
            old(txn).state(),
            sweep_entry(old(txn).began(), k@, now_ms),
        ),
        final(txn).db == old(txn).db,
        final(txn).began() == old(txn).began(),
        match decode_expiry_spec(k@) {
            Some((_, cf, key)) => if holds_expired(old(txn).began(), cf, key, now_ms) {
                &&& final(seen)@.dom() == old(seen)@.dom().insert((cf, key))
                &&& r == !old(seen)@.dom().contains((cf, key))
            } else {
                !r && final(seen)@ == old(seen)@
            },
            None => !r && final(seen)@ == old(seen)@,
        },
{
    let mut hit = false;
    let ghost before = *txn;
    if let Some((_, cf, key)) = decode_expiry_entry(k) {
        let db: &Db = txn.db;
        if let Some(Cell::Record(StoredRecord::Str { exp, .. })) = db.get(cf, key.as_slice()) {
            if expired(*exp, now_ms) {
                txn.batch.delete_cf(cf, key.as_slice());
                hit = seen.get(cf, key.as_slice()).is_none();
                seen.put(cf, key, Cell::Undecodable);
            }
        }
    }
    txn.batch.delete_cf(Cf::Expiry, k);
    proof {
        let ops = sweep_entry(before.db@, k@, now_ms);
        assert(txn.batch@ =~= before.batch@ + ops);
        RocksDbStoreTxn::lemma_took(before, *txn, ops);
    }
    hit
}

/// Leaves the position of a sweep.
fn write_cursor<'a>(txn: &mut RocksDbStoreTxn<'a>, k: &[u8])
    ensures
        final(txn).state() == with_ops(old(txn).state(), seq![put_cursor(k@)]),
{
    let ghost before = *txn;
    txn.batch.put_cf(
        Cf::Meta,
        "gc_cursor".as_bytes(),
        StoredRecord::Str { v: text_of_bytes(k), exp: 0 },
    );
    proof {
        assert(txn.batch@ =~= before.batch@ + seq![put_cursor(k@)]);
        RocksDbStoreTxn::lemma_took(before, *txn, seq![put_cursor(k@)]);
    }
}

/// Reclaims what has expired by `now_ms`, for at most `batch` entries of the expiry
/// index, from where the sweep before it ended. A record that was refreshed since an
/// entry was written stays; the entry goes. Returns the number of records reclaimed. A
/// sweep goes by what the transaction began with.
pub fn gc_sweep<'a>(txn: &mut RocksDbStoreTxn<'a>, now_ms: u64, batch: u32) -> (r: u64)
    ensures
        ({
            let ks = swept_rows(old(txn).began(), now_ms, batch as nat);
            &&& r == sweep_count(old(txn).began(), ks, now_ms)
            &&& r <= batch
            &&& final(txn).state() == with_ops(
                old(txn).state(),
                sweep_writes(old(txn).began(), ks, now_ms),
            )
        }),
{
    let db: &Db = txn.db;
    let upper = expiry_scan_upper(now_ms);
    let cursor = read_cursor(db);
    let (lo, hi) = db_range_after(db, Cf::Expiry, &cursor);
    let ghost rows = unswept_rows(db@);
    let ghost start = txn.state();
    let mut i: usize = lo;
    let mut scanned: u32 = 0;
    let mut count: u64 = 0;
    let mut seen = Db::new();
    assert(rows.take(0) =~= Seq::<Seq<u8>>::empty());
    assert(start.ops + Seq::<OpView>::empty() =~= start.ops);
    assert(reclaimed(db@, rows.take(0), now_ms) =~= Set::<(Cf, Seq<u8>)>::empty());
    assert(seen@.dom() =~= Set::<(Cf, Seq<u8>)>::empty());
    while i < hi && scanned < batch
        invariant_except_break
            i - lo == scanned,
        invariant
            lo <= i <= hi <= db.row_count(),
            i - lo <= batch,
            scanned <= batch,
            start.writable,
            db@ == old(txn).began(),
            txn.began() == db@,
            db == txn.db,
            upper@ == expiry_scan_upper_spec(now_ms),
            rows == unswept_rows(db@),
            rows == Seq::new((hi - lo) as nat, |j: int| db.row_spec(lo + j).key@),
            forall|j: int| lo <= j < hi ==> (#[trigger] db.row_spec(j)).cf == Cf::Expiry,
            forall|j: int| 0 <= j < i - lo ==> lex_lt(#[trigger] rows[j], upper@),
            seen@.dom() == reclaimed(db@, rows.take(i - lo), now_ms),
            seen@.dom().finite(),
            count == seen@.dom().len(),
            count <= scanned,
            txn.state() == with_ops(start, sweep_ops(db@, rows.take(i - lo), now_ms)),
        ensures
            i - lo == batch || i == hi || !lex_lt(rows[i - lo], upper@),
        decreases hi - i,
    {
        let row = db.row(i);
        let k = row.key.as_slice();
        assert(rows[i - lo] == k@);
        if !lex_less(k, upper.as_slice()) {
            break;
        }
        let ghost next = rows.take(i - lo + 1);
        proof {
            assert(next.drop_last() =~= rows.take(i - lo));
            assert(next.last() == k@);
            lemma_with_ops(
                start,
                sweep_ops(db@, rows.take(i - lo), now_ms),
                sweep_entry(db@, k@, now_ms),
            );
            lemma_reclaimed_step(db@, next, now_ms);
        }
        if sweep_one(txn, k, now_ms, &mut seen) {
            count = count + 1;
        }
        scanned = scanned + 1;
        i = i + 1;
    }
    let ghost ks = rows.take(i - lo);
    proof {
        lemma_leading_below(rows, upper@, i - lo);
        assert(ks =~= swept_rows(db@, now_ms, batch as nat));
    }
    if i > lo {
        let last = db.row(i - 1).key.as_slice();
        assert(ks.last() == last@);
        proof {
            lemma_with_ops(start, sweep_ops(db@, ks, now_ms), seq![put_cursor(last@)]);
            assert(sweep_ops(db@, ks, now_ms) + seq![put_cursor(last@)] =~= sweep_writes(
                db@,
                ks,
                now_ms,
            ));
        }
        write_cursor(txn, last);
    }
    count
}

/// The number of entries of the expiry index that a sweep at `now_ms` processes.
pub fn due_entries(db: &Db, now_ms: u64, batch: u32) -> (r: u32)
    ensures
        r == swept_rows(db@, now_ms, batch as nat).len(),
{
    let upper = expiry_scan_upper(now_ms);
    let cursor = read_cursor(db);
    let (lo, hi) = db_range_after(db, Cf::Expiry, &cursor);
    let ghost rows = unswept_rows(db@);
    let mut i: usize = lo;
    let mut due: u32 = 0;
    while i < hi && due < batch
        invariant_except_break
            i - lo == due,
        invariant
            lo <= i <= hi <= db.row_count(),
            i - lo == due <= batch,
            upper@ == expiry_scan_upper_spec(now_ms),
            rows == Seq::new((hi - lo) as nat, |j: int| db.row_spec(lo + j).key@),
            forall|j: int| 0 <= j < i - lo ==> lex_lt(#[trigger] rows[j], upper@),
        ensures
            i - lo == batch || i == hi || !lex_lt(rows[i - lo], upper@),
        decreases hi - i,
    {
        let k = db.row(i).key.as_slice();
        assert(rows[i - lo] == k@);
        if !lex_less(k, upper.as_slice()) {
            break;
        }
        due = due + 1;
        i = i + 1;
    }
    proof {
        lemma_leading_below(rows, upper@, i - lo);
        assert(rows.take(i - lo) =~= swept_rows(db@, now_ms, batch as nat));
    }
    due
}

// ---------------------------------------------------------------------------
// Counters
// ---------------------------------------------------------------------------

/// The value of a counter: `0` where no counter stands. Bytes that hold no record are
/// an error.
pub open spec fn counter_at(db: DbView, key: Seq<u8>) -> Result<i64, ErrorView> {
    let place = (Cf::Meta, key);
    if !db.dom().contains(place) {
        Ok(0)
    } else {
        match db[place] {
            None => Err(ErrorView::Undecodable),
            Some(RecordView::Counter { v }) => Ok(v),
            Some(_) => Ok(0),
        }
    }
}

/// The key of the fencing counter.
pub open spec fn fence_counter_key() -> Seq<u8> {
    utf8("fence_counter"@)
}

/// The value of the fencing counter.
pub open spec fn fence_counter(db: DbView) -> Result<i64, ErrorView> {
    counter_at(db, fence_counter_key())
}

/// The key of the number of the last applied command.
pub open spec fn last_applied_key() -> Seq<u8> {
    utf8("last_applied"@)
}

/// The number of the last command that was applied.
pub open spec fn last_applied(db: DbView) -> Result<i64, ErrorView> {
    counter_at(db, last_applied_key())
}

/// The count after `current`. At the largest it stays there.
pub open spec fn next_token(current: i64) -> i64 {
    if current == i64::MAX {
        i64::MAX
    } else {
        (current + 1) as i64
    }
}

/// Writing the fencing counter.
pub open spec fn put_counter(v: i64) -> OpView {
    OpView::Put { cf: Cf::Meta, key: fence_counter_key(), record: RecordView::Counter { v } }
}

/// Writing the number of the last applied command.
pub open spec fn put_applied(v: i64) -> OpView {
    OpView::Put { cf: Cf::Meta, key: last_applied_key(), record: RecordView::Counter { v } }
}

/// The keys of the counters and of the sweep's position are different.
pub proof fn lemma_meta_keys_differ()
    ensures
        fence_counter_key() != last_applied_key(),
        fence_counter_key() != gc_cursor_key(),
        last_applied_key() != gc_cursor_key(),
{
    reveal_strlit("fence_counter");
    reveal_strlit("last_applied");
    reveal_strlit("gc_cursor");
    if fence_counter_key() == last_applied_key() {
        lemma_utf8_injective("fence_counter"@, "last_applied"@);
    }
    if fence_counter_key() == gc_cursor_key() {
        lemma_utf8_injective("fence_counter"@, "gc_cursor"@);
    }
    if last_applied_key() == gc_cursor_key() {
        lemma_utf8_injective("last_applied"@, "gc_cursor"@);
    }
}

fn read_counter(db: &Db, key: &[u8]) -> (r: Result<i64, StoreError>)
    ensures
        match (r, counter_at(db@, key@)) {
            (Ok(a), Ok(b)) => a == b,
            (Err(e), Err(f)) => e@ == f,
            _ => false,
        },
{
    match db.get(Cf::Meta, key) {
        Some(Cell::Record(StoredRecord::Counter { v })) => Ok(*v),
        Some(Cell::Record(_)) => Ok(0),
        Some(Cell::Undecodable) => Err(StoreError::Undecodable),
        None => Ok(0),
    }
}

fn count_on(current: i64) -> (r: i64)
    ensures
        r == next_token(current),
{
    match current.checked_add(1) {
        Some(n) => n,
        None => i64::MAX,
    }
}

/// Advances the fencing counter and returns the new token.
pub fn incr_fence_inner<'a>(txn: &mut RocksDbStoreTxn<'a>) -> (r: Result<i64, StoreError>)
    ensures
        match fence_counter(old(txn).state().db) {
            Ok(current) => r == Ok::<i64, StoreError>(next_token(current)) && final(txn).state()
                == with_ops(old(txn).state(), seq![put_counter(next_token(current))]),
            Err(e) => (r matches Err(f) && f@ == e) && final(txn).state() == old(txn).state(),
        },
{
    let key = "fence_counter".as_bytes();
    let current = match txn.seen(Cf::Meta, key) {
        None => read_counter(txn.db, key),
        Some(rows) => {
            assert(same_at(rows@, txn.state().db, (Cf::Meta, key@)));
            read_counter(&rows, key)
        },
    };
    let next: i64 = match current {
        Err(e) => {
            return Err(e);
        },
        Ok(current) => count_on(current),
    };
    let ghost before = *txn;
    txn.batch.put_cf(Cf::Meta, key, StoredRecord::Counter { v: next });
    proof {
        assert(txn.batch@ =~= before.batch@ + seq![put_counter(next)]);
        RocksDbStoreTxn::lemma_took(before, *txn, seq![put_counter(next)]);
    }
    Ok(next)
}

// ---------------------------------------------------------------------------
// Apply
// ---------------------------------------------------------------------------

/// The response to a command and the writes that it makes, or the error for which
/// it makes none.
pub type Applied = Result<(ResponseView, Seq<OpView>), ErrorView>;

/// A response without a value, and the writes of a plan.
pub open spec fn unit_plan(now: u64, plan: Result<Seq<StepView>, ErrorView>) -> Applied {
    match plan {
        Ok(steps) => Ok((ResponseView::Unit, steps_ops(now, steps))),
        Err(e) => Err(e),
    }
}

/// The response to a command and its own writes.
pub open spec fn command_writes(db: DbView, now: u64, op: OpKind) -> Applied {
    match op {
        OpKind::Acquire(args) => match acquire_plan(db, now, args) {
            Ok((outcome, steps)) => Ok((ResponseView::Acquire(outcome), steps_ops(now, steps))),
            Err(e) => Err(e),
        },
        OpKind::Release { owner, reqs, del_wait } => unit_plan(
            now,
            release_plan(db, now, owner, reqs, del_wait),
        ),
        OpKind::ReleaseAll { owner, del_wait } => unit_plan(
            now,
            release_all_plan(db, now, owner, del_wait),
        ),
        OpKind::Renew { owner, ttl_ms } => match renew_plan(db, now, owner, ttl_ms) {
            Ok((outcome, steps)) => Ok((ResponseView::Renew(outcome), steps_ops(now, steps))),
            Err(e) => Err(e),
        },
        OpKind::ForceRelease { victim } => unit_plan(
            now,
            release_all_plan(db, now, victim, true),
        ),
        OpKind::SetClaim { path, claimant, ttl_ms } => unit_plan(
            now,
            Ok(seq![StepView::Claim { path, claimant, ttl: claim_ttl(ttl_ms) }]),
        ),
        OpKind::SetWaitEdge { owner, conflict_owner, metadata, ttl_ms } => unit_plan(
            now,
            Ok(
                seq![
                    StepView::Wait { owner, edge: edge_text(conflict_owner, metadata), ttl: ttl_ms },
                ],
            ),
        ),
        OpKind::ClearWaitEdge { owner } => unit_plan(now, Ok(seq![StepView::NoWait { owner }])),
        OpKind::GcSweep { now_ms, batch } => {
            let ks = swept_rows(db, now_ms, batch as nat);
            Ok((ResponseView::Gc(sweep_count(db, ks, now_ms) as u64), sweep_writes(db, ks, now_ms)))
        },
        OpKind::IncrFence => match fence_counter(db) {
            Ok(current) => Ok(
                (
                    ResponseView::IncrFence(next_token(current)),
                    seq![put_counter(next_token(current))],
                ),
            ),
            Err(e) => Err(e),
        },
    }
}

/// What a command does to the contents of the store: its own writes, and then the
/// number of the last applied command, one above what it was.
pub open spec fn command_effect(db: DbView, now: u64, op: OpKind) -> Applied {
    match command_writes(db, now, op) {
        Err(e) => Err(e),
        Ok((response, ops)) => match last_applied(db) {
            Err(e) => Err(e),
            Ok(n) => Ok((response, ops.push(put_applied(next_token(n))))),
        },
    }
}

/// What a command makes of the store is what its own writes make of it, with the
/// number of the last applied command moved on.
pub proof fn lemma_effect(db: DbView, now: u64, op: OpKind)
    requires
        command_effect(db, now, op) is Ok,
    ensures
        command_writes(db, now, op) is Ok,
        last_applied(db) is Ok,
        applied(db, command_effect(db, now, op)->Ok_0.1) == applied(
            db,
            command_writes(db, now, op)->Ok_0.1,
        ).insert(
            (Cf::Meta, last_applied_key()),
            Some(RecordView::Counter { v: next_token(last_applied(db)->Ok_0) }),
        ),
{
    let ops = command_writes(db, now, op)->Ok_0.1;
    let all = command_effect(db, now, op)->Ok_0.1;
    assert(all.drop_last() =~= ops);
}

/// The number of the last applied command and the state never come apart: whatever a
/// command writes, the number moves on by one with it.
pub proof fn law_applied_moves_on(db: DbView, now: u64, op: OpKind)
    requires
        command_effect(db, now, op) is Ok,
    ensures
        last_applied(db) is Ok,
        last_applied(applied(db, command_effect(db, now, op)->Ok_0.1)) == Ok::<i64, ErrorView>(
            next_token(last_applied(db)->Ok_0),
        ),
        last_applied(db)->Ok_0 < i64::MAX ==> last_applied(
            applied(db, command_effect(db, now, op)->Ok_0.1),
        ) == Ok::<i64, ErrorView>((last_applied(db)->Ok_0 + 1) as i64),
{
    lemma_effect(db, now, op);
}

fn unit(r: Result<(), StoreError>) -> (s: Result<ApplyResponse, StoreError>)
    ensures
        match (r, s) {
            (Ok(_), Ok(resp)) => resp@ == ResponseView::Unit,
            (Err(e), Err(f)) => e == f,
            _ => false,
        },
{
    match r {
        Ok(_) => Ok(ApplyResponse::Unit),
        Err(e) => Err(e),
    }
}

/// The response to a command, and its own writes.
fn run_command(db: &Db, cmd: &Command) -> (r: Result<(ApplyResponse, WriteBatch), StoreError>)
    ensures
        match (r, command_writes(db@, cmd.now_ms, cmd.op@)) {
            (Ok((resp, batch)), Ok((response, ops))) => resp@ == response && batch@ == ops,
            (Err(e), Err(f)) => e@ == f,
            _ => false,
        },
{
    let mut txn = RocksDbStoreTxn::new(db, cmd.now_ms);
    let ghost start = txn.state();
    assert(forall|ops: Seq<OpView>| #[trigger] with_ops(start, ops).ops =~= ops);
    let resp = match &cmd.op {
        Op::Acquire(args) => match acquire_inner(&mut txn, args) {
            Ok(outcome) => Ok(ApplyResponse::Acquire(outcome)),
            Err(e) => Err(e),
        },
        Op::Release { owner, reqs, del_wait } => unit(
            release_inner(&mut txn, owner.as_str(), reqs, *del_wait),
        ),
        Op::ReleaseAll { owner, del_wait } => unit(
            release_all_inner(&mut txn, owner.as_str(), *del_wait),
        ),
        Op::Renew { owner, ttl_ms } => match renew_inner(&mut txn, owner.as_str(), *ttl_ms) {
            Ok(outcome) => Ok(ApplyResponse::Renew(outcome)),
            Err(e) => Err(e),
        },
        Op::ForceRelease { victim } => unit(force_release_inner(&mut txn, victim.as_str())),
        Op::SetClaim { path, claimant, ttl_ms } => unit(
            set_claim_inner(&mut txn, path.as_str(), claimant.as_str(), *ttl_ms),
        ),
        Op::SetWaitEdge { owner, edge, ttl_ms } => unit(
            set_wait_edge_inner(
                &mut txn,
                owner.as_str(),
                edge.conflict_owner.as_str(),
                *ttl_ms,
                &edge.metadata,
            ),
        ),
        Op::ClearWaitEdge { owner } => unit(clear_wait_edge_inner(&mut txn, owner.as_str())),
        Op::GcSweep { now_ms, batch } => Ok(ApplyResponse::Gc(gc_sweep(&mut txn, *now_ms, *batch))),
        Op::IncrFence => match incr_fence_inner(&mut txn) {
            Ok(token) => Ok(ApplyResponse::IncrFence(token)),
            Err(e) => Err(e),
        },
    };
    match resp {
        Ok(resp) => Ok((resp, txn.commit())),
        Err(e) => Err(e),
    }
}

/// The response to a command, and the batch that makes it take effect. The batch ends
/// with the number of the last applied command, one above what it was.
pub fn prepare(db: &Db, cmd: &Command) -> (r: Result<(ApplyResponse, WriteBatch), StoreError>)
    ensures
        match (r, command_effect(db@, cmd.now_ms, cmd.op@)) {
            (Ok((resp, batch)), Ok((response, ops))) => resp@ == response && batch@ == ops,
            (Err(e), Err(f)) => e@ == f,
            _ => false,
        },
        r matches Ok((_, batch)) ==> last_applied(db@) is Ok && batch@.len() > 0 && batch@.last()
            == put_applied(next_token(last_applied(db@)->Ok_0)),
{
    let (resp, mut batch) = match run_command(db, cmd) {
        Err(e) => {
            return Err(e);
        },
        Ok(done) => done,
    };
    let key = "last_applied".as_bytes();
    let next: i64 = match read_counter(db, key) {
        Err(e) => {
            return Err(e);
        },
        Ok(n) => count_on(n),
    };
    let ghost ops = batch@;
    batch.put_cf(Cf::Meta, key, StoredRecord::Counter { v: next });
    assert(batch@ =~= ops.push(put_applied(next)));
    Ok((resp, batch))
}

/// Applies a command to the contents of the store, and moves the number of the last
/// applied command on by one with it. A command that fails changes nothing.
pub fn apply(db: &mut Db, cmd: &Command) -> (r: Result<ApplyResponse, StoreError>)
    ensures
        match (r, command_effect(old(db)@, cmd.now_ms, cmd.op@)) {
            (Ok(resp), Ok((response, ops))) => resp@ == response && final(db)@ == applied(
                old(db)@,
                ops,
            ),
            (Err(e), Err(f)) => e@ == f && final(db)@ == old(db)@,
            _ => false,
        },
        r is Ok ==> last_applied(old(db)@) is Ok && last_applied(final(db)@) == Ok::<
            i64,
            ErrorView,
        >(next_token(last_applied(old(db)@)->Ok_0)),
{
    match prepare(&*db, cmd) {
        Ok((resp, batch)) => {
            db.write(&batch);
            proof {
                law_applied_moves_on(old(db)@, cmd.now_ms, cmd.op@);
            }
            Ok(resp)
        },
        Err(e) => Err(e),
    }
}

} // verus!
