//! Store transactions: the operations that the lock engine reads and writes
//! through, and the read-only transaction over the contents of the store.

use vstd::prelude::*;
use crate::db::{
    applied, is_scan, lemma_applied_concat, lemma_scan_exists, lemma_scan_unique, same_at, scan,
    Cell, Db, DbView, OpView,
};
use crate::order::{lex_less, lex_lt};
use crate::store_keys::{
    expired, expiry_key_spec, expiry_time, index_time, is_expired, member_key, member_key_spec,
    member_prefix, member_prefix_spec, Cf, MAX_SET_ENUM_MEMBERS,
};
use crate::text::{concat2, push_decimal, decimal, texts};

verus! {

// ---------------------------------------------------------------------------
// Records
// ---------------------------------------------------------------------------

/// What the store keeps under a key.
#[derive(Debug, Clone)]
pub enum StoredRecord {
    Str { v: String, exp: u64 },
    Counter { v: i64 },
}

/// What the store keeps under a key.
pub enum RecordView {
    Str { v: Seq<char>, exp: u64 },
    Counter { v: i64 },
}

impl StoredRecord {
    pub open spec fn view(&self) -> RecordView {
        match self {
            StoredRecord::Str { v, exp } => RecordView::Str { v: v@, exp: *exp },
            StoredRecord::Counter { v } => RecordView::Counter { v: *v },
        }
    }

    /// A copy of the record.
    pub fn copy(&self) -> (r: StoredRecord)
        ensures
            r@ == self@,
    {
        match self {
            StoredRecord::Str { v, exp } => StoredRecord::Str { v: v.clone(), exp: *exp },
            StoredRecord::Counter { v } => StoredRecord::Counter { v: *v },
        }
    }
}

// ---------------------------------------------------------------------------
// Errors
// ---------------------------------------------------------------------------

/// A set had more live members than the operation may enumerate.
#[derive(Debug, Clone)]
pub struct SetScanLimitExceeded {
    pub operation: &'static str,
    pub limit: usize,
}

/// The message of a `SetScanLimitExceeded`.
pub open spec fn scan_limit_message(operation: Seq<char>, limit: nat) -> Seq<char> {
    operation + " on set would enumerate more than "@ + decimal(limit) + " live members"@
}

impl SetScanLimitExceeded {
    /// The message of the error.
    pub fn to_string(&self) -> (r: String)
        ensures
            r@ == scan_limit_message(self.operation@, self.limit as nat),
    {
        let mut out = concat2(self.operation, " on set would enumerate more than ");
        push_decimal(&mut out, self.limit as u64);
        out.append(" live members");
        out
    }
}

/// Why a store operation failed.
#[derive(Debug, Clone)]
pub enum StoreError {
    /// A set had more live members than the operation may enumerate.
    ScanLimit(SetScanLimitExceeded),
    /// The bytes under a key hold no record.
    Undecodable,
    /// A write through a read-only transaction.
    ReadOnly,
}

/// Why a store operation failed.
pub enum ErrorView {
    ScanLimit { operation: Seq<char>, limit: usize },
    Undecodable,
    ReadOnly,
}

/// The message of an error.
pub open spec fn error_message(e: ErrorView) -> Seq<char> {
    match e {
        ErrorView::ScanLimit { operation, limit } => scan_limit_message(operation, limit as nat),
        ErrorView::Undecodable => "value holds no record"@,
        ErrorView::ReadOnly => "RocksDbTxn is read-only"@,
    }
}

impl StoreError {
    pub open spec fn view(&self) -> ErrorView {
        match self {
            StoreError::ScanLimit(e) => ErrorView::ScanLimit {
                operation: e.operation@,
                limit: e.limit,
            },
            StoreError::Undecodable => ErrorView::Undecodable,
            StoreError::ReadOnly => ErrorView::ReadOnly,
        }
    }

    /// The message of the error.
    pub fn to_string(&self) -> (r: String)
        ensures
            r@ == error_message(self@),
    {
        match self {
            StoreError::ScanLimit(e) => e.to_string(),
            StoreError::Undecodable => "value holds no record".to_owned(),
            StoreError::ReadOnly => "RocksDbTxn is read-only".to_owned(),
        }
    }
}

/// Whether a result is the given one, by the view of what it holds.
pub open spec fn is_unit(r: Result<(), StoreError>, s: Result<(), ErrorView>) -> bool {
    match (r, s) {
        (Ok(_), Ok(_)) => true,
        (Err(e), Err(f)) => e@ == f,
        _ => false,
    }
}

/// Whether a result is the given one, by the view of what it holds.
pub open spec fn is_bool(r: Result<bool, StoreError>, s: Result<bool, ErrorView>) -> bool {
    match (r, s) {
        (Ok(a), Ok(b)) => a == b,
        (Err(e), Err(f)) => e@ == f,
        _ => false,
    }
}

/// The view of an optional text.
pub open spec fn opt_text(o: Option<String>) -> Option<Seq<char>> {
    match o {
        Some(s) => Some(s@),
        None => None,
    }
}

/// Whether a result is the given one, by the view of what it holds.
pub open spec fn is_text(
    r: Result<Option<String>, StoreError>,
    s: Result<Option<Seq<char>>, ErrorView>,
) -> bool {
    match (r, s) {
        (Ok(a), Ok(b)) => opt_text(a) == b,
        (Err(e), Err(f)) => e@ == f,
        _ => false,
    }
}

/// Whether a result is the given one, by the view of what it holds.
pub open spec fn is_texts(
    r: Result<Vec<String>, StoreError>,
    s: Result<Seq<Seq<char>>, ErrorView>,
) -> bool {
    match (r, s) {
        (Ok(a), Ok(b)) => texts(a@) == b,
        (Err(e), Err(f)) => e@ == f,
        _ => false,
    }
}

// ---------------------------------------------------------------------------
// What reads see
// ---------------------------------------------------------------------------

/// The text of a row that is a text and has not expired.
pub open spec fn live_text(cell: Option<RecordView>, now: u64) -> Option<Seq<char>> {
    match cell {
        Some(RecordView::Str { v, exp }) => if is_expired(exp, now) {
            None
        } else {
            Some(v)
        },
        _ => None,
    }
}

/// The live text under a key. Bytes that hold no record are an error.
pub open spec fn read_text(db: DbView, now: u64, cf: Cf, key: Seq<u8>) -> Result<
    Option<Seq<char>>,
    ErrorView,
> {
    if !db.dom().contains((cf, key)) {
        Ok(None)
    } else if db[(cf, key)] is None {
        Err(ErrorView::Undecodable)
    } else {
        Ok(live_text(db[(cf, key)], now))
    }
}

/// Whether a set has a live member. Bytes that hold no record are an error.
pub open spec fn read_member(
    db: DbView,
    now: u64,
    cf: Cf,
    key: Seq<u8>,
    member: Seq<char>,
) -> Result<bool, ErrorView> {
    match read_text(db, now, cf, member_key_spec(key, member)) {
        Ok(t) => Ok(t is Some),
        Err(e) => Err(e),
    }
}

/// The live texts under the given keys, in order.
pub open spec fn live_texts(db: DbView, now: u64, cf: Cf, ks: Seq<Seq<u8>>) -> Seq<Seq<char>>
    decreases ks.len(),
{
    if ks.len() == 0 {
        Seq::empty()
    } else {
        let rest = live_texts(db, now, cf, ks.drop_last());
        match live_text(db[(cf, ks.last())], now) {
            Some(v) => rest.push(v),
            None => rest,
        }
    }
}

/// The keys of a set's rows, in ascending order.
pub open spec fn member_rows(db: DbView, cf: Cf, key: Seq<u8>) -> Seq<Seq<u8>> {
    scan(db, cf, member_prefix_spec(key))
}

/// The live members of a set, in the order of their keys. More than `limit` of them are
/// an error, and so are more than four rows, live or not, for each member that may be
/// live. Bytes that hold no record count as a row and give no member.
pub open spec fn read_members(
    db: DbView,
    now: u64,
    cf: Cf,
    key: Seq<u8>,
    limit: usize,
) -> Result<Seq<Seq<char>>, ErrorView> {
    if live_texts(db, now, cf, member_rows(db, cf, key)).len() > limit || member_rows(
        db,
        cf,
        key,
    ).len() > 4 * limit {
        Err(ErrorView::ScanLimit { operation: "smembers"@, limit })
    } else {
        Ok(live_texts(db, now, cf, member_rows(db, cf, key)))
    }
}

/// The keys from the first that sorts after `cursor` on.
pub open spec fn rest_after(ks: Seq<Seq<u8>>, cursor: Seq<u8>) -> Seq<Seq<u8>>
    decreases ks.len(),
{
    if ks.len() == 0 || lex_lt(cursor, ks[0]) {
        ks
    } else {
        rest_after(ks.drop_first(), cursor)
    }
}

/// The keys of a column family that sort after a cursor, or all of them.
pub open spec fn keys_after(db: DbView, cf: Cf, cursor: Option<Seq<u8>>) -> Seq<Seq<u8>> {
    match cursor {
        None => scan(db, cf, Seq::empty()),
        Some(c) => rest_after(scan(db, cf, Seq::empty()), c),
    }
}

/// The first `n` keys, or all if there are no more.
pub open spec fn first_keys(ks: Seq<Seq<u8>>, n: nat) -> Seq<Seq<u8>> {
    if ks.len() <= n {
        ks
    } else {
        ks.take(n as int)
    }
}

/// The view of a list of keys.
pub open spec fn keys_view(v: Seq<Vec<u8>>) -> Seq<Seq<u8>> {
    Seq::new(v.len(), |i: int| v[i]@)
}

/// The view of an optional cursor.
pub open spec fn opt_key(o: Option<Vec<u8>>) -> Option<Seq<u8>> {
    match o {
        Some(k) => Some(k@),
        None => None,
    }
}

/// The part of a list of keys from position `from` on, of at most `limit` keys.
pub open spec fn page_of(ks: Seq<Seq<u8>>, from: int, limit: int) -> Seq<Seq<u8>> {
    if from >= ks.len() {
        Seq::empty()
    } else if from + limit >= ks.len() {
        ks.skip(from)
    } else {
        ks.subrange(from, from + limit)
    }
}

/// Whether a set has any live member.
pub open spec fn has_live(db: DbView, now: u64, cf: Cf, key: Seq<u8>) -> bool {
    exists|k: Seq<u8>| #[trigger]
        db.dom().contains((cf, k)) && member_prefix_spec(key).is_prefix_of(k) && live_text(
            db[(cf, k)],
            now,
        ) is Some
}

/// Two stores agree on the rows of `cf` that begin with `prefix`.
pub open spec fn agree_under(a: DbView, b: DbView, cf: Cf, prefix: Seq<u8>) -> bool {
    forall|k: Seq<u8>| prefix.is_prefix_of(k) ==> #[trigger] same_at(a, b, (cf, k))
}

proof fn lemma_agree_texts(a: DbView, b: DbView, now: u64, cf: Cf, ks: Seq<Seq<u8>>)
    requires
        forall|i: int| 0 <= i < ks.len() ==> a.dom().contains((cf, #[trigger] ks[i])),
        forall|i: int| 0 <= i < ks.len() ==> same_at(a, b, (cf, #[trigger] ks[i])),
    ensures
        live_texts(a, now, cf, ks) == live_texts(b, now, cf, ks),
    decreases ks.len(),
{
    if ks.len() > 0 {
        let front = ks.drop_last();
        assert forall|i: int| 0 <= i < front.len() implies a.dom().contains(
            (cf, #[trigger] front[i]),
        ) && same_at(a, b, (cf, front[i])) by {
            assert(front[i] == ks[i]);
        }
        lemma_agree_texts(a, b, now, cf, front);
        assert(same_at(a, b, (cf, ks[ks.len() - 1])));
    }
}

/// What is read of a set depends on its rows alone.
pub proof fn lemma_agree_set(a: DbView, b: DbView, now: u64, cf: Cf, key: Seq<u8>)
    requires
        a.dom().finite(),
        agree_under(a, b, cf, member_prefix_spec(key)),
    ensures
        member_rows(a, cf, key) == member_rows(b, cf, key),
        forall|from: int, limit: int|
            0 <= from && 0 <= limit ==> live_texts(
                a,
                now,
                cf,
                #[trigger] page_of(member_rows(a, cf, key), from, limit),
            ) == live_texts(b, now, cf, page_of(member_rows(a, cf, key), from, limit)),
        live_texts(a, now, cf, member_rows(a, cf, key)) == live_texts(
            b,
            now,
            cf,
            member_rows(a, cf, key),
        ),
        has_live(a, now, cf, key) == has_live(b, now, cf, key),
{
    let prefix = member_prefix_spec(key);
    let rows = scan(a, cf, prefix);
    lemma_scan_exists(a, cf, prefix);
    assert forall|k: Seq<u8>| #[trigger]
        rows.contains(k) <==> b.dom().contains((cf, k)) && prefix.is_prefix_of(k) by {
        if prefix.is_prefix_of(k) {
            assert(same_at(a, b, (cf, k)));
        }
    }
    lemma_scan_unique(b, cf, prefix, rows);
    assert forall|i: int| 0 <= i < rows.len() implies a.dom().contains((cf, #[trigger] rows[i]))
        && same_at(a, b, (cf, rows[i])) by {
        assert(rows.contains(rows[i]));
    }
    lemma_agree_texts(a, b, now, cf, rows);
    assert forall|from: int, limit: int| 0 <= from && 0 <= limit implies live_texts(
        a,
        now,
        cf,
        #[trigger] page_of(rows, from, limit),
    ) == live_texts(b, now, cf, page_of(rows, from, limit)) by {
        let page = page_of(rows, from, limit);
        assert forall|i: int| 0 <= i < page.len() implies a.dom().contains((cf, #[trigger] page[i]))
            && same_at(a, b, (cf, page[i])) by {
            assert(page[i] == rows[from + i]);
        }
        lemma_agree_texts(a, b, now, cf, page);
    }
    if has_live(a, now, cf, key) {
        let k = choose|k: Seq<u8>| #[trigger]
            a.dom().contains((cf, k)) && prefix.is_prefix_of(k) && live_text(a[(cf, k)], now)
                is Some;
        assert(same_at(a, b, (cf, k)));
        assert(b.dom().contains((cf, k)));
    }
    if has_live(b, now, cf, key) {
        let k = choose|k: Seq<u8>| #[trigger]
            b.dom().contains((cf, k)) && prefix.is_prefix_of(k) && live_text(b[(cf, k)], now)
                is Some;
        assert(same_at(a, b, (cf, k)));
        assert(a.dom().contains((cf, k)));
    }
}

// ---------------------------------------------------------------------------
// What writes add
// ---------------------------------------------------------------------------

/// Writing a text with a lifetime: the record, and its entry in the expiry index
/// unless it never expires.
pub open spec fn put_text(now: u64, cf: Cf, key: Seq<u8>, v: Seq<char>, ttl: u64) -> Seq<OpView> {
    let exp = expiry_time(now, ttl);
    let put = OpView::Put { cf, key, record: RecordView::Str { v, exp } };
    let slot = index_time(exp, ttl);
    if ttl > 0 {
        seq![
            put,
            OpView::Put {
                cf: Cf::Expiry,
                key: expiry_key_spec(slot, cf, key),
                record: RecordView::Str { v: Seq::empty(), exp: slot },
            },
        ]
    } else {
        seq![put]
    }
}

/// Writing each of the given members of a set.
pub open spec fn put_members(
    now: u64,
    cf: Cf,
    key: Seq<u8>,
    members: Seq<Seq<char>>,
    ttl: u64,
) -> Seq<OpView>
    decreases members.len(),
{
    if members.len() == 0 {
        Seq::empty()
    } else {
        put_members(now, cf, key, members.drop_last(), ttl) + put_text(
            now,
            cf,
            member_key_spec(key, members.last()),
            members.last(),
            ttl,
        )
    }
}

/// Removing the rows with the given keys.
pub open spec fn delete_rows(cf: Cf, ks: Seq<Seq<u8>>) -> Seq<OpView> {
    Seq::new(ks.len(), |i: int| OpView::Delete { cf, key: ks[i] })
}

/// Renewing the lifetime of a text: written again if it is live.
pub open spec fn renew_text(db: DbView, now: u64, cf: Cf, key: Seq<u8>, ttl: u64) -> Result<
    Seq<OpView>,
    ErrorView,
> {
    match read_text(db, now, cf, key) {
        Ok(Some(v)) => Ok(put_text(now, cf, key, v, ttl)),
        Ok(None) => Ok(Seq::empty()),
        Err(e) => Err(e),
    }
}

/// Renewing the lifetime of a set: each live member is written again.
pub open spec fn renew_members(db: DbView, now: u64, cf: Cf, key: Seq<u8>, ttl: u64) -> Result<
    Seq<OpView>,
    ErrorView,
> {
    match read_members(db, now, cf, key, MAX_SET_ENUM_MEMBERS) {
        Ok(members) => Ok(put_members(now, cf, key, members, ttl)),
        Err(e) => Err(e),
    }
}

// ---------------------------------------------------------------------------
// Transactions
// ---------------------------------------------------------------------------

/// The state of a transaction: the contents that its reads see, its clock, whether it
/// takes writes, and the writes that it has taken.
pub struct TxnView {
    pub db: DbView,
    pub now: u64,
    pub writable: bool,
    pub ops: Seq<OpView>,
}

/// The transaction after it took more writes. Its reads see them.
pub open spec fn with_ops(t: TxnView, ops: Seq<OpView>) -> TxnView {
    TxnView { db: applied(t.db, ops), ops: t.ops + ops, ..t }
}

/// Taking writes and then more is taking both in order.
pub proof fn lemma_with_ops(t: TxnView, a: Seq<OpView>, b: Seq<OpView>)
    ensures
        with_ops(with_ops(t, a), b) == with_ops(t, a + b),
{
    assert(t.ops + a + b =~= t.ops + (a + b));
    lemma_applied_concat(t.db, a, b);
}

/// The transaction after an operation that adds `ops`, or that failed.
pub open spec fn with_result(t: TxnView, ops: Result<Seq<OpView>, ErrorView>) -> TxnView {
    match ops {
        Ok(ops) => with_ops(t, ops),
        Err(_) => t,
    }
}

/// The outcome of an operation that adds writes.
pub open spec fn outcome(ops: Result<Seq<OpView>, ErrorView>) -> Result<(), ErrorView> {
    match ops {
        Ok(_) => Ok(()),
        Err(e) => Err(e),
    }
}

/// The operations of the store that the lock engine uses. Every read sees the
/// transaction's own writes.
pub trait StoreTxn {
    /// The state of the transaction.
    spec fn state(&self) -> TxnView;

    /// The clock of the transaction.
    fn now_ms(&self) -> (r: u64)
        ensures
            r == self.state().now,
    ;

    /// The live text under `key`.
    fn get_str(&mut self, cf: Cf, key: &[u8]) -> (r: Result<Option<String>, StoreError>)
        ensures
            final(self).state() == old(self).state(),
            is_text(r, read_text(old(self).state().db, old(self).state().now, cf, key@)),
    ;

    /// Writes a text that lives for `ttl_ms` (`0`: for ever).
    fn set_str(&mut self, cf: Cf, key: &[u8], value: &str, ttl_ms: u64) -> (r: Result<
        (),
        StoreError,
    >)
        ensures
            old(self).state().writable ==> r is Ok && final(self).state() == with_ops(
                old(self).state(),
                put_text(old(self).state().now, cf, key@, value@, ttl_ms),
            ),
            !old(self).state().writable ==> is_unit(r, Err(ErrorView::ReadOnly))
                && final(self).state() == old(self).state(),
    ;

    /// Gives a live text a new lifetime.
    fn pexpire_str(&mut self, cf: Cf, key: &[u8], ttl_ms: u64) -> (r: Result<(), StoreError>)
        ensures
            old(self).state().writable ==> ({
                let t = old(self).state();
                let ops = renew_text(t.db, t.now, cf, key@, ttl_ms);
                is_unit(r, outcome(ops)) && final(self).state() == with_result(t, ops)
            }),
            !old(self).state().writable ==> is_unit(r, Err(ErrorView::ReadOnly))
                && final(self).state() == old(self).state(),
    ;

    /// Removes what stands under `key`. A read-only transaction ignores it.
    fn del(&mut self, cf: Cf, key: &[u8]) -> (r: Result<(), StoreError>)
        ensures
            r is Ok,
            old(self).state().writable ==> final(self).state() == with_ops(
                old(self).state(),
                seq![OpView::Delete { cf, key: key@ }],
            ),
            !old(self).state().writable ==> final(self).state() == old(self).state(),
    ;

    /// Adds a member to a set, with its own lifetime.
    fn sadd(&mut self, cf: Cf, key: &[u8], member: &str, ttl_ms: u64) -> (r: Result<
        (),
        StoreError,
    >)
        ensures
            old(self).state().writable ==> r is Ok && final(self).state() == with_ops(
                old(self).state(),
                put_text(
                    old(self).state().now,
                    cf,
                    member_key_spec(key@, member@),
                    member@,
                    ttl_ms,
                ),
            ),
            !old(self).state().writable ==> is_unit(r, Err(ErrorView::ReadOnly))
                && final(self).state() == old(self).state(),
    ;

    /// Removes a member from a set. A read-only transaction ignores it.
    fn srem(&mut self, cf: Cf, key: &[u8], member: &str) -> (r: Result<(), StoreError>)
        ensures
            r is Ok,
            old(self).state().writable ==> final(self).state() == with_ops(
                old(self).state(),
                seq![OpView::Delete { cf, key: member_key_spec(key@, member@) }],
            ),
            !old(self).state().writable ==> final(self).state() == old(self).state(),
    ;

    /// The live members of a set, of which there may be at most `limit`.
    fn smembers_limited(&mut self, cf: Cf, key: &[u8], limit: usize) -> (r: Result<
        Vec<String>,
        StoreError,
    >)
        ensures
            final(self).state() == old(self).state(),
            is_texts(r, read_members(old(self).state().db, old(self).state().now, cf, key@, limit)),
    ;

    /// The live members among `limit` rows of a set from position `from` on, and whether
    /// there are rows behind them.
    fn smembers_page(&mut self, cf: Cf, key: &[u8], from: usize, limit: usize) -> (r: (
        Vec<String>,
        bool,
    ))
        ensures
            final(self).state() == old(self).state(),
            ({
                let t = old(self).state();
                let rows = member_rows(t.db, cf, key@);
                &&& texts(r.0@) == live_texts(t.db, t.now, cf, page_of(rows, from as int, limit as int))
                &&& r.1 == (from + limit < rows.len())
                &&& r.1 ==> from + limit <= usize::MAX
            }),
    ;

    /// Whether a set has a live member `member`.
    fn sismember(&mut self, cf: Cf, key: &[u8], member: &str) -> (r: Result<bool, StoreError>)
        ensures
            final(self).state() == old(self).state(),
            is_bool(r, read_member(old(self).state().db, old(self).state().now, cf, key@, member@)),
    ;

    /// Whether a set has any live member.
    fn has_live_member(&mut self, cf: Cf, key: &[u8]) -> (r: Result<bool, StoreError>)
        ensures
            final(self).state() == old(self).state(),
            is_bool(r, Ok(has_live(old(self).state().db, old(self).state().now, cf, key@))),
    ;

    /// Gives every live member of a set a new lifetime.
    fn pexpire_set(&mut self, cf: Cf, key: &[u8], ttl_ms: u64) -> (r: Result<(), StoreError>)
        ensures
            old(self).state().writable ==> ({
                let t = old(self).state();
                let ops = renew_members(t.db, t.now, cf, key@, ttl_ms);
                is_unit(r, outcome(ops)) && final(self).state() == with_result(t, ops)
            }),
            !old(self).state().writable ==> is_unit(r, Err(ErrorView::ReadOnly))
                && final(self).state() == old(self).state(),
    ;

    /// Removes every row of a set. A read-only transaction ignores it.
    fn del_set(&mut self, cf: Cf, key: &[u8]) -> (r: Result<(), StoreError>)
        ensures
            r is Ok,
            old(self).state().writable ==> final(self).state() == with_ops(
                old(self).state(),
                delete_rows(cf, member_rows(old(self).state().db, cf, key@)),
            ),
            !old(self).state().writable ==> final(self).state() == old(self).state(),
    ;
}

// ---------------------------------------------------------------------------
// Reads over the contents of the store
// ---------------------------------------------------------------------------

/// The live text of a row, or the error for bytes that hold no record.
fn cell_text(cell: &Cell, now_ms: u64) -> (r: Result<Option<String>, StoreError>)
    ensures
        cell@ is None ==> is_text(r, Err(ErrorView::Undecodable)),
        cell@ is Some ==> is_text(r, Ok(live_text(cell@, now_ms))),
{
    match cell {
        Cell::Record(StoredRecord::Str { v, exp }) => {
            if expired(*exp, now_ms) {
                Ok(None)
            } else {
                Ok(Some(v.clone()))
            }
        },
        Cell::Record(StoredRecord::Counter { .. }) => Ok(None),
        Cell::Undecodable => Err(StoreError::Undecodable),
    }
}

/// The live text under `key`.
pub fn db_get_str(db: &Db, now_ms: u64, cf: Cf, key: &[u8]) -> (r: Result<
    Option<String>,
    StoreError,
>)
    ensures
        is_text(r, read_text(db@, now_ms, cf, key@)),
{
    match db.get(cf, key) {
        Some(cell) => cell_text(cell, now_ms),
        None => Ok(None),
    }
}

/// Whether a set has a live member `member`.
pub fn db_sismember(db: &Db, now_ms: u64, cf: Cf, key: &[u8], member: &str) -> (r: Result<
    bool,
    StoreError,
>)
    ensures
        is_bool(r, read_member(db@, now_ms, cf, key@, member@)),
{
    let mk = member_key(key, member);
    match db_get_str(db, now_ms, cf, mk.as_slice()) {
        Ok(t) => Ok(t.is_some()),
        Err(e) => Err(e),
    }
}

/// The live texts in the rows from `lo` up to `hi`, which are rows of a set.
fn db_live_texts(db: &Db, now_ms: u64, cf: Cf, lo: usize, hi: usize, Ghost(ks): Ghost<Seq<Seq<u8>>>) -> (r:
    Vec<String>)
    requires
        lo <= hi <= db.row_count(),
        ks == Seq::new((hi - lo) as nat, |j: int| db.row_spec(lo + j).key@),
        forall|j: int| lo <= j < hi ==> (#[trigger] db.row_spec(j)).cf == cf,
    ensures
        texts(r@) == live_texts(db@, now_ms, cf, ks),
{
    let mut members: Vec<String> = Vec::new();
    let mut i: usize = lo;
    assert(ks.take(0) =~= Seq::<Seq<u8>>::empty());
    assert(texts(members@) =~= live_texts(db@, now_ms, cf, ks.take(0)));
    while i < hi
        invariant
            lo <= i <= hi <= db.row_count(),
            ks == Seq::new((hi - lo) as nat, |j: int| db.row_spec(lo + j).key@),
            forall|j: int| lo <= j < hi ==> (#[trigger] db.row_spec(j)).cf == cf,
            texts(members@) == live_texts(db@, now_ms, cf, ks.take(i - lo)),
        decreases hi - i,
    {
        let row = db.row(i);
        let ghost before = members@;
        proof {
            assert(ks[i - lo] == row.key@);
            assert(row.place() == (cf, row.key@));
            assert(ks.take(i - lo + 1).drop_last() =~= ks.take(i - lo));
            assert(ks.take(i - lo + 1).last() == row.key@);
        }
        if let Cell::Record(StoredRecord::Str { v, exp }) = &row.cell {
            if !expired(*exp, now_ms) {
                members.push(v.clone());
                assert(texts(members@) =~= texts(before).push(v@));
            }
        }
        i = i + 1;
    }
    assert(ks.take(hi - lo) =~= ks);
    members
}

/// The live members of a set, of which there may be at most `limit`.
pub fn db_smembers_limited(db: &Db, now_ms: u64, cf: Cf, key: &[u8], limit: usize) -> (r: Result<
    Vec<String>,
    StoreError,
>)
    ensures
        is_texts(r, read_members(db@, now_ms, cf, key@, limit)),
{
    let prefix = member_prefix(key);
    let (lo, hi) = db.scan_range(cf, prefix.as_slice());
    let ghost ks = member_rows(db@, cf, key@);
    let many = limit <= usize::MAX / 4 && hi - lo > 4 * limit;
    if many {
        return Err(StoreError::ScanLimit(SetScanLimitExceeded { operation: "smembers", limit }));
    }
    let members = db_live_texts(db, now_ms, cf, lo, hi, Ghost(ks));
    assert(texts(members@).len() == members@.len());
    if members.len() > limit {
        return Err(StoreError::ScanLimit(SetScanLimitExceeded { operation: "smembers", limit }));
    }
    Ok(members)
}

/// The live members among `limit` rows of a set from position `from` on, and whether
/// there are rows behind them.
pub fn db_smembers_page(
    db: &Db,
    now_ms: u64,
    cf: Cf,
    key: &[u8],
    from: usize,
    limit: usize,
) -> (r: (Vec<String>, bool))
    ensures
        texts(r.0@) == live_texts(
            db@,
            now_ms,
            cf,
            page_of(member_rows(db@, cf, key@), from as int, limit as int),
        ),
        r.1 == (from + limit < member_rows(db@, cf, key@).len()),
        r.1 ==> from + limit <= usize::MAX,
{
    let prefix = member_prefix(key);
    let (lo, hi) = db.scan_range(cf, prefix.as_slice());
    let ghost ks = member_rows(db@, cf, key@);
    let ghost page = page_of(ks, from as int, limit as int);
    if from >= hi - lo {
        assert(texts(Seq::<String>::empty()) =~= live_texts(db@, now_ms, cf, page));
        return (Vec::new(), false);
    }
    let start: usize = lo + from;
    let more = hi - start > limit;
    let end: usize = if more {
        start + limit
    } else {
        hi
    };
    assert(page =~= Seq::new((end - start) as nat, |j: int| db.row_spec(start + j).key@));
    (db_live_texts(db, now_ms, cf, start, end, Ghost(page)), more)
}

/// Whether a set has any live member.
pub fn db_has_live_member(db: &Db, now_ms: u64, cf: Cf, key: &[u8]) -> (r: bool)
    ensures
        r == has_live(db@, now_ms, cf, key@),
{
    let prefix = member_prefix(key);
    let (lo, hi) = db.scan_range(cf, prefix.as_slice());
    let ghost ks = member_rows(db@, cf, key@);
    let mut i: usize = lo;
    while i < hi
        invariant
            lo <= i <= hi <= db.row_count(),
            prefix@ == member_prefix_spec(key@),
            ks == member_rows(db@, cf, key@),
            is_scan(db@, cf, prefix@, ks),
            ks == Seq::new((hi - lo) as nat, |j: int| db.row_spec(lo + j).key@),
            forall|j: int| lo <= j < hi ==> (#[trigger] db.row_spec(j)).cf == cf,
            forall|j: int| 0 <= j < i - lo ==> live_text(db@[(cf, #[trigger] ks[j])], now_ms) is None,
        decreases hi - i,
    {
        let row = db.row(i);
        proof {
            assert(ks[i - lo] == row.key@);
            assert(row.place() == (cf, row.key@));
            assert(ks.contains(row.key@));
        }
        if let Cell::Record(StoredRecord::Str { exp, .. }) = &row.cell {
            if !expired(*exp, now_ms) {
                return true;
            }
        }
        i = i + 1;
    }
    proof {
        assert forall|k: Seq<u8>| #[trigger]
            db@.dom().contains((cf, k)) && prefix@.is_prefix_of(k) implies live_text(
            db@[(cf, k)],
            now_ms,
        ) is None by {
            assert(ks.contains(k));
            let j = ks.index_of(k);
            assert(ks[j] == k);
        }
    }
    false
}

/// The keys of a set's rows, in ascending order.
pub fn db_member_rows(db: &Db, cf: Cf, key: &[u8]) -> (r: Vec<Vec<u8>>)
    ensures
        Seq::new(r@.len(), |i: int| r@[i]@) == member_rows(db@, cf, key@),
{
    let prefix = member_prefix(key);
    let (lo, hi) = db.scan_range(cf, prefix.as_slice());
    let ghost ks = member_rows(db@, cf, key@);
    let mut out: Vec<Vec<u8>> = Vec::new();
    let mut i: usize = lo;
    while i < hi
        invariant
            lo <= i <= hi <= db.row_count(),
            ks == Seq::new((hi - lo) as nat, |j: int| db.row_spec(lo + j).key@),
            out@.len() == i - lo,
            forall|j: int| 0 <= j < i - lo ==> (#[trigger] out@[j])@ == ks[j],
        decreases hi - i,
    {
        let row = db.row(i);
        out.push(vstd::slice::slice_to_vec(row.key.as_slice()));
        i = i + 1;
    }
    assert(Seq::new(out@.len(), |i: int| out@[i]@) =~= ks);
    out
}

/// The position of the first of the rows from `lo` up to `hi` whose key sorts after
/// the cursor.
fn db_first_after(db: &Db, lo: usize, hi: usize, cursor: &Vec<u8>, Ghost(ks): Ghost<Seq<Seq<u8>>>) -> (r:
    usize)
    requires
        lo <= hi <= db.row_count(),
        ks == Seq::new((hi - lo) as nat, |j: int| db.row_spec(lo + j).key@),
    ensures
        lo <= r <= hi,
        rest_after(ks, cursor@) == ks.skip(r - lo),
{
    let mut start: usize = lo;
    assert(ks.skip(0) =~= ks);
    while start < hi && !lex_less(cursor.as_slice(), db.row(start).key.as_slice())
        invariant
            lo <= start <= hi <= db.row_count(),
            ks == Seq::new((hi - lo) as nat, |j: int| db.row_spec(lo + j).key@),
            rest_after(ks, cursor@) == rest_after(ks.skip(start - lo), cursor@),
        decreases hi - start,
    {
        assert(ks.skip(start - lo)[0] == db.row_spec(start as int).key@);
        assert(ks.skip(start - lo).drop_first() =~= ks.skip(start - lo + 1));
        start = start + 1;
    }
    proof {
        let rest = ks.skip(start - lo);
        if rest.len() > 0 {
            assert(rest[0] == db.row_spec(start as int).key@);
        }
    }
    start
}

/// The positions of the rows of a column family that sort after a cursor: from the
/// first number up to, not including, the second.
pub fn db_range_after(db: &Db, cf: Cf, cursor: &Option<Vec<u8>>) -> (r: (usize, usize))
    ensures
        r.0 <= r.1 <= db.row_count(),
        keys_after(db@, cf, opt_key(*cursor)) == Seq::new(
            (r.1 - r.0) as nat,
            |j: int| db.row_spec(r.0 + j).key@,
        ),
        forall|j: int| r.0 <= j < r.1 ==> (#[trigger] db.row_spec(j)).cf == cf,
{
    let none: Vec<u8> = Vec::new();
    assert(none@ =~= Seq::<u8>::empty());
    let (lo, hi) = db.scan_range(cf, none.as_slice());
    let ghost ks = scan(db@, cf, Seq::empty());
    match cursor {
        None => (lo, hi),
        Some(c) => {
            let start = db_first_after(db, lo, hi, c, Ghost(ks));
            assert(ks.skip(start - lo) =~= Seq::new(
                (hi - start) as nat,
                |j: int| db.row_spec(start + j).key@,
            ));
            (start, hi)
        },
    }
}

/// The first `limit` keys of a column family after a cursor, and whether there are
/// more.
pub fn db_keys_after(db: &Db, cf: Cf, cursor: &Option<Vec<u8>>, limit: usize) -> (r: (
    Vec<Vec<u8>>,
    bool,
))
    ensures
        keys_view(r.0@) == first_keys(keys_after(db@, cf, opt_key(*cursor)), limit as nat),
        r.1 == (keys_after(db@, cf, opt_key(*cursor)).len() > limit),
{
    let (start, hi) = db_range_after(db, cf, cursor);
    let ghost rest = keys_after(db@, cf, opt_key(*cursor));
    let more: bool = hi - start > limit;
    let end: usize = if more {
        start + limit
    } else {
        hi
    };
    let mut out: Vec<Vec<u8>> = Vec::new();
    let mut i: usize = start;
    while i < end
        invariant
            start <= i <= end <= hi <= db.row_count(),
            rest == Seq::new((hi - start) as nat, |j: int| db.row_spec(start + j).key@),
            out@.len() == i - start,
            forall|j: int| 0 <= j < i - start ==> (#[trigger] out@[j])@ == rest[j],
        decreases end - i,
    {
        let row = db.row(i);
        out.push(vstd::slice::slice_to_vec(row.key.as_slice()));
        i = i + 1;
    }
    assert(keys_view(out@) =~= first_keys(rest, limit as nat));
    (out, more)
}

// ---------------------------------------------------------------------------
// The read-only transaction
// ---------------------------------------------------------------------------

/// A read-only view of the store, for queries.
pub struct RocksDbTxn<'a> {
    db: &'a Db,
    now_ms: u64,
}

impl<'a> RocksDbTxn<'a> {
    /// A view of `db` at `now_ms`.
    pub fn new(db: &'a Db, now_ms: u64) -> (r: Self)
        ensures
            r.state() == (TxnView { db: db@, now: now_ms, writable: false, ops: Seq::empty() }),
    {
        RocksDbTxn { db, now_ms }
    }

    /// The first `limit` keys of a column family after a cursor, and whether there
    /// are more.
    pub fn keys_after(&self, cf: Cf, cursor: &Option<Vec<u8>>, limit: usize) -> (r: (
        Vec<Vec<u8>>,
        bool,
    ))
        ensures
            keys_view(r.0@) == first_keys(
                keys_after(self.state().db, cf, opt_key(*cursor)),
                limit as nat,
            ),
            r.1 == (keys_after(self.state().db, cf, opt_key(*cursor)).len() > limit),
    {
        db_keys_after(self.db, cf, cursor, limit)
    }
}

impl<'a> StoreTxn for RocksDbTxn<'a> {
    closed spec fn state(&self) -> TxnView {
        TxnView { db: self.db@, now: self.now_ms, writable: false, ops: Seq::empty() }
    }

    fn now_ms(&self) -> u64 {
        self.now_ms
    }

    fn get_str(&mut self, cf: Cf, key: &[u8]) -> Result<Option<String>, StoreError> {
        db_get_str(self.db, self.now_ms, cf, key)
    }

    fn set_str(&mut self, cf: Cf, key: &[u8], value: &str, ttl_ms: u64) -> Result<(), StoreError> {
        Err(StoreError::ReadOnly)
    }

    fn pexpire_str(&mut self, cf: Cf, key: &[u8], ttl_ms: u64) -> Result<(), StoreError> {
        Err(StoreError::ReadOnly)
    }

    fn del(&mut self, cf: Cf, key: &[u8]) -> Result<(), StoreError> {
        Ok(())
    }

    fn sadd(&mut self, cf: Cf, key: &[u8], member: &str, ttl_ms: u64) -> Result<(), StoreError> {
        Err(StoreError::ReadOnly)
    }

    fn srem(&mut self, cf: Cf, key: &[u8], member: &str) -> Result<(), StoreError> {
        Ok(())
    }

    fn smembers_limited(&mut self, cf: Cf, key: &[u8], limit: usize) -> Result<
        Vec<String>,
        StoreError,
    > {
        db_smembers_limited(self.db, self.now_ms, cf, key, limit)
    }

    fn smembers_page(&mut self, cf: Cf, key: &[u8], from: usize, limit: usize) -> (Vec<String>, bool) {
        db_smembers_page(self.db, self.now_ms, cf, key, from, limit)
    }

    fn sismember(&mut self, cf: Cf, key: &[u8], member: &str) -> Result<bool, StoreError> {
        db_sismember(self.db, self.now_ms, cf, key, member)
    }

    fn has_live_member(&mut self, cf: Cf, key: &[u8]) -> Result<bool, StoreError> {
        Ok(db_has_live_member(self.db, self.now_ms, cf, key))
    }

    fn pexpire_set(&mut self, cf: Cf, key: &[u8], ttl_ms: u64) -> Result<(), StoreError> {
        Err(StoreError::ReadOnly)
    }

    fn del_set(&mut self, cf: Cf, key: &[u8]) -> Result<(), StoreError> {
        Ok(())
    }
}

} // verus!
