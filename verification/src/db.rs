//! The contents of the store: rows in key order, per column family, and the
//! batches of writes that are applied to them as one.

use vstd::prelude::*;
use crate::order::{
    lemma_lex_asymmetric, lemma_lex_irreflexive, lemma_lex_total, lemma_lex_transitive,
    lemma_prefix_block_ends, lemma_prefix_not_after, lex_less, lex_lt, starts_with,
};
use crate::store_keys::{cf_index, Cf};
use crate::store_rocksdb::{RecordView, StoredRecord};
use crate::text::bytes_eq;

verus! {

/// The value of a row: a record, or bytes that hold none.
#[derive(Debug, Clone)]
pub enum Cell {
    Record(StoredRecord),
    Undecodable,
}

impl Cell {
    /// The record of the row, if its bytes hold one.
    pub open spec fn view(&self) -> Option<RecordView> {
        match self {
            Cell::Record(rec) => Some(rec@),
            Cell::Undecodable => None,
        }
    }

    /// A copy of the value.
    pub fn copy(&self) -> (r: Cell)
        ensures
            r@ == self@,
    {
        match self {
            Cell::Record(rec) => Cell::Record(rec.copy()),
            Cell::Undecodable => Cell::Undecodable,
        }
    }
}

/// What a store holds: per column family and key, the record, or `None` for bytes
/// that hold no record.
pub type DbView = Map<(Cf, Seq<u8>), Option<RecordView>>;

/// Two stores agree at a place.
pub open spec fn same_at(a: DbView, b: DbView, place: (Cf, Seq<u8>)) -> bool {
    &&& a.dom().contains(place) == b.dom().contains(place)
    &&& a.dom().contains(place) ==> a[place] == b[place]
}

/// The keys of `cf` that begin with `prefix`, in ascending order.
pub open spec fn is_scan(db: DbView, cf: Cf, prefix: Seq<u8>, ks: Seq<Seq<u8>>) -> bool {
    &&& ascending(ks)
    &&& forall|k: Seq<u8>| #[trigger]
        ks.contains(k) <==> db.dom().contains((cf, k)) && prefix.is_prefix_of(k)
}

/// Each key sorts before the later ones.
pub open spec fn ascending(ks: Seq<Seq<u8>>) -> bool {
    forall|i: int, j: int| 0 <= i < j < ks.len() ==> lex_lt(#[trigger] ks[i], #[trigger] ks[j])
}

/// The keys of `cf` that begin with `prefix`, in ascending order.
pub open spec fn scan(db: DbView, cf: Cf, prefix: Seq<u8>) -> Seq<Seq<u8>> {
    choose|ks: Seq<Seq<u8>>| is_scan(db, cf, prefix, ks)
}

proof fn lemma_ascending_unique(a: Seq<Seq<u8>>, b: Seq<Seq<u8>>)
    requires
        ascending(a),
        ascending(b),
        forall|k: Seq<u8>| #[trigger] a.contains(k) <==> b.contains(k),
    ensures
        a == b,
    decreases a.len(),
{
    if a.len() == 0 {
        if b.len() > 0 {
            assert(b.contains(b[0]));
            assert(a.contains(b[0]));
        }
        assert(a =~= b);
    } else {
        assert(a.contains(a[0]));
        let j = b.index_of(a[0]);
        assert(b.contains(a[0]));
        assert(b[j] == a[0] && 0 <= j < b.len());
        assert(b.contains(b[0]));
        assert(a.contains(b[0]));
        let i = a.index_of(b[0]);
        if j > 0 {
            assert(lex_lt(b[0], b[j]));
            if i > 0 {
                assert(lex_lt(a[0], a[i]));
                lemma_lex_asymmetric(b[0], a[0]);
            } else {
                lemma_lex_irreflexive(a[0]);
            }
        }
        let (x, y) = (a.drop_first(), b.drop_first());
        assert forall|k: Seq<u8>| #[trigger] x.contains(k) <==> y.contains(k) by {
            if x.contains(k) {
                let m = x.index_of(k);
                assert(a[m + 1] == k);
                assert(lex_lt(a[0], a[m + 1]));
                lemma_lex_irreflexive(k);
                assert(a.contains(k));
                let n = b.index_of(k);
                assert(b.contains(k));
                assert(n > 0);
                assert(y[n - 1] == k);
            }
            if y.contains(k) {
                let m = y.index_of(k);
                assert(b[m + 1] == k);
                assert(lex_lt(b[0], b[m + 1]));
                lemma_lex_irreflexive(k);
                assert(b.contains(k));
                let n = a.index_of(k);
                assert(a.contains(k));
                assert(n > 0);
                assert(x[n - 1] == k);
            }
        }
        assert forall|m: int, n: int| 0 <= m < n < x.len() implies lex_lt(
            #[trigger] x[m],
            #[trigger] x[n],
        ) by {
            assert(lex_lt(a[m + 1], a[n + 1]));
        }
        assert forall|m: int, n: int| 0 <= m < n < y.len() implies lex_lt(
            #[trigger] y[m],
            #[trigger] y[n],
        ) by {
            assert(lex_lt(b[m + 1], b[n + 1]));
        }
        lemma_ascending_unique(x, y);
        assert(a =~= seq![a[0]] + x);
        assert(b =~= seq![b[0]] + y);
    }
}

/// There is one ascending sequence of the keys with a prefix.
pub proof fn lemma_scan_unique(db: DbView, cf: Cf, prefix: Seq<u8>, ks: Seq<Seq<u8>>)
    requires
        is_scan(db, cf, prefix, ks),
    ensures
        scan(db, cf, prefix) == ks,
        is_scan(db, cf, prefix, scan(db, cf, prefix)),
{
    let s = scan(db, cf, prefix);
    assert(is_scan(db, cf, prefix, s));
    assert forall|k: Seq<u8>| #[trigger] s.contains(k) <==> ks.contains(k) by {}
    lemma_ascending_unique(s, ks);
}

proof fn lemma_insert_ascending(ks: Seq<Seq<u8>>, k: Seq<u8>) -> (r: Seq<Seq<u8>>)
    requires
        ascending(ks),
        !ks.contains(k),
    ensures
        ascending(r),
        forall|l: Seq<u8>| #[trigger] r.contains(l) <==> l == k || ks.contains(l),
    decreases ks.len(),
{
    if ks.len() == 0 {
        let r = seq![k];
        assert(r[0] == k);
        r
    } else {
        lemma_lex_total(k, ks[0]);
        if lex_lt(k, ks[0]) {
            let r = seq![k] + ks;
            assert forall|i: int, j: int| 0 <= i < j < r.len() implies lex_lt(
                #[trigger] r[i],
                #[trigger] r[j],
            ) by {
                if i == 0 {
                    assert(r[j] == ks[j - 1]);
                    if j > 1 {
                        lemma_lex_transitive(k, ks[0], ks[j - 1]);
                    }
                } else {
                    assert(r[i] == ks[i - 1] && r[j] == ks[j - 1]);
                }
            }
            assert forall|l: Seq<u8>| #[trigger] r.contains(l) <==> l == k || ks.contains(l) by {
                if r.contains(l) {
                    let i = r.index_of(l);
                    if i > 0 {
                        assert(ks[i - 1] == l);
                    }
                }
                if ks.contains(l) {
                    let i = ks.index_of(l);
                    assert(r[i + 1] == l);
                }
                assert(r[0] == k);
            }
            r
        } else {
            let rest = ks.drop_first();
            assert(ks[0] != k) by {
                assert(ks.contains(ks[0]));
            }
            assert forall|i: int, j: int| 0 <= i < j < rest.len() implies lex_lt(
                #[trigger] rest[i],
                #[trigger] rest[j],
            ) by {
                assert(lex_lt(ks[i + 1], ks[j + 1]));
            }
            assert(!rest.contains(k)) by {
                if rest.contains(k) {
                    let i = rest.index_of(k);
                    assert(ks[i + 1] == k);
                }
            }
            let s = lemma_insert_ascending(rest, k);
            let r = seq![ks[0]] + s;
            assert forall|i: int, j: int| 0 <= i < j < r.len() implies lex_lt(
                #[trigger] r[i],
                #[trigger] r[j],
            ) by {
                if i == 0 {
                    assert(r[j] == s[j - 1]);
                    assert(s.contains(s[j - 1]));
                    if s[j - 1] != k {
                        let n = rest.index_of(s[j - 1]);
                        assert(ks[n + 1] == s[j - 1]);
                        assert(lex_lt(ks[0], ks[n + 1]));
                    }
                } else {
                    assert(r[i] == s[i - 1] && r[j] == s[j - 1]);
                }
            }
            assert forall|l: Seq<u8>| #[trigger] r.contains(l) <==> l == k || ks.contains(l) by {
                if r.contains(l) {
                    let i = r.index_of(l);
                    if i == 0 {
                        assert(ks[0] == l);
                    } else {
                        assert(s[i - 1] == l);
                        assert(s.contains(l));
                        if l != k {
                            let n = rest.index_of(l);
                            assert(ks[n + 1] == l);
                        }
                    }
                }
                if l == k || ks.contains(l) {
                    if l == ks[0] {
                        assert(r[0] == l);
                    } else {
                        if l != k {
                            let n = ks.index_of(l);
                            assert(rest[n - 1] == l);
                            assert(rest.contains(l));
                        }
                        assert(s.contains(l));
                        let n = s.index_of(l);
                        assert(r[n + 1] == l);
                    }
                }
            }
            r
        }
    }
}

proof fn lemma_ascending_keys(
    places: Set<(Cf, Seq<u8>)>,
    cf: Cf,
    prefix: Seq<u8>,
) -> (r: Seq<Seq<u8>>)
    requires
        places.finite(),
    ensures
        ascending(r),
        forall|k: Seq<u8>| #[trigger]
            r.contains(k) <==> places.contains((cf, k)) && prefix.is_prefix_of(k),
    decreases places.len(),
{
    if places.is_empty() {
        Seq::empty()
    } else {
        let p = places.choose();
        let rest = places.remove(p);
        let ks = lemma_ascending_keys(rest, cf, prefix);
        if p.0 == cf && prefix.is_prefix_of(p.1) {
            assert(p == (cf, p.1));
            let r = lemma_insert_ascending(ks, p.1);
            assert forall|k: Seq<u8>| #[trigger] r.contains(k) <==> places.contains((cf, k))
                && prefix.is_prefix_of(k) by {
                assert(ks.contains(k) <==> rest.contains((cf, k)) && prefix.is_prefix_of(k));
            }
            r
        } else {
            assert forall|k: Seq<u8>| #[trigger] ks.contains(k) <==> places.contains((cf, k))
                && prefix.is_prefix_of(k) by {
                assert(rest.contains((cf, k)) <==> places.contains((cf, k)) && (cf, k) != p);
            }
            ks
        }
    }
}

/// The keys of a finite store can be put in order.
pub proof fn lemma_scan_exists(db: DbView, cf: Cf, prefix: Seq<u8>)
    requires
        db.dom().finite(),
    ensures
        is_scan(db, cf, prefix, scan(db, cf, prefix)),
{
    let ks = lemma_ascending_keys(db.dom(), cf, prefix);
    assert(is_scan(db, cf, prefix, ks));
    lemma_scan_unique(db, cf, prefix, ks);
}

// ---------------------------------------------------------------------------
// Rows
// ---------------------------------------------------------------------------

/// One row of a column family.
#[derive(Debug, Clone)]
pub struct Row {
    pub cf: Cf,
    pub key: Vec<u8>,
    pub cell: Cell,
}

impl Row {
    /// Where the row stands.
    pub open spec fn place(&self) -> (Cf, Seq<u8>) {
        (self.cf, self.key@)
    }
}

/// The order of rows: by column family, then by key.
pub open spec fn place_lt(a: (Cf, Seq<u8>), b: (Cf, Seq<u8>)) -> bool {
    cf_index(a.0) < cf_index(b.0) || (a.0 == b.0 && lex_lt(a.1, b.1))
}

proof fn lemma_place_transitive(a: (Cf, Seq<u8>), b: (Cf, Seq<u8>), c: (Cf, Seq<u8>))
    requires
        place_lt(a, b),
        place_lt(b, c),
    ensures
        place_lt(a, c),
{
    if a.0 == b.0 && b.0 == c.0 {
        lemma_lex_transitive(a.1, b.1, c.1);
    }
}

proof fn lemma_place_irreflexive(a: (Cf, Seq<u8>))
    ensures
        !place_lt(a, a),
{
    lemma_lex_irreflexive(a.1);
}

proof fn lemma_place_total(a: (Cf, Seq<u8>), b: (Cf, Seq<u8>))
    ensures
        a == b || place_lt(a, b) || place_lt(b, a),
{
    lemma_lex_total(a.1, b.1);
}

spec fn rows_sorted(rows: Seq<Row>) -> bool {
    forall|i: int, j: int|
        0 <= i < j < rows.len() ==> place_lt(#[trigger] rows[i].place(), #[trigger] rows[j].place())
}

spec fn stands_at(rows: Seq<Row>, place: (Cf, Seq<u8>), i: int) -> bool {
    0 <= i < rows.len() && rows[i].place() == place
}

spec fn rows_view(rows: Seq<Row>) -> DbView {
    Map::new(
        |p: (Cf, Seq<u8>)| exists|i: int| stands_at(rows, p, i),
        |p: (Cf, Seq<u8>)| rows[choose|i: int| stands_at(rows, p, i)].cell@,
    )
}

proof fn lemma_row_at(rows: Seq<Row>, i: int)
    requires
        rows_sorted(rows),
        0 <= i < rows.len(),
    ensures
        rows_view(rows).dom().contains(rows[i].place()),
        rows_view(rows)[rows[i].place()] == rows[i].cell@,
{
    let p = rows[i].place();
    assert(stands_at(rows, p, i));
    let j = choose|j: int| stands_at(rows, p, j);
    if i < j {
        assert(place_lt(rows[i].place(), rows[j].place()));
        lemma_place_irreflexive(p);
    } else if j < i {
        assert(place_lt(rows[j].place(), rows[i].place()));
        lemma_place_irreflexive(p);
    }
}

proof fn lemma_row_missing(rows: Seq<Row>, place: (Cf, Seq<u8>), at: int)
    requires
        rows_sorted(rows),
        0 <= at <= rows.len(),
        forall|i: int| 0 <= i < at ==> place_lt(#[trigger] rows[i].place(), place),
        forall|i: int| at <= i < rows.len() ==> place_lt(place, #[trigger] rows[i].place()),
    ensures
        !rows_view(rows).dom().contains(place),
{
    lemma_place_irreflexive(place);
    assert forall|i: int| !stands_at(rows, place, i) by {
        if stands_at(rows, place, i) {
            assert(rows[i].place() == place);
        }
    }
}

/// The contents of the store.
#[derive(Debug)]
pub struct Db {
    rows: Vec<Row>,
}

impl Db {
    #[verifier::type_invariant]
    spec fn rows_in_order(self) -> bool {
        rows_sorted(self.rows@)
    }

    /// What the store holds.
    pub closed spec fn view(&self) -> DbView {
        rows_view(self.rows@)
    }

    /// A store without rows.
    pub fn new() -> (r: Db)
        ensures
            r@ == Map::<(Cf, Seq<u8>), Option<RecordView>>::empty(),
    {
        let r = Db { rows: Vec::new() };
        assert(r@ =~= Map::<(Cf, Seq<u8>), Option<RecordView>>::empty()) by {
            assert forall|p: (Cf, Seq<u8>)| !r@.dom().contains(p) by {
                assert forall|i: int| !stands_at(r.rows@, p, i) by {}
            }
        }
        r
    }

    /// The value at (`cf`, `key`), if there is one.
    pub fn get(&self, cf: Cf, key: &[u8]) -> (r: Option<&Cell>)
        ensures
            match r {
                Some(c) => self@.dom().contains((cf, key@)) && self@[(cf, key@)] == c@,
                None => !self@.dom().contains((cf, key@)),
            },
    {
        proof {
            use_type_invariant(self);
        }
        let at = lower_bound(&self.rows, cf, key);
        if at < self.rows.len() && row_is(&self.rows[at], cf, key) {
            proof {
                lemma_row_at(self.rows@, at as int);
            }
            Some(&self.rows[at].cell)
        } else {
            proof {
                lemma_above(self.rows@, (cf, key@), at as int);
                lemma_row_missing(self.rows@, (cf, key@), at as int);
            }
            None
        }
    }

    /// Sets the value at (`cf`, `key`).
    pub fn put(&mut self, cf: Cf, key: Vec<u8>, cell: Cell)
        ensures
            final(self)@ == old(self)@.insert((cf, key@), cell@),
    {
        proof {
            use_type_invariant(&*self);
        }
        let mut rows: Vec<Row> = Vec::new();
        std::mem::swap(&mut rows, &mut self.rows);
        let ghost before = rows@;
        let ghost place = (cf, key@);
        let at = lower_bound(&rows, cf, key.as_slice());
        if at < rows.len() && row_is(&rows[at], cf, key.as_slice()) {
            rows.set(at, Row { cf, key, cell });
            proof {
                lemma_put_over(before, rows@, at as int, place);
            }
        } else {
            proof {
                lemma_above(before, place, at as int);
            }
            rows.insert(at, Row { cf, key, cell });
            proof {
                lemma_put_new(before, rows@, at as int, place);
            }
        }
        self.rows = rows;
    }

    /// Removes the value at (`cf`, `key`), if there is one.
    pub fn delete(&mut self, cf: Cf, key: &[u8])
        ensures
            final(self)@ == old(self)@.remove((cf, key@)),
    {
        proof {
            use_type_invariant(&*self);
        }
        let mut rows: Vec<Row> = Vec::new();
        std::mem::swap(&mut rows, &mut self.rows);
        let ghost before = rows@;
        let ghost place = (cf, key@);
        let at = lower_bound(&rows, cf, key);
        if at < rows.len() && row_is(&rows[at], cf, key) {
            let _ = rows.remove(at);
            proof {
                lemma_removed(before, rows@, at as int, place);
            }
        } else {
            proof {
                lemma_above(before, place, at as int);
                lemma_row_missing(before, place, at as int);
                assert(rows_view(before).remove(place) =~= rows_view(before));
            }
        }
        self.rows = rows;
    }

    /// The number of rows.
    pub fn len(&self) -> (r: usize)
        ensures
            r == self.row_count(),
    {
        self.rows.len()
    }

    /// The number of rows.
    pub closed spec fn row_count(&self) -> nat {
        self.rows@.len()
    }

    /// The row at position `i` of the store's order.
    pub closed spec fn row_spec(&self, i: int) -> Row {
        self.rows@[i]
    }

    /// The row at position `i` of the store's order.
    pub fn row(&self, i: usize) -> (r: &Row)
        requires
            i < self.row_count(),
        ensures
            *r == self.row_spec(i as int),
            self@.dom().contains(r.place()),
            self@[r.place()] == r.cell@,
    {
        proof {
            use_type_invariant(self);
            lemma_row_at(self.rows@, i as int);
        }
        &self.rows[i]
    }

    /// The positions of the rows of `cf` whose keys begin with `prefix`: from the
    /// first number up to, not including, the second.
    pub fn scan_range(&self, cf: Cf, prefix: &[u8]) -> (r: (usize, usize))
        ensures
            r.0 <= r.1 <= self.row_count(),
            scan(self@, cf, prefix@) == Seq::new(
                (r.1 - r.0) as nat,
                |i: int| self.row_spec(r.0 + i).key@,
            ),
            is_scan(self@, cf, prefix@, scan(self@, cf, prefix@)),
            forall|i: int| r.0 <= i < r.1 ==> (#[trigger] self.row_spec(i)).cf == cf,
    {
        proof {
            use_type_invariant(self);
        }
        let lo = lower_bound(&self.rows, cf, prefix);
        let mut hi: usize = lo;
        while hi < self.rows.len() && self.rows[hi].cf == cf && starts_with(
            self.rows[hi].key.as_slice(),
            prefix,
        )
            invariant
                lo <= hi <= self.rows@.len(),
                forall|i: int|
                    lo <= i < hi ==> (#[trigger] self.rows@[i]).cf == cf && prefix@.is_prefix_of(
                        self.rows@[i].key@,
                    ),
            decreases self.rows@.len() - hi,
        {
            hi = hi + 1;
        }
        proof {
            lemma_scan_block(self.rows@, cf, prefix@, lo as int, hi as int);
        }
        (lo, hi)
    }

    /// Applies a batch of writes, in order.
    pub fn write(&mut self, batch: &WriteBatch)
        ensures
            final(self)@ == applied(old(self)@, batch@),
    {
        let mut i: usize = 0;
        assert(batch.ops@.take(0) =~= Seq::<BatchOp>::empty());
        assert(ops_view(batch.ops@.take(0)) =~= Seq::<OpView>::empty());
        while i < batch.ops.len()
            invariant
                i <= batch.ops@.len(),
                self@ == applied(old(self)@, ops_view(batch.ops@.take(i as int))),
            decreases batch.ops@.len() - i,
        {
            proof {
                let next = ops_view(batch.ops@.take(i + 1));
                assert(next.drop_last() =~= ops_view(batch.ops@.take(i as int)));
                assert(next.last() == batch.ops@[i as int]@);
            }
            match &batch.ops[i] {
                BatchOp::Put { cf, key, record } => {
                    let copy = vstd::slice::slice_to_vec(key.as_slice());
                    self.put(*cf, copy, Cell::Record(record.copy()));
                },
                BatchOp::Delete { cf, key } => {
                    self.delete(*cf, key.as_slice());
                },
            }
            i = i + 1;
        }
        assert(batch.ops@.take(batch.ops@.len() as int) =~= batch.ops@);
    }
}

fn row_is(row: &Row, cf: Cf, key: &[u8]) -> (r: bool)
    ensures
        r == (row.place() == (cf, key@)),
{
    row.cf == cf && bytes_eq(row.key.as_slice(), key)
}

fn row_less(row: &Row, cf: Cf, key: &[u8]) -> (r: bool)
    ensures
        r == place_lt(row.place(), (cf, key@)),
{
    let (a, b) = (row.cf.index(), cf.index());
    if a < b {
        true
    } else if b < a {
        false
    } else {
        lex_less(row.key.as_slice(), key)
    }
}

/// The position of the first row that does not stand before (`cf`, `key`).
fn lower_bound(rows: &Vec<Row>, cf: Cf, key: &[u8]) -> (r: usize)
    requires
        rows_sorted(rows@),
    ensures
        r <= rows@.len(),
        forall|i: int| 0 <= i < r ==> place_lt(#[trigger] rows@[i].place(), (cf, key@)),
        forall|i: int| r <= i < rows@.len() ==> !place_lt(#[trigger] rows@[i].place(), (cf, key@)),
{
    let ghost place = (cf, key@);
    let mut lo: usize = 0;
    let mut hi: usize = rows.len();
    while lo < hi
        invariant
            rows_sorted(rows@),
            place == (cf, key@),
            lo <= hi <= rows@.len(),
            forall|i: int| 0 <= i < lo ==> place_lt(#[trigger] rows@[i].place(), place),
            forall|i: int| hi <= i < rows@.len() ==> !place_lt(#[trigger] rows@[i].place(), place),
        decreases hi - lo,
    {
        let mid: usize = lo + (hi - lo) / 2;
        if row_less(&rows[mid], cf, key) {
            proof {
                assert forall|i: int| 0 <= i < mid + 1 implies place_lt(
                    #[trigger] rows@[i].place(),
                    place,
                ) by {
                    if i < mid {
                        lemma_place_transitive(rows@[i].place(), rows@[mid as int].place(), place);
                    }
                }
            }
            lo = mid + 1;
        } else {
            proof {
                assert forall|i: int| mid <= i < rows@.len() implies !place_lt(
                    #[trigger] rows@[i].place(),
                    place,
                ) by {
                    if mid < i && place_lt(rows@[i].place(), place) {
                        lemma_place_transitive(rows@[mid as int].place(), rows@[i].place(), place);
                    }
                }
            }
            hi = mid;
        }
    }
    lo
}

/// Without a row at `place`, the rows from its lower bound on stand behind it.
proof fn lemma_above(rows: Seq<Row>, place: (Cf, Seq<u8>), at: int)
    requires
        rows_sorted(rows),
        0 <= at <= rows.len(),
        forall|i: int| at <= i < rows.len() ==> !place_lt(#[trigger] rows[i].place(), place),
        at < rows.len() ==> rows[at].place() != place,
    ensures
        forall|i: int| at <= i < rows.len() ==> place_lt(place, #[trigger] rows[i].place()),
{
    if at < rows.len() {
        lemma_place_total(rows[at].place(), place);
        assert forall|i: int| at <= i < rows.len() implies place_lt(
            place,
            #[trigger] rows[i].place(),
        ) by {
            if at < i {
                lemma_place_transitive(place, rows[at].place(), rows[i].place());
            }
        }
    }
}

proof fn lemma_put_over(before: Seq<Row>, after: Seq<Row>, at: int, place: (Cf, Seq<u8>))
    requires
        rows_sorted(before),
        0 <= at < before.len(),
        before[at].place() == place,
        after == before.update(at, after[at]),
        after[at].place() == place,
    ensures
        rows_sorted(after),
        rows_view(after) == rows_view(before).insert(place, after[at].cell@),
{
    assert forall|i: int| 0 <= i < after.len() implies #[trigger] after[i].place()
        == before[i].place() by {}
    assert(rows_sorted(after)) by {
        assert forall|i: int, j: int| 0 <= i < j < after.len() implies place_lt(
            #[trigger] after[i].place(),
            #[trigger] after[j].place(),
        ) by {
            assert(place_lt(before[i].place(), before[j].place()));
        }
    }
    let (old_view, new_view) = (rows_view(before), rows_view(after));
    assert forall|p: (Cf, Seq<u8>)| new_view.dom().contains(p) <==> old_view.insert(
        place,
        after[at].cell@,
    ).dom().contains(p) by {
        if exists|i: int| stands_at(after, p, i) {
            let i = choose|i: int| stands_at(after, p, i);
            assert(stands_at(before, p, i));
        }
        if exists|i: int| stands_at(before, p, i) {
            let i = choose|i: int| stands_at(before, p, i);
            assert(stands_at(after, p, i));
        }
        assert(stands_at(after, place, at));
    }
    assert forall|p: (Cf, Seq<u8>)| new_view.dom().contains(p) implies new_view[p]
        == old_view.insert(place, after[at].cell@)[p] by {
        let i = choose|i: int| stands_at(after, p, i);
        lemma_row_at(after, i);
        lemma_row_at(before, i);
        if p == place {
            lemma_row_at(after, at);
        }
    }
    assert(new_view =~= old_view.insert(place, after[at].cell@));
}

proof fn lemma_put_new(before: Seq<Row>, after: Seq<Row>, at: int, place: (Cf, Seq<u8>))
    requires
        rows_sorted(before),
        0 <= at <= before.len(),
        after == before.insert(at, after[at]),
        after[at].place() == place,
        forall|i: int| 0 <= i < at ==> place_lt(#[trigger] before[i].place(), place),
        forall|i: int| at <= i < before.len() ==> place_lt(place, #[trigger] before[i].place()),
    ensures
        rows_sorted(after),
        rows_view(after) == rows_view(before).insert(place, after[at].cell@),
{
    assert forall|i: int, j: int| 0 <= i < j < after.len() implies place_lt(
        #[trigger] after[i].place(),
        #[trigger] after[j].place(),
    ) by {
        let bi = if i < at {
            i
        } else {
            i - 1
        };
        let bj = if j < at {
            j
        } else {
            j - 1
        };
        if i == at {
            assert(after[j] == before[bj]);
        } else if j == at {
            assert(after[i] == before[bi]);
        } else {
            assert(after[i] == before[bi] && after[j] == before[bj]);
            assert(place_lt(before[bi].place(), before[bj].place()));
        }
    }
    let (old_view, new_view) = (rows_view(before), rows_view(after));
    lemma_row_missing(before, place, at);
    assert forall|p: (Cf, Seq<u8>)| new_view.dom().contains(p) <==> old_view.insert(
        place,
        after[at].cell@,
    ).dom().contains(p) by {
        if exists|i: int| stands_at(after, p, i) {
            let i = choose|i: int| stands_at(after, p, i);
            if i < at {
                assert(stands_at(before, p, i));
            } else if i > at {
                assert(stands_at(before, p, i - 1));
            }
        }
        if exists|i: int| stands_at(before, p, i) {
            let i = choose|i: int| stands_at(before, p, i);
            if i < at {
                assert(stands_at(after, p, i));
            } else {
                assert(stands_at(after, p, i + 1));
            }
        }
        assert(stands_at(after, place, at));
    }
    assert forall|p: (Cf, Seq<u8>)| new_view.dom().contains(p) implies new_view[p]
        == old_view.insert(place, after[at].cell@)[p] by {
        let i = choose|i: int| stands_at(after, p, i);
        lemma_row_at(after, i);
        if i < at {
            lemma_row_at(before, i);
        } else if i > at {
            lemma_row_at(before, i - 1);
        }
    }
    assert(new_view =~= old_view.insert(place, after[at].cell@));
}

proof fn lemma_removed(before: Seq<Row>, after: Seq<Row>, at: int, place: (Cf, Seq<u8>))
    requires
        rows_sorted(before),
        0 <= at < before.len(),
        before[at].place() == place,
        after == before.remove(at),
    ensures
        rows_sorted(after),
        rows_view(after) == rows_view(before).remove(place),
{
    assert forall|i: int, j: int| 0 <= i < j < after.len() implies place_lt(
        #[trigger] after[i].place(),
        #[trigger] after[j].place(),
    ) by {
        let bi = if i < at {
            i
        } else {
            i + 1
        };
        let bj = if j < at {
            j
        } else {
            j + 1
        };
        assert(after[i] == before[bi] && after[j] == before[bj]);
        assert(place_lt(before[bi].place(), before[bj].place()));
    }
    let (old_view, new_view) = (rows_view(before), rows_view(after));
    lemma_place_irreflexive(place);
    assert forall|p: (Cf, Seq<u8>)| new_view.dom().contains(p) <==> old_view.remove(
        place,
    ).dom().contains(p) by {
        if exists|i: int| stands_at(after, p, i) {
            let i = choose|i: int| stands_at(after, p, i);
            let bi = if i < at {
                i
            } else {
                i + 1
            };
            assert(after[i] == before[bi]);
            assert(stands_at(before, p, bi));
            if bi < at {
                assert(place_lt(before[bi].place(), before[at].place()));
            } else {
                assert(place_lt(before[at].place(), before[bi].place()));
            }
        }
        if p != place && exists|i: int| stands_at(before, p, i) {
            let i = choose|i: int| stands_at(before, p, i);
            if i < at {
                assert(stands_at(after, p, i));
            } else {
                assert(stands_at(after, p, i - 1));
            }
        }
    }
    assert forall|p: (Cf, Seq<u8>)| new_view.dom().contains(p) implies new_view[p]
        == old_view.remove(place)[p] by {
        let i = choose|i: int| stands_at(after, p, i);
        lemma_row_at(after, i);
        let bi = if i < at {
            i
        } else {
            i + 1
        };
        assert(after[i] == before[bi]);
        lemma_row_at(before, bi);
    }
    assert(new_view =~= old_view.remove(place));
}

/// The rows from the lower bound of a prefix on, as long as they have it, are all
/// the rows that have it.
proof fn lemma_scan_block(rows: Seq<Row>, cf: Cf, prefix: Seq<u8>, lo: int, hi: int)
    requires
        rows_sorted(rows),
        0 <= lo <= hi <= rows.len(),
        forall|i: int| 0 <= i < lo ==> place_lt(#[trigger] rows[i].place(), (cf, prefix)),
        forall|i: int| lo <= i < rows.len() ==> !place_lt(#[trigger] rows[i].place(), (cf, prefix)),
        forall|i: int|
            lo <= i < hi ==> (#[trigger] rows[i]).cf == cf && prefix.is_prefix_of(rows[i].key@),
        hi < rows.len() ==> rows[hi].cf != cf || !prefix.is_prefix_of(rows[hi].key@),
    ensures
        scan(rows_view(rows), cf, prefix) == Seq::new(
            (hi - lo) as nat,
            |i: int| rows[lo + i].key@,
        ),
        is_scan(rows_view(rows), cf, prefix, scan(rows_view(rows), cf, prefix)),
{
    let db = rows_view(rows);
    let ks = Seq::new((hi - lo) as nat, |i: int| rows[lo + i].key@);
    assert(ascending(ks)) by {
        assert forall|i: int, j: int| 0 <= i < j < ks.len() implies lex_lt(
            #[trigger] ks[i],
            #[trigger] ks[j],
        ) by {
            assert(place_lt(rows[lo + i].place(), rows[lo + j].place()));
        }
    }
    assert forall|k: Seq<u8>| #[trigger] ks.contains(k) <==> db.dom().contains((cf, k))
        && prefix.is_prefix_of(k) by {
        if ks.contains(k) {
            let i = ks.index_of(k);
            lemma_row_at(rows, lo + i);
        }
        if db.dom().contains((cf, k)) && prefix.is_prefix_of(k) {
            let i = choose|i: int| stands_at(rows, (cf, k), i);
            assert(rows[i].place() == (cf, k));
            lemma_prefix_not_after(k, prefix);
            assert(lo <= i);
            if i >= hi {
                let h = rows[hi];
                if i > hi {
                    assert(place_lt(rows[hi].place(), rows[i].place()));
                    if h.cf == cf {
                        lemma_prefix_block_ends(prefix, h.key@, k);
                    } else {
                        assert(!place_lt(h.place(), (cf, prefix)));
                    }
                }
            } else {
                assert(ks[i - lo] == k);
            }
        }
    }
    lemma_scan_unique(db, cf, prefix, ks);
}

// ---------------------------------------------------------------------------
// Batches
// ---------------------------------------------------------------------------

/// One write.
#[derive(Debug, Clone)]
pub enum BatchOp {
    Put { cf: Cf, key: Vec<u8>, record: StoredRecord },
    Delete { cf: Cf, key: Vec<u8> },
}

/// One write.
pub enum OpView {
    Put { cf: Cf, key: Seq<u8>, record: RecordView },
    Delete { cf: Cf, key: Seq<u8> },
}

impl BatchOp {
    pub open spec fn view(&self) -> OpView {
        match self {
            BatchOp::Put { cf, key, record } => OpView::Put {
                cf: *cf,
                key: key@,
                record: record@,
            },
            BatchOp::Delete { cf, key } => OpView::Delete { cf: *cf, key: key@ },
        }
    }
}

pub open spec fn ops_view(ops: Seq<BatchOp>) -> Seq<OpView> {
    Seq::new(ops.len(), |i: int| ops[i]@)
}

/// What one write makes of the contents of a store.
pub open spec fn applied_one(db: DbView, op: OpView) -> DbView {
    match op {
        OpView::Put { cf, key, record } => db.insert((cf, key), Some(record)),
        OpView::Delete { cf, key } => db.remove((cf, key)),
    }
}

/// What a sequence of writes makes of the contents of a store.
pub open spec fn applied(db: DbView, ops: Seq<OpView>) -> DbView
    decreases ops.len(),
{
    if ops.len() == 0 {
        db
    } else {
        applied_one(applied(db, ops.drop_last()), ops.last())
    }
}

/// Applying one sequence of writes and then another is applying both in order.
pub proof fn lemma_applied_concat(db: DbView, a: Seq<OpView>, b: Seq<OpView>)
    ensures
        applied(db, a + b) == applied(applied(db, a), b),
    decreases b.len(),
{
    if b.len() == 0 {
        assert(a + b =~= a);
    } else {
        assert((a + b).drop_last() =~= a + b.drop_last());
        lemma_applied_concat(db, a, b.drop_last());
    }
}

/// Writes keep a store finite.
pub proof fn lemma_applied_finite(db: DbView, ops: Seq<OpView>)
    requires
        db.dom().finite(),
    ensures
        applied(db, ops).dom().finite(),
    decreases ops.len(),
{
    if ops.len() > 0 {
        lemma_applied_finite(db, ops.drop_last());
    }
}

/// A sequence of writes that are applied together.
#[derive(Debug, Clone)]
pub struct WriteBatch {
    pub ops: Vec<BatchOp>,
}

impl WriteBatch {
    pub open spec fn view(&self) -> Seq<OpView> {
        ops_view(self.ops@)
    }

    /// A batch without writes.
    pub fn new() -> (r: WriteBatch)
        ensures
            r@ == Seq::<OpView>::empty(),
    {
        let r = WriteBatch { ops: Vec::new() };
        assert(r@ =~= Seq::<OpView>::empty());
        r
    }

    /// Adds the writes of another batch.
    pub fn append(&mut self, other: WriteBatch)
        ensures
            final(self)@ == old(self)@ + other@,
    {
        let mut ops = other.ops;
        self.ops.append(&mut ops);
        assert(self@ =~= old(self)@ + other@);
    }

    /// Adds the write of a record.
    pub fn put_cf(&mut self, cf: Cf, key: &[u8], record: StoredRecord)
        ensures
            final(self)@ == old(self)@.push(OpView::Put { cf, key: key@, record: record@ }),
    {
        let op = BatchOp::Put { cf, key: vstd::slice::slice_to_vec(key), record };
        self.ops.push(op);
        assert(self@ =~= old(self)@.push(OpView::Put { cf, key: key@, record: record@ }));
    }

    /// Adds the removal of a record.
    pub fn delete_cf(&mut self, cf: Cf, key: &[u8])
        ensures
            final(self)@ == old(self)@.push(OpView::Delete { cf, key: key@ }),
    {
        let op = BatchOp::Delete { cf, key: vstd::slice::slice_to_vec(key) };
        self.ops.push(op);
        assert(self@ =~= old(self)@.push(OpView::Delete { cf, key: key@ }));
    }
}

} // verus!
