//! The dump of all locks: it goes through the live owners, page by page, and lists
//! what each of them holds.

use vstd::prelude::*;
use crate::db::{ascending, lemma_scan_exists, scan, DbView};
use crate::engine::conflict::{is_alive, is_owner_alive_inner};
use crate::engine::laws::{holding, sound};
use crate::engine::ops::{fence_of, get_fence, holdings, list_holdings};
use crate::engine::outcome_laws::law_holdings_are_complete;
use crate::engine::types::{
    entries_view, rels_view, DumpView, EntryView, LockDumpEntry, LockDumpPage, Mode, RelReq,
    RelView,
};
use crate::order::{lemma_lex_asymmetric, lemma_lex_irreflexive, lex_lt};
use crate::store_keys::{nul_free, Cf};
use crate::store_rocksdb::{
    first_keys, keys_after, keys_view, opt_key, rest_after, ErrorView, RocksDbTxn, StoreError,
    StoreTxn,
};
use crate::text::{lemma_utf8_injective, utf8};

verus! {

/// The number of owners on a page if the caller names none.
pub const DEFAULT_OWNER_PAGE: u32 = 64;

/// The largest number of owners on a page.
pub const MAX_OWNER_PAGE: u32 = 512;

/// The number of owners on a page.
pub open spec fn page_size(owner_page: u32) -> u32 {
    if owner_page == 0 {
        DEFAULT_OWNER_PAGE
    } else if owner_page > MAX_OWNER_PAGE {
        MAX_OWNER_PAGE
    } else {
        owner_page
    }
}

/// The owner that a key of the liveness markers stands for.
pub open spec fn owner_of(k: Seq<u8>) -> Option<Seq<char>> {
    if exists|s: Seq<char>| #[trigger] utf8(s) == k {
        Some(choose|s: Seq<char>| #[trigger] utf8(s) == k)
    } else {
        None
    }
}

/// The fence in the entry of a lock: that of the path for a write lock, none for a
/// read lock.
pub open spec fn entry_fence(db: DbView, now: u64, lock: RelView) -> Result<
    Option<i64>,
    ErrorView,
> {
    match lock.mode {
        Mode::Read => Ok(None),
        Mode::Write => fence_of(db, now, lock.path),
    }
}

/// The entries of an owner's locks.
pub open spec fn lock_entries(db: DbView, now: u64, owner: Seq<char>, locks: Seq<RelView>) -> Result<
    Seq<EntryView>,
    ErrorView,
>
    decreases locks.len(),
{
    if locks.len() == 0 {
        Ok(Seq::empty())
    } else {
        let lock = locks.last();
        match lock_entries(db, now, owner, locks.drop_last()) {
            Err(e) => Err(e),
            Ok(entries) => match entry_fence(db, now, lock) {
                Err(e) => Err(e),
                Ok(fence) => Ok(
                    entries.push(EntryView { owner, mode: lock.mode, path: lock.path, fence }),
                ),
            },
        }
    }
}

/// The entries of the owner that a key stands for: everything in its list of
/// holdings if its lease is live.
pub open spec fn owner_entries(db: DbView, now: u64, k: Seq<u8>) -> Result<
    Seq<EntryView>,
    ErrorView,
> {
    match owner_of(k) {
        None => Ok(Seq::empty()),
        Some(owner) => match is_alive(db, now, owner) {
            Err(e) => Err(e),
            Ok(false) => Ok(Seq::empty()),
            Ok(true) => match holdings(db, now, owner) {
                Err(e) => Err(e),
                Ok(locks) => lock_entries(db, now, owner, locks),
            },
        },
    }
}

/// The entries of the owners that keys stand for, in their order.
pub open spec fn entries_of(db: DbView, now: u64, ks: Seq<Seq<u8>>) -> Result<
    Seq<EntryView>,
    ErrorView,
>
    decreases ks.len(),
{
    if ks.len() == 0 {
        Ok(Seq::empty())
    } else {
        match entries_of(db, now, ks.drop_last()) {
            Err(e) => Err(e),
            Ok(front) => match owner_entries(db, now, ks.last()) {
                Err(e) => Err(e),
                Ok(entries) => Ok(front + entries),
            },
        }
    }
}

/// One page of the dump: the locks of the next owners after the cursor. The cursor
/// of the page is the last of them, unless no owner is left.
pub open spec fn dump_page(
    db: DbView,
    now: u64,
    cursor: Option<Seq<u8>>,
    owner_page: u32,
) -> Result<DumpView, ErrorView> {
    let left = keys_after(db, Cf::OwnerAlive, cursor);
    let page = first_keys(left, page_size(owner_page) as nat);
    match entries_of(db, now, page) {
        Err(e) => Err(e),
        Ok(entries) => if left.len() > page.len() {
            Ok(DumpView { entries, cursor: Some(page.last()), done: false })
        } else {
            Ok(DumpView { entries, cursor: None, done: true })
        },
    }
}

/// `String::from_utf8`: the text whose UTF-8 bytes are given; none if they are not
/// the bytes of any text.
#[verifier::external_body]
fn text_of(bytes: Vec<u8>) -> (r: Option<String>)
    ensures
        match r {
            Some(s) => utf8(s@) == bytes@,
            None => forall|s: Seq<char>| #[trigger] utf8(s) != bytes@,
        },
{
    String::from_utf8(bytes).ok()
}

fn read_owner(key: &Vec<u8>) -> (r: Option<String>)
    ensures
        match r {
            Some(s) => owner_of(key@) == Some(s@),
            None => owner_of(key@) is None,
        },
{
    let r = text_of(vstd::slice::slice_to_vec(key.as_slice()));
    proof {
        if r is Some {
            lemma_utf8_injective(r->0@, owner_of(key@)->0);
        }
    }
    r
}

proof fn lemma_lock_entries_stop(
    db: DbView,
    now: u64,
    owner: Seq<char>,
    locks: Seq<RelView>,
    n: int,
)
    requires
        0 <= n <= locks.len(),
        lock_entries(db, now, owner, locks.take(n)) is Err,
    ensures
        lock_entries(db, now, owner, locks) == lock_entries(db, now, owner, locks.take(n)),
    decreases locks.len() - n,
{
    if n == locks.len() {
        assert(locks.take(n) =~= locks);
    } else {
        assert(locks.take(n + 1).drop_last() =~= locks.take(n));
        lemma_lock_entries_stop(db, now, owner, locks, n + 1);
    }
}

proof fn lemma_entries_stop(db: DbView, now: u64, ks: Seq<Seq<u8>>, n: int)
    requires
        0 <= n <= ks.len(),
        entries_of(db, now, ks.take(n)) is Err,
    ensures
        entries_of(db, now, ks) == entries_of(db, now, ks.take(n)),
    decreases ks.len() - n,
{
    if n == ks.len() {
        assert(ks.take(n) =~= ks);
    } else {
        assert(ks.take(n + 1).drop_last() =~= ks.take(n));
        lemma_entries_stop(db, now, ks, n + 1);
    }
}

fn add_locks<T: StoreTxn>(
    tx: &mut T,
    owner: &str,
    locks: &Vec<RelReq>,
    out: &mut Vec<LockDumpEntry>,
) -> (r: Result<(), StoreError>)
    ensures
        final(tx).state() == old(tx).state(),
        match (
            r,
            lock_entries(old(tx).state().db, old(tx).state().now, owner@, rels_view(locks@)),
        ) {
            (Ok(_), Ok(entries)) => entries_view(final(out)@) == entries_view(old(out)@) + entries,
            (Err(e), Err(f)) => e@ == f,
            _ => false,
        },
{
    let ghost t = tx.state();
    let ghost all = rels_view(locks@);
    let ghost start = entries_view(out@);
    let ghost mut done = Seq::<EntryView>::empty();
    let mut i: usize = 0;
    assert(all.take(0) =~= Seq::<RelView>::empty());
    assert(start + done =~= start);
    while i < locks.len()
        invariant
            i <= locks@.len(),
            t == old(tx).state(),
            tx.state() == t,
            all == rels_view(locks@),
            entries_view(out@) == start + done,
            lock_entries(t.db, t.now, owner@, all.take(i as int)) == Ok::<
                Seq<EntryView>,
                ErrorView,
            >(done),
        decreases locks@.len() - i,
    {
        let ghost before = out@;
        assert(all.take(i + 1).drop_last() =~= all.take(i as int));
        assert(all.take(i + 1).last() == locks@[i as int]@);
        let fence = match locks[i].mode {
            Mode::Read => None,
            Mode::Write => match get_fence(tx, locks[i].path.as_str()) {
                Err(e) => {
                    proof {
                        lemma_lock_entries_stop(t.db, t.now, owner@, all, i + 1);
                    }
                    return Err(e);
                },
                Ok(fence) => fence,
            },
        };
        out.push(
            LockDumpEntry {
                owner: owner.to_owned(),
                mode: locks[i].mode,
                path: locks[i].path.clone(),
                fence,
            },
        );
        proof {
            let entry = out@.last()@;
            assert(entries_view(out@) =~= entries_view(before).push(entry));
            assert(start + done.push(entry) =~= (start + done).push(entry));
            done = done.push(entry);
        }
        i = i + 1;
    }
    assert(all.take(all.len() as int) =~= all);
    Ok(())
}

fn add_owner<T: StoreTxn>(tx: &mut T, key: &Vec<u8>, out: &mut Vec<LockDumpEntry>) -> (r: Result<
    (),
    StoreError,
>)
    ensures
        final(tx).state() == old(tx).state(),
        match (r, owner_entries(old(tx).state().db, old(tx).state().now, key@)) {
            (Ok(_), Ok(entries)) => entries_view(final(out)@) == entries_view(old(out)@) + entries,
            (Err(e), Err(f)) => e@ == f,
            _ => false,
        },
{
    let ghost start = entries_view(out@);
    assert(start + Seq::<EntryView>::empty() =~= start);
    let owner = match read_owner(key) {
        None => {
            return Ok(());
        },
        Some(owner) => owner,
    };
    match is_owner_alive_inner(tx, owner.as_str()) {
        Err(e) => Err(e),
        Ok(false) => Ok(()),
        Ok(true) => match list_holdings(tx, owner.as_str()) {
            Err(e) => Err(e),
            Ok(locks) => add_locks(tx, owner.as_str(), &locks, out),
        },
    }
}

/// One page of the dump of all locks, for at most `owner_page` owners after the
/// cursor; the default if it is 0, and never more than the largest page.
pub fn dump_locks_inner<'a>(
    tx: &mut RocksDbTxn<'a>,
    cursor: Option<Vec<u8>>,
    owner_page: u32,
) -> (r: Result<LockDumpPage, StoreError>)
    ensures
        final(tx).state() == old(tx).state(),
        match (
            r,
            dump_page(old(tx).state().db, old(tx).state().now, opt_key(cursor), owner_page),
        ) {
            (Ok(page), Ok(v)) => page@ == v,
            (Err(e), Err(f)) => e@ == f,
            _ => false,
        },
{
    let ghost t = tx.state();
    let size: u32 = if owner_page == 0 {
        DEFAULT_OWNER_PAGE
    } else if owner_page > MAX_OWNER_PAGE {
        MAX_OWNER_PAGE
    } else {
        owner_page
    };
    let (keys, more) = tx.keys_after(Cf::OwnerAlive, &cursor, size as usize);
    let ghost left = keys_after(t.db, Cf::OwnerAlive, opt_key(cursor));
    let ghost page = keys_view(keys@);
    let mut entries: Vec<LockDumpEntry> = Vec::new();
    let mut i: usize = 0;
    assert(page.take(0) =~= Seq::<Seq<u8>>::empty());
    assert(entries_view(entries@) =~= Seq::<EntryView>::empty());
    while i < keys.len()
        invariant
            i <= keys@.len(),
            t == old(tx).state(),
            tx.state() == t,
            page == keys_view(keys@),
            page == first_keys(
                keys_after(t.db, Cf::OwnerAlive, opt_key(cursor)),
                page_size(owner_page) as nat,
            ),
            entries_of(t.db, t.now, page.take(i as int)) == Ok::<Seq<EntryView>, ErrorView>(
                entries_view(entries@),
            ),
        decreases keys@.len() - i,
    {
        assert(page.take(i + 1).drop_last() =~= page.take(i as int));
        assert(page.take(i + 1).last() == keys@[i as int]@);
        match add_owner(tx, &keys[i], &mut entries) {
            Err(e) => {
                proof {
                    lemma_entries_stop(t.db, t.now, page, i + 1);
                }
                return Err(e);
            },
            Ok(()) => {},
        }
        i = i + 1;
    }
    assert(page.take(page.len() as int) =~= page);
    let next = if more {
        assert(page.last() == keys@[keys@.len() - 1]@);
        Some(vstd::slice::slice_to_vec(keys[keys.len() - 1].as_slice()))
    } else {
        None
    };
    Ok(LockDumpPage { entries, cursor: next, done: !more })
}

// ---------------------------------------------------------------------------
// Laws
// ---------------------------------------------------------------------------

proof fn lemma_entries_concat(db: DbView, now: u64, a: Seq<Seq<u8>>, b: Seq<Seq<u8>>)
    ensures
        entries_of(db, now, a + b) == (match entries_of(db, now, a) {
            Err(e) => Err(e),
            Ok(x) => match entries_of(db, now, b) {
                Err(e) => Err(e),
                Ok(y) => Ok(x + y),
            },
        }),
    decreases b.len(),
{
    if b.len() == 0 {
        assert(a + b =~= a);
        if let Ok(x) = entries_of(db, now, a) {
            assert(x + Seq::<EntryView>::empty() =~= x);
        }
    } else {
        assert((a + b).drop_last() =~= a + b.drop_last());
        lemma_entries_concat(db, now, a, b.drop_last());
        if let (Ok(x), Ok(y)) = (entries_of(db, now, a), entries_of(db, now, b.drop_last())) {
            if let Ok(z) = owner_entries(db, now, b.last()) {
                assert(x + y + z =~= x + (y + z));
            }
        }
    }
}

/// What is left after a key of an ascending list is what stands behind it.
proof fn lemma_rest_behind(ks: Seq<Seq<u8>>, i: int)
    requires
        ascending(ks),
        0 <= i < ks.len(),
    ensures
        rest_after(ks, ks[i]) == ks.skip(i + 1),
    decreases ks.len(),
{
    let tail = ks.drop_first();
    if i == 0 {
        lemma_lex_irreflexive(ks[0]);
        assert(ks.skip(1) =~= tail);
        if tail.len() > 0 {
            assert(lex_lt(ks[0], ks[1]));
            assert(tail[0] == ks[1]);
        }
        assert(rest_after(tail, ks[0]) == tail);
    } else {
        assert(lex_lt(ks[0], ks[i]));
        lemma_lex_asymmetric(ks[0], ks[i]);
        assert forall|a: int, b: int| 0 <= a < b < tail.len() implies lex_lt(
            #[trigger] tail[a],
            #[trigger] tail[b],
        ) by {
            assert(tail[a] == ks[a + 1] && tail[b] == ks[b + 1]);
        }
        assert(tail[i - 1] == ks[i]);
        lemma_rest_behind(tail, i - 1);
        assert(tail.skip(i) =~= ks.skip(i + 1));
    }
}

proof fn lemma_rest_is_tail(ks: Seq<Seq<u8>>, c: Seq<u8>) -> (n: int)
    ensures
        0 <= n <= ks.len(),
        rest_after(ks, c) == ks.skip(n),
    decreases ks.len(),
{
    if ks.len() == 0 || lex_lt(c, ks[0]) {
        assert(ks.skip(0) =~= ks);
        0
    } else {
        let n = lemma_rest_is_tail(ks.drop_first(), c);
        assert(ks.drop_first().skip(n) =~= ks.skip(n + 1));
        n + 1
    }
}

/// The pages of a dump join without a gap and without a lock twice: what is left
/// after a cursor is the page, and then what is left after the cursor of the page.
/// Every page that is not the last leaves less to do.
pub proof fn law_dump_pages_join(db: DbView, now: u64, cursor: Option<Seq<u8>>, owner_page: u32)
    requires
        db.dom().finite(),
        dump_page(db, now, cursor, owner_page) is Ok,
    ensures
        ({
            let page = dump_page(db, now, cursor, owner_page)->Ok_0;
            let left = keys_after(db, Cf::OwnerAlive, cursor);
            let then = keys_after(db, Cf::OwnerAlive, page.cursor);
            &&& page.done ==> entries_of(db, now, left) == Ok::<Seq<EntryView>, ErrorView>(
                page.entries,
            )
            &&& !page.done ==> page.cursor is Some && then.len() < left.len() && entries_of(
                db,
                now,
                left,
            ) == (match entries_of(db, now, then) {
                Ok(rest) => Ok(page.entries + rest),
                Err(e) => Err(e),
            })
        }),
{
    let page = dump_page(db, now, cursor, owner_page)->Ok_0;
    let ks = scan(db, Cf::OwnerAlive, Seq::empty());
    let left = keys_after(db, Cf::OwnerAlive, cursor);
    let n = page_size(owner_page) as int;
    lemma_scan_exists(db, Cf::OwnerAlive, Seq::empty());
    let from = match cursor {
        None => 0,
        Some(c) => lemma_rest_is_tail(ks, c),
    };
    assert(left =~= ks.skip(from));
    if !page.done {
        let last = left.take(n).last();
        assert(last == ks[from + n - 1]);
        lemma_rest_behind(ks, from + n - 1);
        assert(ks.skip(from + n) =~= left.skip(n));
        assert(left =~= left.take(n) + left.skip(n));
        lemma_entries_concat(db, now, left.take(n), left.skip(n));
    }
}

proof fn lemma_entries_have(db: DbView, now: u64, ks: Seq<Seq<u8>>, k: Seq<u8>, e: EntryView)
    requires
        entries_of(db, now, ks) is Ok,
        ks.contains(k),
        owner_entries(db, now, k) is Ok ==> owner_entries(db, now, k)->Ok_0.contains(e),
    ensures
        entries_of(db, now, ks)->Ok_0.contains(e),
    decreases ks.len(),
{
    let front = ks.drop_last();
    let all = entries_of(db, now, ks)->Ok_0;
    let rest = entries_of(db, now, front)->Ok_0;
    let i = ks.index_of(k);
    if i == ks.len() - 1 {
        let own = owner_entries(db, now, k)->Ok_0;
        let j = own.index_of(e);
        assert(all[rest.len() + j] == e);
    } else {
        assert(front[i] == k);
        lemma_entries_have(db, now, front, k, e);
        let j = rest.index_of(e);
        assert(all[j] == e);
    }
}

proof fn lemma_lock_entries_have(
    db: DbView,
    now: u64,
    owner: Seq<char>,
    locks: Seq<RelView>,
    lock: RelView,
)
    requires
        lock_entries(db, now, owner, locks) is Ok,
        locks.contains(lock),
    ensures
        entry_fence(db, now, lock) is Ok,
        lock_entries(db, now, owner, locks)->Ok_0.contains(
            EntryView {
                owner,
                mode: lock.mode,
                path: lock.path,
                fence: entry_fence(db, now, lock)->Ok_0,
            },
        ),
    decreases locks.len(),
{
    let front = locks.drop_last();
    let all = lock_entries(db, now, owner, locks)->Ok_0;
    let rest = lock_entries(db, now, owner, front)->Ok_0;
    let e = EntryView {
        owner,
        mode: lock.mode,
        path: lock.path,
        fence: entry_fence(db, now, lock)->Ok_0,
    };
    let i = locks.index_of(lock);
    if i == locks.len() - 1 {
        assert(all[all.len() - 1] == e);
    } else {
        assert(front[i] == lock);
        lemma_lock_entries_have(db, now, owner, front, lock);
        let j = rest.index_of(e);
        assert(all[j] == e);
    }
}

proof fn lemma_owner_reads_back(o: Seq<char>)
    ensures
        owner_of(utf8(o)) == Some(o),
{
    lemma_utf8_injective(o, owner_of(utf8(o))->0);
}

/// The dump is complete: every lock of a live owner is in it, a write lock with the
/// fence of its path.
pub proof fn law_dump_is_complete(db: DbView, now: u64, m: Mode, p: Seq<char>, o: Seq<char>)
    requires
        sound(db, now),
        nul_free(p),
        nul_free(o),
        holding(db, now, m, p, o),
        is_alive(db, now, o) == Ok::<bool, ErrorView>(true),
        entries_of(db, now, keys_after(db, Cf::OwnerAlive, None)) is Ok,
    ensures
        m == Mode::Write ==> fence_of(db, now, p) is Ok,
        entries_of(db, now, keys_after(db, Cf::OwnerAlive, None))->Ok_0.contains(
            EntryView {
                owner: o,
                mode: m,
                path: p,
                fence: match m {
                    Mode::Read => None,
                    Mode::Write => fence_of(db, now, p)->Ok_0,
                },
            },
        ),
{
    let ks = keys_after(db, Cf::OwnerAlive, None);
    let k = utf8(o);
    let lock = RelView { path: p, mode: m };
    lemma_scan_exists(db, Cf::OwnerAlive, Seq::empty());
    assert(k.take(0) =~= Seq::<u8>::empty());
    assert(Seq::<u8>::empty().is_prefix_of(k));
    assert(ks.contains(k));
    lemma_owner_reads_back(o);
    lemma_owner_entries_ok(db, now, ks, k);
    law_holdings_are_complete(db, now, o, m, p);
    lemma_lock_entries_have(db, now, o, holdings(db, now, o)->Ok_0, lock);
    lemma_entries_have(
        db,
        now,
        ks,
        k,
        EntryView { owner: o, mode: m, path: p, fence: entry_fence(db, now, lock)->Ok_0 },
    );
}

proof fn lemma_owner_entries_ok(db: DbView, now: u64, ks: Seq<Seq<u8>>, k: Seq<u8>)
    requires
        entries_of(db, now, ks) is Ok,
        ks.contains(k),
    ensures
        owner_entries(db, now, k) is Ok,
    decreases ks.len(),
{
    let front = ks.drop_last();
    let i = ks.index_of(k);
    if i < ks.len() - 1 {
        assert(front[i] == k);
        lemma_owner_entries_ok(db, now, front, k);
    }
}

/// Whether an entry is of a lock in the list of holdings of an owner whose lease is
/// live, a write lock with the fence of its path and a read lock with none.
pub open spec fn is_real_entry(db: DbView, now: u64, e: EntryView) -> bool {
    &&& is_alive(db, now, e.owner) == Ok::<bool, ErrorView>(true)
    &&& holdings(db, now, e.owner) matches Ok(locks) && locks.contains(
        RelView { path: e.path, mode: e.mode },
    )
    &&& match e.mode {
        Mode::Read => e.fence is None,
        Mode::Write => fence_of(db, now, e.path) == Ok::<Option<i64>, ErrorView>(e.fence),
    }
}

/// A page holds the locks of as many owners as asked for, of at most 512, and of 64 if no
/// number is given.
pub proof fn law_pages_are_bounded(owner_page: u32)
    ensures
        owner_page == 0 ==> page_size(owner_page) == 64,
        owner_page > 0 ==> 0 < page_size(owner_page) <= owner_page,
        page_size(owner_page) <= 512,
        0 < owner_page <= 512 ==> page_size(owner_page) == owner_page,
        owner_page > 512 ==> page_size(owner_page) == 512,
{
}

/// The dump lists nothing else: every entry of a page is of a lock in the list of
/// holdings of an owner whose lease is live.
pub proof fn law_dump_is_real(
    db: DbView,
    now: u64,
    cursor: Option<Seq<u8>>,
    owner_page: u32,
    i: int,
)
    requires
        dump_page(db, now, cursor, owner_page) is Ok,
        0 <= i < dump_page(db, now, cursor, owner_page)->Ok_0.entries.len(),
    ensures
        is_real_entry(db, now, dump_page(db, now, cursor, owner_page)->Ok_0.entries[i]),
{
    let page = first_keys(keys_after(db, Cf::OwnerAlive, cursor), page_size(owner_page) as nat);
    lemma_entries_real(db, now, page, i);
}

proof fn lemma_entries_real(db: DbView, now: u64, ks: Seq<Seq<u8>>, i: int)
    requires
        entries_of(db, now, ks) is Ok,
        0 <= i < entries_of(db, now, ks)->Ok_0.len(),
    ensures
        is_real_entry(db, now, entries_of(db, now, ks)->Ok_0[i]),
    decreases ks.len(),
{
    let front = ks.drop_last();
    let rest = entries_of(db, now, front)->Ok_0;
    let own = owner_entries(db, now, ks.last())->Ok_0;
    assert(entries_of(db, now, ks)->Ok_0 == rest + own);
    if i < rest.len() {
        lemma_entries_real(db, now, front, i);
    } else {
        let o = owner_of(ks.last())->0;
        lemma_lock_entries_real(db, now, o, holdings(db, now, o)->Ok_0, i - rest.len());
    }
}

proof fn lemma_lock_entries_real(
    db: DbView,
    now: u64,
    owner: Seq<char>,
    locks: Seq<RelView>,
    i: int,
)
    requires
        lock_entries(db, now, owner, locks) is Ok,
        0 <= i < lock_entries(db, now, owner, locks)->Ok_0.len(),
    ensures
        ({
            let e = lock_entries(db, now, owner, locks)->Ok_0[i];
            let lock = RelView { path: e.path, mode: e.mode };
            &&& e.owner == owner
            &&& locks.contains(lock)
            &&& entry_fence(db, now, lock) == Ok::<Option<i64>, ErrorView>(e.fence)
        }),
    decreases locks.len(),
{
    let front = locks.drop_last();
    let rest = lock_entries(db, now, owner, front)->Ok_0;
    let e = lock_entries(db, now, owner, locks)->Ok_0[i];
    let lock = RelView { path: e.path, mode: e.mode };
    if i < rest.len() {
        lemma_lock_entries_real(db, now, owner, front, i);
        let j = front.index_of(lock);
        assert(locks[j] == lock);
    } else {
        assert(locks[locks.len() - 1] == lock);
    }
}

} // verus!
