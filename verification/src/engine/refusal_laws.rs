//! Why an acquire is refused: every refusal names something that does stand in the way
//! of a lock that was asked for, and an acquire is granted if nothing does.

use vstd::prelude::*;
use crate::db::{lemma_scan_exists, DbView};
use crate::engine::conflict::{
    both, claims_on, first_live, inside, is_alive, on_indexed, on_paths, overlapping, readers_below,
    readers_of, readers_on, readers_under, BlockerView, Found,
};
use crate::engine::index_laws::{belongs, honest, row_says};
use crate::engine::laws::holding;
use crate::engine::ops::{acquire_plan, check_request, check_requests, fence_of, first_held};
use crate::engine::outcome_laws::{lemma_check_never_grants, lemma_first_live_in};
use crate::engine::path::ancestors;
use crate::engine::query::blocking;
use crate::engine::types::{reason_text, AcquireView, ArgsView, Mode, Reason, ReqView, State};
use crate::store_keys::{member_prefix_spec, nul_free, Cf, MAX_SET_ENUM_MEMBERS};
use crate::store_rocksdb::{live_text, live_texts, member_rows, read_members, read_text, ErrorView};
use crate::text::{split_nul, utf8};

verus! {

/// A live text of a set stands in one of its rows.
pub proof fn lemma_text_has_row(db: DbView, now: u64, cf: Cf, ks: Seq<Seq<u8>>, v: Seq<char>)
    requires
        live_texts(db, now, cf, ks).contains(v),
    ensures
        exists|k: Seq<u8>|
            ks.contains(k) && live_text(#[trigger] db[(cf, k)], now) == Some(v),
    decreases ks.len(),
{
    if ks.len() > 0 {
        let front = ks.drop_last();
        let rest = live_texts(db, now, cf, front);
        let all = live_texts(db, now, cf, ks);
        let i = all.index_of(v);
        if i < rest.len() && rest[i] == v {
            assert(rest.contains(v));
            lemma_text_has_row(db, now, cf, front, v);
            let k = choose|k: Seq<u8>|
                front.contains(k) && live_text(#[trigger] db[(cf, k)], now) == Some(v);
            let j = front.index_of(k);
            assert(ks[j] == k);
        } else {
            assert(ks[ks.len() - 1] == ks.last());
            assert(ks.contains(ks.last()));
            assert(live_text(db[(cf, ks.last())], now) == Some(v));
        }
    }
}

/// What is read of a set belongs to it.
pub proof fn lemma_member_belongs(
    db: DbView,
    now: u64,
    cf: Cf,
    p: Seq<char>,
    limit: usize,
    v: Seq<char>,
)
    requires
        honest(db),
        db.dom().finite(),
        nul_free(p),
        read_members(db, now, cf, utf8(p), limit) matches Ok(members) && members.contains(v),
    ensures
        exists|k: Seq<u8>|
            belongs(cf, p, k, v) && db.dom().contains((cf, k)) && live_text(
                #[trigger] db[(cf, k)],
                now,
            ) == Some(v),
{
    let rows = member_rows(db, cf, utf8(p));
    lemma_scan_exists(db, cf, member_prefix_spec(utf8(p)));
    lemma_text_has_row(db, now, cf, rows, v);
    let k = choose|k: Seq<u8>|
        rows.contains(k) && live_text(#[trigger] db[(cf, k)], now) == Some(v);
    assert(db.dom().contains((cf, k)));
    assert(row_says(db, cf, k, v));
    assert(belongs(cf, p, k, v));
}

/// Whether a blocker is what the store holds, and stands in the way of the lock of mode
/// `m` on `p` for the reason that it gives.
pub open spec fn explained(db: DbView, now: u64, p: Seq<char>, m: Mode, b: BlockerView) -> bool {
    match b.reason {
        Reason::WriteLocked => b.path == p && holding(db, now, Mode::Write, b.path, b.owner),
        Reason::AncestorLocked => ancestors(p).contains(b.path) && holding(
            db,
            now,
            Mode::Write,
            b.path,
            b.owner,
        ),
        Reason::ReadLocked => m == Mode::Write && b.path == p && holding(
            db,
            now,
            Mode::Read,
            b.path,
            b.owner,
        ),
        Reason::DescendantWriteLocked => m == Mode::Write && ancestors(b.path).contains(p)
            && holding(db, now, Mode::Write, b.path, b.owner),
        Reason::DescendantReadLocked => m == Mode::Write && ancestors(b.path).contains(p)
            && holding(db, now, Mode::Read, b.path, b.owner),
        Reason::PreemptClaimed => (b.path == p || m == Mode::Write && ancestors(b.path).contains(p))
            && claimed_by(db, now, b.path, b.owner),
        Reason::PreemptClaimedAbove => ancestors(p).contains(b.path) && claimed_by(
            db,
            now,
            b.path,
            b.owner,
        ),
        _ => false,
    }
}

/// Whether the live claim on a path is that of the given owner.
pub open spec fn claimed_by(db: DbView, now: u64, path: Seq<char>, owner: Seq<char>) -> bool {
    read_text(db, now, Cf::Claims, utf8(path)) == Ok::<Option<Seq<char>>, ErrorView>(Some(owner))
}

spec fn all_explained(db: DbView, now: u64, p: Seq<char>, m: Mode, found: Found) -> bool {
    found matches Ok(bs) ==> forall|i: int|
        0 <= i < bs.len() ==> explained(db, now, p, m, #[trigger] bs[i])
}

proof fn lemma_both_explained(db: DbView, now: u64, p: Seq<char>, m: Mode, a: Found, b: Found)
    requires
        all_explained(db, now, p, m, a),
        all_explained(db, now, p, m, b),
    ensures
        all_explained(db, now, p, m, both(a, b)),
{
    if let Ok(all) = both(a, b) {
        let (x, y) = (a->Ok_0, b->Ok_0);
        assert forall|i: int| 0 <= i < all.len() implies explained(
            db,
            now,
            p,
            m,
            #[trigger] all[i],
        ) by {
            if i < x.len() {
                assert(all[i] == x[i]);
            } else {
                assert(all[i] == y[i - x.len()]);
            }
        }
    }
}

/// What a lookup of paths finds on each of them is recorded there.
proof fn lemma_on_paths_recorded(
    db: DbView,
    now: u64,
    cf: Cf,
    paths: Seq<Seq<char>>,
    reason: Reason,
    i: int,
)
    requires
        on_paths(db, now, cf, paths, reason) is Ok,
        0 <= i < on_paths(db, now, cf, paths, reason)->Ok_0.len(),
    ensures
        ({
            let b = on_paths(db, now, cf, paths, reason)->Ok_0[i];
            &&& b.reason == reason
            &&& paths.contains(b.path)
            &&& read_text(db, now, cf, utf8(b.path)) == Ok::<Option<Seq<char>>, ErrorView>(
                Some(b.owner),
            )
        }),
    decreases paths.len(),
{
    let front = paths.drop_last();
    let all = on_paths(db, now, cf, paths, reason)->Ok_0;
    let rest = on_paths(db, now, cf, front, reason)->Ok_0;
    if i < rest.len() {
        lemma_on_paths_recorded(db, now, cf, front, reason, i);
        assert(all[i] == rest[i]);
        let j = front.index_of(rest[i].path);
        assert(paths[j] == rest[i].path);
    } else {
        assert(paths[paths.len() - 1] == paths.last());
    }
}

proof fn lemma_readers_below_explained(
    db: DbView,
    now: u64,
    p: Seq<char>,
    entries: Seq<Seq<char>>,
)
    requires
        forall|i: int|
            0 <= i < entries.len() ==> (split_nul(#[trigger] entries[i]) matches Some((q, _))
                ==> ancestors(q).contains(p)),
    ensures
        all_explained(db, now, p, Mode::Write, readers_below(db, now, entries)),
    decreases entries.len(),
{
    if entries.len() > 0 {
        let front = entries.drop_last();
        assert forall|i: int| 0 <= i < front.len() implies (split_nul(#[trigger] front[i]) matches Some(
            (q, _),
        ) ==> ancestors(q).contains(p)) by {
            assert(front[i] == entries[i]);
        }
        lemma_readers_below_explained(db, now, p, front);
        assert(entries[entries.len() - 1] == entries.last());
        if let Ok(all) = readers_below(db, now, entries) {
            let rest = readers_below(db, now, front)->Ok_0;
            assert forall|i: int| 0 <= i < all.len() implies explained(
                db,
                now,
                p,
                Mode::Write,
                #[trigger] all[i],
            ) by {
                if i < rest.len() {
                    assert(all[i] == rest[i]);
                }
            }
        }
    }
}

proof fn lemma_listed_below(db: DbView, now: u64, index: Cf, p: Seq<char>, cf: Cf, reason: Reason)
    requires
        honest(db),
        db.dom().finite(),
        nul_free(p),
        index == Cf::DescWrite && cf == Cf::WriteLocks && reason == Reason::DescendantWriteLocked
            || index == Cf::DescClaim && cf == Cf::Claims && reason == Reason::PreemptClaimed,
    ensures
        all_explained(db, now, p, Mode::Write, on_indexed(db, now, index, p, cf, reason)),
{
    if let Ok(found) = on_indexed(db, now, index, p, cf, reason) {
        let paths = read_members(db, now, index, utf8(p), MAX_SET_ENUM_MEMBERS)->Ok_0;
        assert forall|i: int| 0 <= i < found.len() implies explained(
            db,
            now,
            p,
            Mode::Write,
            #[trigger] found[i],
        ) by {
            lemma_on_paths_recorded(db, now, cf, paths, reason, i);
            lemma_member_belongs(db, now, index, p, MAX_SET_ENUM_MEMBERS, found[i].path);
        }
    }
}

proof fn lemma_paths_explained(
    db: DbView,
    now: u64,
    p: Seq<char>,
    m: Mode,
    cf: Cf,
    paths: Seq<Seq<char>>,
    reason: Reason,
)
    requires
        paths == seq![p] && (cf == Cf::WriteLocks && reason == Reason::WriteLocked || cf
            == Cf::Claims && reason == Reason::PreemptClaimed) || paths == ancestors(p) && (cf
            == Cf::WriteLocks && reason == Reason::AncestorLocked || cf == Cf::Claims && reason
            == Reason::PreemptClaimedAbove),
    ensures
        all_explained(db, now, p, m, on_paths(db, now, cf, paths, reason)),
{
    if let Ok(found) = on_paths(db, now, cf, paths, reason) {
        assert forall|i: int| 0 <= i < found.len() implies explained(
            db,
            now,
            p,
            m,
            #[trigger] found[i],
        ) by {
            lemma_on_paths_recorded(db, now, cf, paths, reason, i);
        }
    }
}

/// Whatever the search for what overlaps a lock finds stands in its way.
pub proof fn lemma_found_explained(db: DbView, now: u64, p: Seq<char>, m: Mode)
    requires
        honest(db),
        db.dom().finite(),
        nul_free(p),
    ensures
        overlapping(db, now, p, m) matches Ok(bs) ==> forall|i: int|
            0 <= i < bs.len() ==> explained(db, now, p, m, #[trigger] bs[i]),
{
    let none: Found = Ok(Seq::empty());
    let above = on_paths(db, now, Cf::WriteLocks, ancestors(p), Reason::AncestorLocked);
    let here = on_paths(db, now, Cf::WriteLocks, seq![p], Reason::WriteLocked);
    lemma_paths_explained(db, now, p, m, Cf::WriteLocks, ancestors(p), Reason::AncestorLocked);
    lemma_paths_explained(db, now, p, m, Cf::WriteLocks, seq![p], Reason::WriteLocked);
    let on = on_paths(db, now, Cf::Claims, seq![p], Reason::PreemptClaimed);
    let up = on_paths(db, now, Cf::Claims, ancestors(p), Reason::PreemptClaimedAbove);
    lemma_paths_explained(db, now, p, m, Cf::Claims, seq![p], Reason::PreemptClaimed);
    lemma_paths_explained(db, now, p, m, Cf::Claims, ancestors(p), Reason::PreemptClaimedAbove);
    let down: Found = match m {
        Mode::Read => none,
        Mode::Write => on_indexed(
            db,
            now,
            Cf::DescClaim,
            p,
            Cf::Claims,
            Reason::PreemptClaimed,
        ),
    };
    let within: Found = match m {
        Mode::Read => none,
        Mode::Write => inside(db, now, p),
    };
    if m == Mode::Write {
        let readers = readers_on(db, now, p);
        if let Ok(owners) = read_members(db, now, Cf::ReadLocks, utf8(p), MAX_SET_ENUM_MEMBERS) {
            let list = readers_of(p, owners);
            assert forall|i: int| 0 <= i < list.len() implies explained(
                db,
                now,
                p,
                m,
                #[trigger] list[i],
            ) by {
                assert(owners.contains(owners[i]));
                lemma_member_belongs(db, now, Cf::ReadLocks, p, MAX_SET_ENUM_MEMBERS, owners[i]);
            }
        }
        let writes = on_indexed(
            db,
            now,
            Cf::DescWrite,
            p,
            Cf::WriteLocks,
            Reason::DescendantWriteLocked,
        );
        lemma_listed_below(
            db,
            now,
            Cf::DescWrite,
            p,
            Cf::WriteLocks,
            Reason::DescendantWriteLocked,
        );
        lemma_listed_below(db, now, Cf::DescClaim, p, Cf::Claims, Reason::PreemptClaimed);
        let below = readers_under(db, now, p);
        if let Ok(entries) = read_members(db, now, Cf::DescRead, utf8(p), MAX_SET_ENUM_MEMBERS) {
            assert forall|i: int| 0 <= i < entries.len() implies (split_nul(
                #[trigger] entries[i],
            ) matches Some((q, _)) ==> ancestors(q).contains(p)) by {
                assert(entries.contains(entries[i]));
                lemma_member_belongs(db, now, Cf::DescRead, p, MAX_SET_ENUM_MEMBERS, entries[i]);
            }
            lemma_readers_below_explained(db, now, p, entries);
        }
        lemma_both_explained(db, now, p, m, writes, below);
        lemma_both_explained(db, now, p, m, readers, both(writes, below));
    }
    lemma_both_explained(db, now, p, m, up, down);
    lemma_both_explained(db, now, p, m, on, both(up, down));
    let claims = claims_on(db, now, p, m);
    lemma_both_explained(db, now, p, m, within, claims);
    lemma_both_explained(db, now, p, m, here, both(within, claims));
    lemma_both_explained(db, now, p, m, above, both(here, both(within, claims)));
}

// ---------------------------------------------------------------------------
// Refusals
// ---------------------------------------------------------------------------

/// Whether request `i` of an acquire is reason enough for the given refusal. A conflict:
/// its token is below the fence of the path, or a live other owner has what is named, and
/// that overlaps the lock. A loss: the lock is said to be held, and the owner's lease is
/// over or the lock is not its own.
pub open spec fn is_reason(
    db: DbView,
    now: u64,
    args: ArgsView,
    i: int,
    outcome: AcquireView,
) -> bool {
    let req = args.requests[i];
    match outcome {
        AcquireView::Granted => false,
        AcquireView::Conflict { path, owner, reason } => {
            ||| reason == "stale_fencing_token"@ && owner == Seq::<char>::empty() && path
                == req.path && req.mode == Mode::Write && (fence_of(db, now, path) matches Ok(
                Some(f),
            ) && args.token < f)
            ||| req.state == State::New && owner != args.owner && is_alive(db, now, owner) == Ok::<
                bool,
                ErrorView,
            >(true) && exists|why: Reason| #[trigger]
                reason_text(why) == reason && explained(
                    db,
                    now,
                    req.path,
                    req.mode,
                    (BlockerView { path, owner, reason: why }),
                )
        },
        AcquireView::Lost { path, reason } => req.state == State::Held && path == req.path && {
            ||| reason == "owner_expired"@ && is_alive(db, now, args.owner) == Ok::<
                bool,
                ErrorView,
            >(false)
            ||| reason == (if req.mode == Mode::Write {
                "missing_write"@
            } else {
                "missing_read"@
            }) && !holding(db, now, req.mode, req.path, args.owner)
        },
    }
}

proof fn lemma_refused_for(db: DbView, now: u64, args: ArgsView, n: int)
    requires
        honest(db),
        db.dom().finite(),
        0 <= n <= args.requests.len(),
        forall|i: int| 0 <= i < n ==> nul_free((#[trigger] args.requests[i]).path),
    ensures
        check_requests(db, now, args.owner, args.token, args.requests.take(n)) matches Ok(
            Err(refusal),
        ) ==> exists|i: int| 0 <= i < n && #[trigger] is_reason(db, now, args, i, refusal),
    decreases n,
{
    let reqs = args.requests.take(n);
    if n > 0 {
        let front = args.requests.take(n - 1);
        let req = args.requests[n - 1];
        assert(reqs.drop_last() =~= front);
        assert(reqs.last() == req);
        lemma_refused_for(db, now, args, n - 1);
        if check_requests(db, now, args.owner, args.token, front) matches Ok(Ok(_)) {
            if let Ok(Err(refusal)) = check_request(db, now, args.owner, args.token, req) {
                if req.state == State::New {
                    lemma_found_explained(db, now, req.path, req.mode);
                    if let Ok(found) = overlapping(db, now, req.path, req.mode) {
                        if let Ok(Some(b)) = first_live(db, now, args.owner, found) {
                            lemma_first_live_in(db, now, args.owner, found);
                            let k = found.index_of(b);
                            assert(explained(db, now, req.path, req.mode, found[k]));
                            assert(b == (BlockerView {
                                path: b.path,
                                owner: b.owner,
                                reason: b.reason,
                            }));
                            assert(reason_text(b.reason) == reason_text(b.reason));
                        }
                    }
                }
                assert(is_reason(db, now, args, n - 1, refusal));
            }
        }
    }
}

proof fn lemma_first_held_is_there(reqs: Seq<ReqView>)
    ensures
        first_held(reqs) matches Some(p) ==> exists|i: int|
            0 <= i < reqs.len() && (#[trigger] reqs[i]).state == State::Held && reqs[i].path == p,
        first_held(reqs) is None ==> forall|i: int|
            0 <= i < reqs.len() ==> (#[trigger] reqs[i]).state == State::New,
    decreases reqs.len(),
{
    if reqs.len() > 0 && reqs[0].state != State::Held {
        let rest = reqs.drop_first();
        lemma_first_held_is_there(rest);
        if let Some(p) = first_held(rest) {
            let i = choose|i: int|
                0 <= i < rest.len() && (#[trigger] rest[i]).state == State::Held && rest[i].path
                    == p;
            assert(reqs[i + 1] == rest[i]);
        } else {
            assert forall|i: int| 0 <= i < reqs.len() implies (#[trigger] reqs[i]).state
                == State::New by {
                if i > 0 {
                    assert(rest[i - 1] == reqs[i]);
                }
            }
        }
    }
}

/// No acquire is refused without reason: if it is not granted, one of the locks that it
/// asks for is in conflict, or lost, just as the answer says. So one with nothing in its
/// way is granted.
pub proof fn law_refusal_has_a_reason(db: DbView, now: u64, args: ArgsView)
    requires
        honest(db),
        db.dom().finite(),
        forall|i: int| 0 <= i < args.requests.len() ==> nul_free((#[trigger] args.requests[i]).path),
    ensures
        acquire_plan(db, now, args) matches Ok((outcome, _)) ==> (outcome != AcquireView::Granted
            ==> exists|i: int|
            0 <= i < args.requests.len() && #[trigger] is_reason(db, now, args, i, outcome)),
{
    let reqs = args.requests;
    assert(reqs.take(reqs.len() as int) =~= reqs);
    lemma_refused_for(db, now, args, reqs.len() as int);
    lemma_first_held_is_there(reqs);
    if let Ok((outcome, _)) = acquire_plan(db, now, args) {
        if first_held(reqs) is Some && is_alive(db, now, args.owner) == Ok::<bool, ErrorView>(
            false,
        ) {
            let i = choose|i: int|
                0 <= i < reqs.len() && (#[trigger] reqs[i]).state == State::Held && reqs[i].path
                    == first_held(reqs)->0;
            assert(is_reason(db, now, args, i, outcome));
        }
    }
}

/// Who is granted is entitled: the token is not below the fence of any path to write, and every lock
/// that was said to be held is held, by an owner whose lease is live.
pub proof fn law_granted_is_entitled(db: DbView, now: u64, args: ArgsView, i: int)
    requires
        acquire_plan(db, now, args) matches Ok((AcquireView::Granted, _)),
        0 <= i < args.requests.len(),
    ensures
        args.requests[i].mode == Mode::Write ==> (fence_of(
            db,
            now,
            args.requests[i].path,
        ) matches Ok(f) && (f matches Some(n) ==> n <= args.token)),
        args.requests[i].state == State::Held ==> holding(
            db,
            now,
            args.requests[i].mode,
            args.requests[i].path,
            args.owner,
        ) && is_alive(db, now, args.owner) == Ok::<bool, ErrorView>(true),
{
    lemma_check_never_grants(db, now, args.owner, args.token, args.requests);
    crate::engine::laws::lemma_check_parts(db, now, args.owner, args.token, args.requests, i);
    lemma_first_held_is_there(args.requests);
}

/// The first refusal decides: what refuses the first requests of an acquire refuses all of
/// it, with the same answer, whatever comes behind them.
pub proof fn law_first_refusal_decides(db: DbView, now: u64, args: ArgsView, n: int)
    requires
        0 <= n <= args.requests.len(),
        is_alive(db, now, args.owner) == Ok::<bool, ErrorView>(true),
    ensures
        acquire_plan(
            db,
            now,
            (ArgsView { requests: args.requests.take(n), ..args }),
        ) matches Ok((outcome, _)) ==> (outcome != AcquireView::Granted ==> (acquire_plan(
            db,
            now,
            args,
        ) matches Ok((same, _)) && same == outcome)),
{
    lemma_check_never_grants(db, now, args.owner, args.token, args.requests.take(n));
    lemma_check_goes_on(db, now, args, n);
}

pub proof fn lemma_check_goes_on(db: DbView, now: u64, args: ArgsView, n: int)
    requires
        0 <= n <= args.requests.len(),
    ensures
        check_requests(db, now, args.owner, args.token, args.requests.take(n)) matches Ok(Err(r))
            ==> check_requests(db, now, args.owner, args.token, args.requests) == Ok::<
            Result<Seq<crate::engine::steps::StepView>, AcquireView>,
            ErrorView,
        >(Err(r)),
    decreases args.requests.len() - n,
{
    if n == args.requests.len() {
        assert(args.requests.take(n) =~= args.requests);
    } else {
        assert(args.requests.take(n + 1).drop_last() =~= args.requests.take(n));
        lemma_check_goes_on(db, now, args, n + 1);
    }
}

// ---------------------------------------------------------------------------
// A conflict can be asked about
// ---------------------------------------------------------------------------

/// A conflict can be asked about: whoever an acquire names in a conflict is blocking, on
/// the path and for the reason that were named.
pub proof fn law_conflict_is_blocking(
    db: DbView,
    now: u64,
    args: ArgsView,
    path: Seq<char>,
    owner: Seq<char>,
    reason: Seq<char>,
)
    requires
        honest(db),
        db.dom().finite(),
        forall|i: int| 0 <= i < args.requests.len() ==> nul_free((#[trigger] args.requests[i]).path),
        acquire_plan(db, now, args) matches Ok((outcome, _)) && outcome == (AcquireView::Conflict {
            path,
            owner,
            reason,
        }),
        owner != Seq::<char>::empty(),
    ensures
        blocking(db, now, path, owner, reason) == Ok::<bool, ErrorView>(true),
{
    law_refusal_has_a_reason(db, now, args);
    let outcome = acquire_plan(db, now, args)->Ok_0.0;
    let i = choose|i: int|
        0 <= i < args.requests.len() && #[trigger] is_reason(db, now, args, i, outcome);
    let req = args.requests[i];
    let why = choose|why: Reason| #[trigger]
        reason_text(why) == reason && explained(
            db,
            now,
            req.path,
            req.mode,
            (BlockerView { path, owner, reason: why }),
        );
    reveal_strlit("read_locked");
    reveal_strlit("descendant_read_locked");
    reveal_strlit("preempt_claimed");
    reveal_strlit("write_locked");
    reveal_strlit("ancestor_locked");
    reveal_strlit("descendant_write_locked");
    assert("write_locked"@.len() != "read_locked"@.len());
    assert("ancestor_locked"@[0] != "preempt_claimed"@[0]);
    assert("descendant_write_locked"@.len() != "descendant_read_locked"@.len());
}

} // verus!
