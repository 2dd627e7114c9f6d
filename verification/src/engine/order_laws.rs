//! What decides first: in which order an acquire looks at its requests and at what stands in
//! their way, and what becomes of its own claims.

use vstd::prelude::*;
use crate::db::{applied, DbView};
use crate::engine::conflict::{
    both, claims_on, clearing, first_live, inside, is_alive, lock_of, on_indexed, on_paths,
    overlapping, readers_below, readers_on, readers_under, BlockerView, Found,
};
use crate::engine::effect_laws::{leaves, lemma_steps_agree, touches};
use crate::engine::index_laws::honest;
use crate::engine::laws::{
    holding, lemma_check_only_drops, lemma_check_parts, lemma_search_finds, sound,
};
use crate::engine::lease_laws::lemma_nobody_live;
use crate::engine::ops::{
    acquire_plan, alive_steps, check_request, check_requests, fence_of, first_held, grants,
    release_steps,
};
use crate::engine::outcome_laws::lemma_check_never_grants;
use crate::engine::path::{ancestors, conflicting, law_nearest_comes_first, lemma_ancestors_shorter};
use crate::engine::record_laws::lemma_grants_are;
use crate::engine::refusal_laws::{
    claimed_by, explained, lemma_check_goes_on, lemma_found_explained,
};
use crate::engine::steps::StepView;
use crate::engine::tenure_laws::lemma_release_gives_up;
use crate::engine::types::{reason_text, AcquireView, ArgsView, Mode, Reason, ReqView, State};
use crate::raft::command::{OpKind, ResponseView};
use crate::raft::state_machine::{command_effect, lemma_effect};
use crate::store_keys::{nul_free, Cf};
use crate::store_rocksdb::{read_members, ErrorView};
use crate::text::utf8;

verus! {

// ---------------------------------------------------------------------------
// One request after the other
// ---------------------------------------------------------------------------

/// The outcome of an acquire.
pub open spec fn outcome_of(db: DbView, now: u64, args: ArgsView) -> Option<AcquireView> {
    match acquire_plan(db, now, args) {
        Ok((outcome, _)) => Some(outcome),
        Err(_) => None,
    }
}

/// An acquire that asks only for the lock at position `i`.
pub open spec fn alone(args: ArgsView, i: int) -> ArgsView {
    ArgsView { requests: seq![args.requests[i]], ..args }
}

proof fn lemma_one_check(db: DbView, now: u64, o: Seq<char>, token: i64, req: ReqView)
    ensures
        check_requests(db, now, o, token, seq![req]) == (match check_request(
            db,
            now,
            o,
            token,
            req,
        ) {
            Err(e) => Err(e),
            Ok(Err(refusal)) => Ok(Err(refusal)),
            Ok(Ok(steps)) => Ok::<Result<Seq<StepView>, AcquireView>, ErrorView>(Ok(steps)),
        }),
{
    let reqs = seq![req];
    assert(reqs.drop_last() =~= Seq::<ReqView>::empty());
    reveal_with_fuel(check_requests, 2);
    assert(forall|s: Seq<StepView>| Seq::<StepView>::empty() + s =~= s);
}

proof fn lemma_none_held(reqs: Seq<ReqView>)
    requires
        forall|j: int| 0 <= j < reqs.len() ==> (#[trigger] reqs[j]).state == State::New,
    ensures
        first_held(reqs) is None,
    decreases reqs.len(),
{
    if reqs.len() > 0 {
        assert(reqs[0].state == State::New);
        let rest = reqs.drop_first();
        assert forall|j: int| 0 <= j < rest.len() implies (#[trigger] rest[j]).state
            == State::New by {
            assert(rest[j] == reqs[j + 1]);
        }
        lemma_none_held(rest);
    }
}

proof fn lemma_all_pass(db: DbView, now: u64, args: ArgsView, n: int)
    requires
        0 <= n <= args.requests.len(),
        forall|j: int|
            0 <= j < n ==> (check_request(
                db,
                now,
                args.owner,
                args.token,
                #[trigger] args.requests[j],
            ) matches Ok(Ok(_))),
    ensures
        check_requests(db, now, args.owner, args.token, args.requests.take(n)) matches Ok(Ok(_)),
    decreases n,
{
    if n > 0 {
        lemma_all_pass(db, now, args, n - 1);
        assert(args.requests.take(n).drop_last() =~= args.requests.take(n - 1));
        assert(args.requests.take(n).last() == args.requests[n - 1]);
    }
}

/// Requests are looked at one after the other, each as if it were alone: the first that would
/// be refused alone decides, with the answer that it would get alone; if there is none, the
/// acquire is granted.
pub proof fn law_requests_are_taken_in_order(db: DbView, now: u64, args: ArgsView, i: int)
    requires
        is_alive(db, now, args.owner) == Ok::<bool, ErrorView>(true) || forall|j: int|
            0 <= j < args.requests.len() ==> (#[trigger] args.requests[j]).state == State::New,
        0 <= i <= args.requests.len(),
        forall|j: int|
            0 <= j < i ==> outcome_of(db, now, #[trigger] alone(args, j)) == Some(
                AcquireView::Granted,
            ),
    ensures
        i < args.requests.len() && (outcome_of(db, now, alone(args, i)) matches Some(o) && o
            != AcquireView::Granted) ==> outcome_of(db, now, args) == outcome_of(
            db,
            now,
            alone(args, i),
        ),
        0 < i == args.requests.len() ==> outcome_of(db, now, args) == Some(AcquireView::Granted),
{
    let o = args.owner;
    if forall|j: int| 0 <= j < args.requests.len() ==> (#[trigger] args.requests[j]).state == State::New {
        lemma_none_held(args.requests);
    }
    assert forall|j: int| 0 <= j < i implies (check_request(
        db,
        now,
        o,
        args.token,
        #[trigger] args.requests[j],
    ) matches Ok(Ok(_))) by {
        assert(outcome_of(db, now, alone(args, j)) == Some(AcquireView::Granted));
        lemma_one_check(db, now, o, args.token, args.requests[j]);
        lemma_check_never_grants(db, now, o, args.token, seq![args.requests[j]]);
    }
    lemma_all_pass(db, now, args, i);
    if i < args.requests.len() {
        let req = args.requests[i];
        if req.state == State::New {
            lemma_none_held(seq![req]);
        }
        lemma_one_check(db, now, o, args.token, req);
        assert(args.requests.take(i + 1).drop_last() =~= args.requests.take(i));
        assert(args.requests.take(i + 1).last() == req);
        lemma_check_goes_on(db, now, args, i + 1);
    } else if i > 0 {
        assert(args.requests.take(i) =~= args.requests);
        assert(outcome_of(db, now, alone(args, 0)) == Some(AcquireView::Granted));
        lemma_one_check(db, now, o, args.token, args.requests[0]);
    }
}

/// A lost lease is told before anything else: an acquire by an owner whose lease is over is
/// lost if it says that a lock is held, on the path of the first such lock.
pub proof fn law_lost_lease_is_told_first(db: DbView, now: u64, args: ArgsView, i: int)
    requires
        0 <= i < args.requests.len(),
        args.requests[i].state == State::Held,
        forall|j: int| 0 <= j < i ==> (#[trigger] args.requests[j]).state == State::New,
        is_alive(db, now, args.owner) == Ok::<bool, ErrorView>(false),
    ensures
        outcome_of(db, now, args) == Some(
            AcquireView::Lost { path: args.requests[i].path, reason: "owner_expired"@ },
        ),
{
    lemma_first_held_at(args.requests, i);
}

proof fn lemma_first_held_at(reqs: Seq<ReqView>, i: int)
    requires
        0 <= i < reqs.len(),
        reqs[i].state == State::Held,
        forall|j: int| 0 <= j < i ==> (#[trigger] reqs[j]).state == State::New,
    ensures
        first_held(reqs) == Some(reqs[i].path),
    decreases reqs.len(),
{
    if i > 0 {
        assert(reqs[0].state == State::New);
        let rest = reqs.drop_first();
        assert forall|j: int| 0 <= j < i - 1 implies (#[trigger] rest[j]).state == State::New by {
            assert(rest[j] == reqs[j + 1]);
        }
        assert(rest[i - 1] == reqs[i]);
        lemma_first_held_at(rest, i - 1);
    }
}

/// A stale token is told before what stands in the way: whoever asks for a write lock with a
/// token below the fence of the path is told so, and of nobody else.
pub proof fn law_stale_token_is_told_first(db: DbView, now: u64, args: ArgsView, req: ReqView, f: i64)
    requires
        args.requests == seq![req],
        req.mode == Mode::Write,
        req.state == State::New || is_alive(db, now, args.owner) == Ok::<bool, ErrorView>(true),
        fence_of(db, now, req.path) == Ok::<Option<i64>, ErrorView>(Some(f)),
        args.token < f,
    ensures
        outcome_of(db, now, args) == Some(
            AcquireView::Conflict {
                path: req.path,
                owner: Seq::<char>::empty(),
                reason: "stale_fencing_token"@,
            },
        ),
{
    lemma_one_check(db, now, args.owner, args.token, req);
    if req.state == State::New {
        lemma_none_held(seq![req]);
    }
}

// ---------------------------------------------------------------------------
// What stands in the way
// ---------------------------------------------------------------------------

/// The place of a reason among those for which a lock is refused to an owner.
pub open spec fn rank(reason: Reason) -> int {
    match reason {
        Reason::AncestorLocked => 0,
        Reason::WriteLocked => 1,
        Reason::ReadLocked => 2,
        Reason::DescendantWriteLocked => 3,
        Reason::DescendantReadLocked => 4,
        _ => 5,
    }
}

/// The place of a reason that an answer names.
pub open spec fn told_rank(reason: Seq<char>) -> int {
    if reason == "ancestor_locked"@ {
        0
    } else if reason == "write_locked"@ {
        1
    } else if reason == "read_locked"@ {
        2
    } else if reason == "descendant_write_locked"@ {
        3
    } else if reason == "descendant_read_locked"@ {
        4
    } else {
        5
    }
}

/// The place of a lock of mode `n` on `q` among those that stand in the way of one on `p`:
/// write locks above it, the write lock on it, read locks on it, write locks below it, read
/// locks below it.
pub open spec fn standing(p: Seq<char>, q: Seq<char>, n: Mode) -> int {
    if p == q {
        if n == Mode::Write {
            1
        } else {
            2
        }
    } else if q.len() < p.len() {
        0
    } else if n == Mode::Write {
        3
    } else {
        4
    }
}

spec fn in_ranks(found: Found, lo: int, hi: int) -> bool {
    found matches Ok(bs) ==> {
        &&& forall|i: int| 0 <= i < bs.len() ==> lo <= rank((#[trigger] bs[i]).reason) <= hi
        &&& forall|i: int, j: int|
            0 <= i < j < bs.len() ==> rank((#[trigger] bs[i]).reason) <= rank(
                (#[trigger] bs[j]).reason,
            )
    }
}

proof fn lemma_both_ranked(a: Found, b: Found, lo: int, mid: int, hi: int)
    requires
        in_ranks(a, lo, mid),
        in_ranks(b, mid, hi),
        lo <= mid <= hi,
    ensures
        in_ranks(both(a, b), lo, hi),
{
    if let Ok(bs) = both(a, b) {
        let (x, y) = (a->Ok_0, b->Ok_0);
        assert forall|i: int| 0 <= i < bs.len() implies lo <= rank((#[trigger] bs[i]).reason)
            <= hi by {
            if i < x.len() {
                assert(bs[i] == x[i]);
            } else {
                assert(bs[i] == y[i - x.len()]);
            }
        }
        assert forall|i: int, j: int| 0 <= i < j < bs.len() implies rank((#[trigger] bs[i]).reason)
            <= rank((#[trigger] bs[j]).reason) by {
            if i < x.len() {
                assert(bs[i] == x[i]);
            } else {
                assert(bs[i] == y[i - x.len()]);
            }
            if j < x.len() {
                assert(bs[j] == x[j]);
            } else {
                assert(bs[j] == y[j - x.len()]);
            }
        }
    }
}

proof fn lemma_paths_ranked(db: DbView, now: u64, cf: Cf, paths: Seq<Seq<char>>, reason: Reason)
    ensures
        in_ranks(on_paths(db, now, cf, paths, reason), rank(reason), rank(reason)),
    decreases paths.len(),
{
    if paths.len() > 0 {
        lemma_paths_ranked(db, now, cf, paths.drop_last(), reason);
    }
}

proof fn lemma_below_ranked(db: DbView, now: u64, entries: Seq<Seq<char>>)
    ensures
        in_ranks(readers_below(db, now, entries), 4, 4),
    decreases entries.len(),
{
    if entries.len() > 0 {
        lemma_below_ranked(db, now, entries.drop_last());
    }
}

proof fn lemma_found_ranked(db: DbView, now: u64, p: Seq<char>, m: Mode)
    ensures
        in_ranks(overlapping(db, now, p, m), 0, 5),
        in_ranks(
            both(
                on_paths(db, now, Cf::WriteLocks, seq![p], Reason::WriteLocked),
                both(
                    match m {
                        Mode::Read => Ok(Seq::empty()),
                        Mode::Write => inside(db, now, p),
                    },
                    claims_on(db, now, p, m),
                ),
            ),
            1,
            5,
        ),
{
    let none: Found = Ok(Seq::empty());
    let above = on_paths(db, now, Cf::WriteLocks, ancestors(p), Reason::AncestorLocked);
    let here = on_paths(db, now, Cf::WriteLocks, seq![p], Reason::WriteLocked);
    lemma_paths_ranked(db, now, Cf::WriteLocks, ancestors(p), Reason::AncestorLocked);
    lemma_paths_ranked(db, now, Cf::WriteLocks, seq![p], Reason::WriteLocked);
    let under: Found = match m {
        Mode::Read => none,
        Mode::Write => inside(db, now, p),
    };
    if m == Mode::Write {
        let writers = on_indexed(
            db,
            now,
            Cf::DescWrite,
            p,
            Cf::WriteLocks,
            Reason::DescendantWriteLocked,
        );
        if let Ok(paths) = read_members(db, now, Cf::DescWrite, utf8(p), 65_536) {
            lemma_paths_ranked(db, now, Cf::WriteLocks, paths, Reason::DescendantWriteLocked);
        }
        if let Ok(entries) = read_members(db, now, Cf::DescRead, utf8(p), 65_536) {
            lemma_below_ranked(db, now, entries);
        }
        lemma_both_ranked(writers, readers_under(db, now, p), 3, 3, 4);
        lemma_both_ranked(readers_on(db, now, p), both(writers, readers_under(db, now, p)), 2, 2, 4);
    }
    assert(in_ranks(under, 1, 4));
    let claims = claims_on(db, now, p, m);
    let on = on_paths(db, now, Cf::Claims, seq![p], Reason::PreemptClaimed);
    let up = on_paths(db, now, Cf::Claims, ancestors(p), Reason::PreemptClaimedAbove);
    let down: Found = match m {
        Mode::Read => none,
        Mode::Write => on_indexed(db, now, Cf::DescClaim, p, Cf::Claims, Reason::PreemptClaimed),
    };
    lemma_paths_ranked(db, now, Cf::Claims, seq![p], Reason::PreemptClaimed);
    lemma_paths_ranked(db, now, Cf::Claims, ancestors(p), Reason::PreemptClaimedAbove);
    if let Ok(paths) = read_members(db, now, Cf::DescClaim, utf8(p), 65_536) {
        lemma_paths_ranked(db, now, Cf::Claims, paths, Reason::PreemptClaimed);
    }
    lemma_both_ranked(up, down, 5, 5, 5);
    lemma_both_ranked(on, both(up, down), 5, 5, 5);
    assert(claims == both(on, both(up, down)));
    lemma_both_ranked(under, claims, 1, 4, 5);
    lemma_both_ranked(here, both(under, claims), 1, 1, 5);
    lemma_both_ranked(above, both(here, both(under, claims)), 0, 0, 5);
}

/// Whoever is found first and lives comes before everybody else who is found and lives.
proof fn lemma_first_live_at(
    db: DbView,
    now: u64,
    o: Seq<char>,
    found: Seq<BlockerView>,
) -> (k: int)
    requires
        first_live(db, now, o, found) matches Ok(Some(_)),
    ensures
        0 <= k < found.len(),
        first_live(db, now, o, found) == Ok::<Option<BlockerView>, ErrorView>(Some(found[k])),
        found[k].owner != o,
        is_alive(db, now, found[k].owner) == Ok::<bool, ErrorView>(true),
        forall|j: int|
            0 <= j < k ==> (#[trigger] found[j]).owner == o || is_alive(db, now, found[j].owner)
                == Ok::<bool, ErrorView>(false),
    decreases found.len(),
{
    if found[0].owner != o && is_alive(db, now, found[0].owner) == Ok::<bool, ErrorView>(true) {
        0
    } else {
        let rest = found.drop_first();
        let k = lemma_first_live_at(db, now, o, rest);
        assert forall|j: int| 0 <= j < k + 1 implies (#[trigger] found[j]).owner == o || is_alive(
            db,
            now,
            found[j].owner,
        ) == Ok::<bool, ErrorView>(false) by {
            if j > 0 {
                assert(rest[j - 1] == found[j]);
            }
        }
        k + 1
    }
}

proof fn lemma_reason_texts()
    ensures
        forall|r: Reason|
            rank(r) < 5 ==> #[trigger] told_rank(reason_text(r)) == rank(r),
        told_rank("preempt_claimed"@) == 5,
        forall|r: Reason| #[trigger] rank(r) < 5 ==> reason_text(r) != "stale_fencing_token"@,
{
    reveal_strlit("ancestor_locked");
    reveal_strlit("write_locked");
    reveal_strlit("read_locked");
    reveal_strlit("descendant_write_locked");
    reveal_strlit("descendant_read_locked");
    reveal_strlit("preempt_claimed");
    reveal_strlit("stale_fencing_token");
    assert("ancestor_locked"@[0] != "write_locked"@[0]);
    assert("ancestor_locked"@.len() == 15);
    assert("write_locked"@.len() == 12);
    assert("read_locked"@.len() == 11);
    assert("descendant_write_locked"@.len() == 23);
    assert("descendant_read_locked"@.len() == 22);
    assert("preempt_claimed"@.len() == 15);
    assert("preempt_claimed"@[0] == 'p');
    assert("ancestor_locked"@[0] == 'a');
    assert("stale_fencing_token"@.len() == 19);
}

proof fn lemma_paths_nearest(
    db: DbView,
    now: u64,
    cf: Cf,
    paths: Seq<Seq<char>>,
    reason: Reason,
)
    requires
        forall|i: int, j: int|
            0 <= i < j < paths.len() ==> (#[trigger] paths[i]).len() > (#[trigger] paths[j]).len(),
    ensures
        on_paths(db, now, cf, paths, reason) matches Ok(bs) ==> {
            &&& forall|i: int| 0 <= i < bs.len() ==> paths.contains((#[trigger] bs[i]).path)
            &&& forall|i: int, j: int|
                0 <= i < j < bs.len() ==> (#[trigger] bs[i]).path.len() > (
                #[trigger] bs[j]).path.len()
        },
    decreases paths.len(),
{
    if paths.len() > 0 {
        let front = paths.drop_last();
        assert forall|i: int, j: int| 0 <= i < j < front.len() implies (#[trigger] front[i]).len()
            > (#[trigger] front[j]).len() by {
            assert(front[i] == paths[i] && front[j] == paths[j]);
        }
        lemma_paths_nearest(db, now, cf, front, reason);
        if let Ok(bs) = on_paths(db, now, cf, paths, reason) {
            let rest = on_paths(db, now, cf, front, reason)->Ok_0;
            assert forall|i: int| 0 <= i < rest.len() implies paths.contains(
                (#[trigger] rest[i]).path,
            ) && rest[i].path.len() > paths.last().len() by {
                let k = front.index_of(rest[i].path);
                assert(paths[k] == rest[i].path);
                assert(paths[paths.len() - 1] == paths.last());
            }
            assert(paths.contains(paths.last())) by {
                assert(paths[paths.len() - 1] == paths.last());
            }
            assert forall|i: int| 0 <= i < bs.len() implies paths.contains(
                (#[trigger] bs[i]).path,
            ) by {
                if i < rest.len() {
                    assert(bs[i] == rest[i]);
                }
            }
            assert forall|i: int, j: int| 0 <= i < j < bs.len() implies (
            #[trigger] bs[i]).path.len() > (#[trigger] bs[j]).path.len() by {
                assert(bs[i] == rest[i]);
                if j < rest.len() {
                    assert(bs[j] == rest[j]);
                }
            }
        }
    }
}

/// Of the write locks above a path those nearer to it are found earlier.
proof fn lemma_nearest_found(db: DbView, now: u64, p: Seq<char>, m: Mode, k: int, j: int)
    requires
        overlapping(db, now, p, m) is Ok,
        0 <= k <= j < overlapping(db, now, p, m)->Ok_0.len(),
        overlapping(db, now, p, m)->Ok_0[k].reason == Reason::AncestorLocked,
        overlapping(db, now, p, m)->Ok_0[j].reason == Reason::AncestorLocked,
    ensures
        overlapping(db, now, p, m)->Ok_0[j].path.len() <= overlapping(
            db,
            now,
            p,
            m,
        )->Ok_0[k].path.len(),
{
    let found = overlapping(db, now, p, m)->Ok_0;
    let above = on_paths(db, now, Cf::WriteLocks, ancestors(p), Reason::AncestorLocked);
    law_nearest_comes_first(p);
    lemma_paths_nearest(db, now, Cf::WriteLocks, ancestors(p), Reason::AncestorLocked);
    lemma_rest_ranked(db, now, p, m);
    let x = above->Ok_0;
    assert(found.take(x.len() as int) =~= x);
    if j >= x.len() {
        assert(found.skip(x.len() as int)[j - x.len()] == found[j]);
    }
    assert(found[j] == x[j] && found[k] == x[k]);
}

/// Behind the write locks above a path nothing else is found above it.
proof fn lemma_rest_ranked(db: DbView, now: u64, p: Seq<char>, m: Mode)
    requires
        overlapping(db, now, p, m) is Ok,
    ensures
        ({
            let found = overlapping(db, now, p, m)->Ok_0;
            let above = on_paths(db, now, Cf::WriteLocks, ancestors(p), Reason::AncestorLocked);
            &&& above is Ok
            &&& above->Ok_0.len() <= found.len()
            &&& found.take(above->Ok_0.len() as int) == above->Ok_0
            &&& forall|i: int|
                0 <= i < found.len() - above->Ok_0.len() ==> rank(
                    (#[trigger] found.skip(above->Ok_0.len() as int)[i]).reason,
                ) >= 1
        }),
{
    lemma_found_ranked(db, now, p, m);
    let found = overlapping(db, now, p, m)->Ok_0;
    let above = on_paths(db, now, Cf::WriteLocks, ancestors(p), Reason::AncestorLocked);
    let rest = both(
        on_paths(db, now, Cf::WriteLocks, seq![p], Reason::WriteLocked),
        both(
            match m {
                Mode::Read => Ok(Seq::empty()),
                Mode::Write => inside(db, now, p),
            },
            claims_on(db, now, p, m),
        ),
    );
    let (x, y) = (above->Ok_0, rest->Ok_0);
    assert(found == x + y);
    assert(found.take(x.len() as int) =~= x);
    assert(found.skip(x.len() as int) =~= y);
}

/// What stands in the way of a lock is told in order: write locks above the path, the write
/// lock on it, read locks on it, write locks below it, read locks below it, and claims last.
/// Of write locks above the path the nearest is told. So, while a live other owner has a lock
/// in the way, no conflict is told that comes behind it.
pub proof fn law_conflicts_are_told_in_order(
    db: DbView,
    now: u64,
    args: ArgsView,
    req: ReqView,
    n: Mode,
    q: Seq<char>,
    y: Seq<char>,
)
    requires
        sound(db, now),
        honest(db),
        nul_free(args.owner),
        nul_free(req.path),
        nul_free(q),
        nul_free(y),
        args.requests == seq![req],
        req.state == State::New,
        y != args.owner,
        is_alive(db, now, y) == Ok::<bool, ErrorView>(true),
        holding(db, now, n, q, y),
        conflicting(req.path, req.mode, q, n),
        outcome_of(db, now, args) is Some,
    ensures
        outcome_of(db, now, args) matches Some(AcquireView::Conflict { path, owner, reason }) && (
        reason == "stale_fencing_token"@ || {
            &&& told_rank(reason) <= standing(req.path, q, n)
            &&& reason == "ancestor_locked"@ && standing(req.path, q, n) == 0 ==> q.len()
                <= path.len()
        }),
{
    let p = req.path;
    let o = args.owner;
    lemma_one_check(db, now, o, args.token, req);
    lemma_none_held(seq![req]);
    lemma_reason_texts();
    lemma_ancestors_shorter(p);
    lemma_ancestors_shorter(q);
    if let Ok(found) = overlapping(db, now, p, req.mode) {
        lemma_search_finds(db, now, p, req.mode, n, q, y);
        lemma_found_explained(db, now, p, req.mode);
        lemma_found_ranked(db, now, p, req.mode);
        let j = choose|j: int|
            0 <= j < found.len() && (#[trigger] found[j]).path == q && found[j].owner == y
                && lock_of(found[j].reason) == Some(n);
        assert(explained(db, now, p, req.mode, found[j]));
        assert(rank(found[j].reason) == standing(p, q, n));
        if first_live(db, now, o, found) is Ok {
            if first_live(db, now, o, found) == Ok::<Option<BlockerView>, ErrorView>(None) {
                lemma_nobody_live(db, now, o, found, j);
            }
            let k = lemma_first_live_at(db, now, o, found);
            assert(k <= j);
            assert(rank(found[k].reason) <= rank(found[j].reason));
            assert(explained(db, now, p, req.mode, found[k]));
            if found[k].reason == Reason::AncestorLocked && found[j].reason
                == Reason::AncestorLocked {
                lemma_nearest_found(db, now, p, req.mode, k, j);
            }
        }
    }
}

// ---------------------------------------------------------------------------
// Claims that are used up
// ---------------------------------------------------------------------------

proof fn lemma_own_claim_cleared(o: Seq<char>, found: Seq<BlockerView>, i: int)
    requires
        0 <= i < found.len(),
        found[i].owner == o,
        found[i].reason == Reason::PreemptClaimed,
    ensures
        clearing(o, found).contains(StepView::DropClaim { path: found[i].path }),
    decreases found.len(),
{
    let front = found.drop_last();
    let d = StepView::DropClaim { path: found[i].path };
    let (rest, all) = (clearing(o, front), clearing(o, found));
    if i < front.len() {
        assert(front[i] == found[i]);
        lemma_own_claim_cleared(o, front, i);
        let k = rest.index_of(d);
        assert(all[k] == d);
    } else {
        assert(all[all.len() - 1] == d);
    }
}

/// The claim on a path is found.
proof fn lemma_claim_found(db: DbView, now: u64, p: Seq<char>, m: Mode, c: Seq<char>)
    requires
        claimed_by(db, now, p, c),
        overlapping(db, now, p, m) is Ok,
    ensures
        exists|i: int|
            0 <= i < overlapping(db, now, p, m)->Ok_0.len() && #[trigger] overlapping(
                db,
                now,
                p,
                m,
            )->Ok_0[i] == (BlockerView { path: p, owner: c, reason: Reason::PreemptClaimed }),
{
    let b = BlockerView { path: p, owner: c, reason: Reason::PreemptClaimed };
    let found = overlapping(db, now, p, m)->Ok_0;
    let one = seq![p];
    assert(one.drop_last() =~= Seq::<Seq<char>>::empty());
    reveal_with_fuel(on_paths, 2);
    let on = on_paths(db, now, Cf::Claims, one, Reason::PreemptClaimed);
    assert(on == Ok::<Seq<BlockerView>, ErrorView>(Seq::<BlockerView>::empty().push(b)));
    let claims = claims_on(db, now, p, m)->Ok_0;
    assert(claims[0] == b);
    let k = found.len() - claims.len();
    assert(found[k] == b);
}

/// A claim is used up: whoever is granted a new lock on a path that it has claimed has no claim
/// there any more.
pub proof fn law_claim_is_used_up(db: DbView, now: u64, args: ArgsView, i: int)
    requires
        command_effect(db, now, OpKind::Acquire(args)) matches Ok((response, _)) && response
            == ResponseView::Acquire(AcquireView::Granted),
        0 <= i < args.requests.len(),
        args.requests[i].state == State::New,
        claimed_by(db, now, args.requests[i].path, args.owner),
    ensures
        !applied(db, command_effect(db, now, OpKind::Acquire(args))->Ok_0.1).dom().contains(
            (Cf::Claims, utf8(args.requests[i].path)),
        ),
{
    let o = args.owner;
    let op = OpKind::Acquire(args);
    let req = args.requests[i];
    let place = (Cf::Claims, utf8(req.path));
    lemma_effect(db, now, op);
    lemma_check_never_grants(db, now, o, args.token, args.requests);
    lemma_check_parts(db, now, o, args.token, args.requests, i);
    lemma_check_only_drops(db, now, o, args.token, args.requests);
    let clear = check_requests(db, now, o, args.token, args.requests)->Ok_0->Ok_0;
    let alive = alive_steps(o, args.ttl, args.requests);
    let released = release_steps(db, now, o, args.releases)->Ok_0;
    let granted = grants(o, args.ttl, args.token, args.requests);
    let steps = clear + alive + released + granted;
    let own = check_request(db, now, o, args.token, req)->Ok_0->Ok_0;
    let found = overlapping(db, now, req.path, req.mode)->Ok_0;
    let d = StepView::DropClaim { path: req.path };
    assert(own == clearing(o, found));
    lemma_claim_found(db, now, req.path, req.mode, o);
    let n = choose|n: int|
        0 <= n < found.len() && #[trigger] found[n] == (BlockerView {
            path: req.path,
            owner: o,
            reason: Reason::PreemptClaimed,
        });
    lemma_own_claim_cleared(o, found, n);
    let a = own.index_of(d);
    assert(clear.contains(own[a]));
    let k = clear.index_of(d);
    assert(steps[k] == d);
    assert(touches(d, place));
    assert forall|j: int| 0 <= j < steps.len() && touches(#[trigger] steps[j], place) implies leaves(
        now,
        steps[j],
        place,
    ) == None::<(Seq<char>, u64)> by {
        let before = clear + alive + released;
        if j < clear.len() {
            assert(steps[j] == clear[j]);
        } else if j < clear.len() + alive.len() {
            assert(steps[j] == alive[j - clear.len()]);
        } else if j < before.len() {
            assert(steps[j] == released[j - clear.len() - alive.len()]);
            lemma_release_gives_up(
                db,
                now,
                o,
                args.releases,
                j - clear.len() - alive.len(),
            );
        } else {
            assert(steps[j] == granted[j - before.len()]);
            lemma_grants_are(o, args.ttl, args.token, args.requests, j - before.len());
        }
    }
    lemma_steps_agree(db, now, steps, place, None, k);
}

} // verus!
