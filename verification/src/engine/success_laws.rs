//! When an operation succeeds: a store whose rows all hold records answers every command
//! and every question.

use vstd::prelude::*;
use crate::db::{applied, lemma_applied_concat, DbView, OpView};
use crate::engine::conflict::{
    first_live, inside, is_alive, on_indexed, on_paths, overlapping, readers_below, readers_under,
    BlockerView,
};
use crate::engine::dump::{dump_page, entries_of, lock_entries, owner_entries, owner_of, page_size};
use crate::engine::edge::{edge_text, law_edge_reads_back};
use crate::engine::effect_laws::{lemma_step_at, touches};
use crate::engine::laws::lemma_check_only_drops;
use crate::engine::ops::{
    acquire_plan, alive_steps, all_holdings, check_request, check_requests, claim_ttl, fence_of,
    grant, grants, holdings, keep_fence, release_all_plan, release_plan, release_steps, renew_plan,
    renew_steps,
};
use crate::engine::path::ancestors;
use crate::engine::places::lemma_single;
use crate::engine::query::{
    awaited, blocking, fencing_check, only_live, owner_locks, path_info, walk,
};
use crate::engine::steps::{step_ops, steps_ops, StepView};
use crate::engine::types::{AcquireView, ArgsView, MetaView, Mode, Reason, RelView, ReqView};
use crate::raft::command::OpKind;
use crate::raft::state_machine::{
    command_effect, command_writes, fence_counter, fence_counter_key, last_applied,
    last_applied_key, lemma_effect, next_token, put_counter, sweep_writes, swept_rows,
};
use crate::store_keys::Cf;
use crate::store_laws::lemma_sweep_writes;
use crate::store_rocksdb::{
    first_keys, keys_after, live_texts, member_rows, read_members, read_text, RecordView,
};
use crate::text::{decimal_int, lemma_parse_decimal_int, utf8};

verus! {

/// Whether every row holds a record.
pub open spec fn decodes(db: DbView) -> bool {
    forall|place: (Cf, Seq<u8>)| #[trigger] db.dom().contains(place) ==> db[place] is Some
}

/// Whether a text is a wait-for edge.
pub open spec fn is_edge(t: Seq<char>) -> bool {
    exists|o: Seq<char>, m: Option<MetaView>|
        o.len() <= u64::MAX && (m matches Some(d) ==> d.path.len() <= u64::MAX)
            && t == #[trigger] edge_text(o, m)
}

/// Whether a text is the numeral of a token.
pub open spec fn is_token(t: Seq<char>) -> bool {
    exists|n: i64| t == #[trigger] decimal_int(n as int)
}

/// Whether every row holds a record, every fence a token and every wait-for edge an edge.
pub open spec fn readable(db: DbView) -> bool {
    &&& decodes(db)
    &&& forall|place: (Cf, Seq<u8>)| #[trigger]
        db.dom().contains(place) ==> (db[place] matches Some(RecordView::Str { v, .. }) ==> {
            &&& place.0 == Cf::Fences ==> is_token(v)
            &&& place.0 == Cf::WaitEdges ==> is_edge(v)
        })
}

/// Whether no set has more rows than can be listed.
pub open spec fn fits(db: DbView) -> bool {
    forall|cf: Cf, key: Seq<u8>| (#[trigger] member_rows(db, cf, key)).len() <= 65_536
}

/// A set has no more live texts than rows.
pub proof fn lemma_live_texts_len(db: DbView, now: u64, cf: Cf, ks: Seq<Seq<u8>>)
    ensures
        live_texts(db, now, cf, ks).len() <= ks.len(),
    decreases ks.len(),
{
    if ks.len() > 0 {
        lemma_live_texts_len(db, now, cf, ks.drop_last());
    }
}

proof fn lemma_members_read(db: DbView, now: u64, cf: Cf, key: Seq<u8>)
    requires
        fits(db),
    ensures
        read_members(db, now, cf, key, 65_536) is Ok,
{
    lemma_live_texts_len(db, now, cf, member_rows(db, cf, key));
}

proof fn lemma_fence_read(db: DbView, now: u64, path: Seq<char>)
    requires
        readable(db),
    ensures
        fence_of(db, now, path) is Ok,
{
    if let Ok(Some(t)) = read_text(db, now, Cf::Fences, utf8(path)) {
        let n = choose|n: i64| t == #[trigger] decimal_int(n as int);
        lemma_parse_decimal_int(n);
    }
}

proof fn lemma_on_paths_read(
    db: DbView,
    now: u64,
    cf: Cf,
    paths: Seq<Seq<char>>,
    reason: Reason,
)
    requires
        decodes(db),
    ensures
        on_paths(db, now, cf, paths, reason) is Ok,
    decreases paths.len(),
{
    if paths.len() > 0 {
        lemma_on_paths_read(db, now, cf, paths.drop_last(), reason);
    }
}

proof fn lemma_readers_below_read(db: DbView, now: u64, entries: Seq<Seq<char>>)
    requires
        decodes(db),
    ensures
        readers_below(db, now, entries) is Ok,
    decreases entries.len(),
{
    if entries.len() > 0 {
        lemma_readers_below_read(db, now, entries.drop_last());
    }
}

proof fn lemma_first_live_read(
    db: DbView,
    now: u64,
    owner: Seq<char>,
    found: Seq<BlockerView>,
)
    requires
        decodes(db),
    ensures
        first_live(db, now, owner, found) is Ok,
    decreases found.len(),
{
    if found.len() > 0 {
        lemma_first_live_read(db, now, owner, found.drop_first());
    }
}

proof fn lemma_indexed_read(
    db: DbView,
    now: u64,
    index: Cf,
    path: Seq<char>,
    cf: Cf,
    reason: Reason,
)
    requires
        decodes(db),
        fits(db),
    ensures
        on_indexed(db, now, index, path, cf, reason) is Ok,
{
    lemma_members_read(db, now, index, utf8(path));
    lemma_on_paths_read(db, now, cf, read_members(db, now, index, utf8(path), 65_536)->Ok_0, reason);
}

proof fn lemma_overlapping_read(db: DbView, now: u64, path: Seq<char>, mode: Mode)
    requires
        decodes(db),
        fits(db),
    ensures
        overlapping(db, now, path, mode) is Ok,
{
    lemma_on_paths_read(db, now, Cf::WriteLocks, ancestors(path), Reason::AncestorLocked);
    lemma_on_paths_read(db, now, Cf::WriteLocks, seq![path], Reason::WriteLocked);
    lemma_on_paths_read(db, now, Cf::Claims, seq![path], Reason::PreemptClaimed);
    lemma_on_paths_read(db, now, Cf::Claims, ancestors(path), Reason::PreemptClaimedAbove);
    lemma_indexed_read(db, now, Cf::DescClaim, path, Cf::Claims, Reason::PreemptClaimed);
    lemma_indexed_read(
        db,
        now,
        Cf::DescWrite,
        path,
        Cf::WriteLocks,
        Reason::DescendantWriteLocked,
    );
    lemma_members_read(db, now, Cf::ReadLocks, utf8(path));
    lemma_members_read(db, now, Cf::DescRead, utf8(path));
    lemma_readers_below_read(
        db,
        now,
        read_members(db, now, Cf::DescRead, utf8(path), 65_536)->Ok_0,
    );
    assert(readers_under(db, now, path) is Ok);
    assert(inside(db, now, path) is Ok);
}

proof fn lemma_requests_read(
    db: DbView,
    now: u64,
    owner: Seq<char>,
    token: i64,
    reqs: Seq<ReqView>,
)
    requires
        readable(db),
        fits(db),
    ensures
        check_requests(db, now, owner, token, reqs) is Ok,
    decreases reqs.len(),
{
    if reqs.len() > 0 {
        let req = reqs.last();
        lemma_requests_read(db, now, owner, token, reqs.drop_last());
        lemma_fence_read(db, now, req.path);
        lemma_overlapping_read(db, now, req.path, req.mode);
        lemma_first_live_read(db, now, owner, overlapping(db, now, req.path, req.mode)->Ok_0);
        assert(check_request(db, now, owner, token, req) is Ok);
    }
}

proof fn lemma_releases_read(db: DbView, now: u64, owner: Seq<char>, rels: Seq<RelView>)
    requires
        decodes(db),
    ensures
        release_steps(db, now, owner, rels) is Ok,
    decreases rels.len(),
{
    if rels.len() > 0 {
        lemma_releases_read(db, now, owner, rels.drop_last());
    }
}

proof fn lemma_renewals_read(
    db: DbView,
    now: u64,
    owner: Seq<char>,
    ttl: u64,
    locks: Seq<RelView>,
)
    requires
        decodes(db),
    ensures
        renew_steps(db, now, owner, ttl, locks) is Ok,
    decreases locks.len(),
{
    if locks.len() > 0 {
        lemma_renewals_read(db, now, owner, ttl, locks.drop_last());
    }
}

/// Whether a command has to list a set.
pub open spec fn lists(op: OpKind) -> bool {
    op is Acquire || op is Renew
}

/// On a store whose rows all hold records every command succeeds. Those that give something
/// up do so however many entries the sets have; an acquire and a renewal need sets that can
/// be listed, and an acquire needs fences that are tokens.
pub proof fn law_commands_succeed(db: DbView, now: u64, op: OpKind)
    requires
        decodes(db),
        op is Acquire ==> readable(db),
        lists(op) ==> fits(db),
    ensures
        command_effect(db, now, op) is Ok,
{
    match op {
        OpKind::Acquire(args) => {
            lemma_requests_read(db, now, args.owner, args.token, args.requests);
            lemma_releases_read(db, now, args.owner, args.releases);
            assert(acquire_plan(db, now, args) is Ok);
        },
        OpKind::Release { owner, reqs, .. } => {
            lemma_releases_read(db, now, owner, reqs);
        },
        OpKind::ReleaseAll { owner, .. } => {
            lemma_releases_read(db, now, owner, all_holdings(db, now, owner));
        },
        OpKind::ForceRelease { victim } => {
            lemma_releases_read(db, now, victim, all_holdings(db, now, victim));
        },
        OpKind::Renew { owner, ttl_ms } => {
            lemma_members_read(db, now, Cf::OwnerHolds, utf8(owner));
            lemma_renewals_read(db, now, owner, ttl_ms, holdings(db, now, owner)->Ok_0);
            assert(renew_plan(db, now, owner, ttl_ms) is Ok);
        },
        _ => {},
    }
}

proof fn lemma_fencing_read(
    db: DbView,
    now: u64,
    owner: Seq<char>,
    token: i64,
    paths: Seq<Seq<char>>,
)
    requires
        readable(db),
    ensures
        fencing_check(db, now, owner, token, paths) is Ok,
    decreases paths.len(),
{
    if paths.len() > 0 {
        lemma_fence_read(db, now, paths[0]);
        lemma_fencing_read(db, now, owner, token, paths.drop_first());
    }
}

proof fn lemma_awaited_read(db: DbView, now: u64, owner: Seq<char>)
    requires
        readable(db),
    ensures
        awaited(db, now, owner) is Ok,
{
    if let Ok(Some(t)) = read_text(db, now, Cf::WaitEdges, utf8(owner)) {
        let (o, m) = choose|o: Seq<char>, m: Option<MetaView>|
            o.len() <= u64::MAX && (m matches Some(d) ==> d.path.len() <= u64::MAX) && t
                == #[trigger] edge_text(o, m);
        law_edge_reads_back(o, m);
        if let Some(d) = m {
            assert(blocking(db, now, d.path, o, d.reason) is Ok);
        }
    }
}

proof fn lemma_walk_read(db: DbView, now: u64, chain: Seq<Seq<char>>, depth: nat)
    requires
        readable(db),
    ensures
        walk(db, now, chain, depth) is Ok,
    decreases depth,
{
    if depth > 0 {
        lemma_awaited_read(db, now, chain.last());
        if let Ok(Some(next)) = awaited(db, now, chain.last()) {
            lemma_walk_read(db, now, chain.push(next), (depth - 1) as nat);
        }
    }
}

proof fn lemma_only_live_read(db: DbView, now: u64, owners: Seq<Seq<char>>)
    requires
        decodes(db),
    ensures
        only_live(db, now, owners) is Ok,
    decreases owners.len(),
{
    if owners.len() > 0 {
        lemma_only_live_read(db, now, owners.drop_last());
    }
}

proof fn lemma_lock_entries_read(db: DbView, now: u64, owner: Seq<char>, locks: Seq<RelView>)
    requires
        readable(db),
    ensures
        lock_entries(db, now, owner, locks) is Ok,
    decreases locks.len(),
{
    if locks.len() > 0 {
        lemma_lock_entries_read(db, now, owner, locks.drop_last());
        lemma_fence_read(db, now, locks.last().path);
    }
}

proof fn lemma_entries_read(db: DbView, now: u64, ks: Seq<Seq<u8>>)
    requires
        readable(db),
        fits(db),
    ensures
        entries_of(db, now, ks) is Ok,
    decreases ks.len(),
{
    if ks.len() > 0 {
        lemma_entries_read(db, now, ks.drop_last());
        if let Some(owner) = owner_of(ks.last()) {
            lemma_members_read(db, now, Cf::OwnerHolds, utf8(owner));
            if let Ok(locks) = holdings(db, now, owner) {
                lemma_lock_entries_read(db, now, owner, locks);
            }
        }
        assert(owner_entries(db, now, ks.last()) is Ok);
    }
}

/// Every page of a dump can be read of such a store, if its sets can be listed.
pub proof fn law_pages_are_read(db: DbView, now: u64, cursor: Option<Seq<u8>>, owner_page: u32)
    requires
        readable(db),
        fits(db),
    ensures
        dump_page(db, now, cursor, owner_page) is Ok,
{
    let left = keys_after(db, Cf::OwnerAlive, cursor);
    lemma_entries_read(db, now, first_keys(left, page_size(owner_page) as nat));
}

/// On a store whose rows all hold records, with tokens for fences and edges for edges, every
/// question is answered: whether locks are held under a token, whether an owner blocks, whom
/// it waits for, where a walk along the edges ends, and, where the sets can be listed, who
/// has what on a path and which locks an owner has.
pub proof fn law_questions_are_answered(
    db: DbView,
    now: u64,
    owner: Seq<char>,
    token: i64,
    paths: Seq<Seq<char>>,
    path: Seq<char>,
    reason: Seq<char>,
    depth: nat,
)
    requires
        readable(db),
    ensures
        is_alive(db, now, owner) is Ok,
        fencing_check(db, now, owner, token, paths) is Ok,
        blocking(db, now, path, owner, reason) is Ok,
        awaited(db, now, owner) is Ok,
        walk(db, now, seq![owner], depth) is Ok,
        fits(db) ==> path_info(db, now, path) is Ok && owner_locks(db, now, owner) is Ok,
{
    lemma_fencing_read(db, now, owner, token, paths);
    lemma_awaited_read(db, now, owner);
    lemma_walk_read(db, now, seq![owner], depth);
    lemma_fence_read(db, now, path);
    if fits(db) {
        lemma_members_read(db, now, Cf::ReadLocks, utf8(path));
        lemma_only_live_read(
            db,
            now,
            read_members(db, now, Cf::ReadLocks, utf8(path), 65_536)->Ok_0,
        );
        lemma_members_read(db, now, Cf::OwnerHolds, utf8(owner));
    }
}

/// Whether a step records a token as a fence, and an edge as an edge, if it records one.
spec fn proper(step: StepView) -> bool {
    match step {
        StepView::Fence { token, .. } => is_token(token),
        StepView::Wait { edge, .. } => is_edge(edge),
        _ => true,
    }
}

spec fn all_proper(steps: Seq<StepView>) -> bool {
    forall|i: int| 0 <= i < steps.len() ==> proper(#[trigger] steps[i])
}

proof fn lemma_applied_decodes(db: DbView, ops: Seq<OpView>)
    requires
        decodes(db),
    ensures
        decodes(applied(db, ops)),
    decreases ops.len(),
{
    if ops.len() > 0 {
        lemma_applied_decodes(db, ops.drop_last());
    }
}

proof fn lemma_steps_readable(db: DbView, now: u64, steps: Seq<StepView>)
    requires
        readable(db),
        all_proper(steps),
    ensures
        readable(applied(db, steps_ops(now, steps))),
    decreases steps.len(),
{
    let after = applied(db, steps_ops(now, steps));
    lemma_applied_decodes(db, steps_ops(now, steps));
    if steps.len() == 0 {
        assert(steps_ops(now, steps) =~= Seq::<OpView>::empty());
    } else {
        let front = steps.drop_last();
        let step = steps.last();
        let mid = applied(db, steps_ops(now, front));
        assert forall|i: int| 0 <= i < front.len() implies proper(#[trigger] front[i]) by {
            assert(front[i] == steps[i]);
        }
        assert(proper(steps[steps.len() - 1]));
        lemma_steps_readable(db, now, front);
        lemma_applied_concat(db, steps_ops(now, front), step_ops(now, step));
        assert forall|place: (Cf, Seq<u8>)| #[trigger] after.dom().contains(place) implies (
        after[place] matches Some(RecordView::Str { v, .. }) ==> {
            &&& place.0 == Cf::Fences ==> is_token(v)
            &&& place.0 == Cf::WaitEdges ==> is_edge(v)
        }) by {
            if place.0 == Cf::Fences || place.0 == Cf::WaitEdges {
                lemma_step_at(mid, now, step, place);
                if !touches(step, place) {
                    assert(mid.dom().contains(place));
                }
            }
        }
    }
}

proof fn lemma_releases_proper(db: DbView, now: u64, owner: Seq<char>, rels: Seq<RelView>)
    requires
        release_steps(db, now, owner, rels) is Ok,
    ensures
        all_proper(release_steps(db, now, owner, rels)->Ok_0),
    decreases rels.len(),
{
    if rels.len() > 0 {
        lemma_releases_proper(db, now, owner, rels.drop_last());
    }
}

proof fn lemma_grants_proper(owner: Seq<char>, ttl: u64, token: i64, reqs: Seq<ReqView>)
    ensures
        all_proper(grants(owner, ttl, token, reqs)),
    decreases reqs.len(),
{
    if reqs.len() > 0 {
        lemma_grants_proper(owner, ttl, token, reqs.drop_last());
        let more = grant(owner, ttl, token, reqs.last());
        assert(is_token(decimal_int(token as int)));
        assert(all_proper(more));
    }
}

proof fn lemma_renewals_proper(
    db: DbView,
    now: u64,
    owner: Seq<char>,
    ttl: u64,
    locks: Seq<RelView>,
)
    requires
        readable(db),
        renew_steps(db, now, owner, ttl, locks) matches Ok(Ok(_)),
    ensures
        all_proper(renew_steps(db, now, owner, ttl, locks)->Ok_0->Ok_0),
    decreases locks.len(),
{
    if locks.len() > 0 {
        lemma_renewals_proper(db, now, owner, ttl, locks.drop_last());
        assert(all_proper(keep_fence(db, now, ttl, locks.last())->Ok_0));
    }
}

proof fn lemma_plan_proper(db: DbView, now: u64, args: ArgsView)
    requires
        acquire_plan(db, now, args) is Ok,
    ensures
        all_proper(acquire_plan(db, now, args)->Ok_0.1),
{
    let (outcome, steps) = acquire_plan(db, now, args)->Ok_0;
    if outcome == AcquireView::Granted {
        if let Ok(Ok(clear)) = check_requests(db, now, args.owner, args.token, args.requests) {
            let released = release_steps(db, now, args.owner, args.releases)->Ok_0;
            let taken = grants(args.owner, args.ttl, args.token, args.requests);
            let alive = alive_steps(args.owner, args.ttl, args.requests);
            lemma_check_only_drops(db, now, args.owner, args.token, args.requests);
            lemma_releases_proper(db, now, args.owner, args.releases);
            lemma_grants_proper(args.owner, args.ttl, args.token, args.requests);
            assert(all_proper(clear)) by {
                assert forall|i: int| 0 <= i < clear.len() implies proper(#[trigger] clear[i]) by {}
            }
            assert(all_proper(alive));
            assert(steps == clear + alive + released + taken);
        }
    }
}

/// A store without rows is readable.
pub proof fn law_empty_store_is_readable()
    ensures
        readable(Map::<(Cf, Seq<u8>), Option<RecordView>>::empty()),
{
}

proof fn lemma_release_readable(
    db: DbView,
    now: u64,
    owner: Seq<char>,
    rels: Seq<RelView>,
    del_wait: bool,
)
    requires
        readable(db),
        release_plan(db, now, owner, rels, del_wait) is Ok,
    ensures
        readable(applied(db, steps_ops(now, release_plan(db, now, owner, rels, del_wait)->Ok_0))),
{
    let steps = release_plan(db, now, owner, rels, del_wait)->Ok_0;
    lemma_releases_proper(db, now, owner, rels);
    assert(all_proper(steps));
    lemma_steps_readable(db, now, steps);
}

proof fn lemma_release_all_readable(db: DbView, now: u64, owner: Seq<char>, del_wait: bool)
    requires
        readable(db),
        release_all_plan(db, now, owner, del_wait) is Ok,
    ensures
        readable(applied(db, steps_ops(now, release_all_plan(db, now, owner, del_wait)->Ok_0))),
{
    let steps = release_all_plan(db, now, owner, del_wait)->Ok_0;
    lemma_releases_proper(db, now, owner, all_holdings(db, now, owner));
    assert(all_proper(steps));
    lemma_steps_readable(db, now, steps);
}

proof fn lemma_renew_readable(db: DbView, now: u64, owner: Seq<char>, ttl: u64)
    requires
        readable(db),
        renew_plan(db, now, owner, ttl) is Ok,
    ensures
        readable(applied(db, steps_ops(now, renew_plan(db, now, owner, ttl)->Ok_0.1))),
{
    let (outcome, steps) = renew_plan(db, now, owner, ttl)->Ok_0;
    if let Ok(true) = is_alive(db, now, owner) {
        let locks = holdings(db, now, owner)->Ok_0;
        if let Ok(Ok(_)) = renew_steps(db, now, owner, ttl, locks) {
            lemma_renewals_proper(db, now, owner, ttl, locks);
        }
    }
    assert(all_proper(steps));
    lemma_steps_readable(db, now, steps);
}

proof fn lemma_sweep_readable(db: DbView, ks: Seq<Seq<u8>>, now: u64)
    requires
        readable(db),
    ensures
        readable(applied(db, sweep_writes(db, ks, now))),
{
    let after = applied(db, sweep_writes(db, ks, now));
    lemma_sweep_writes(db, ks, now);
    lemma_applied_decodes(db, sweep_writes(db, ks, now));
    assert forall|place: (Cf, Seq<u8>)| #[trigger] after.dom().contains(place) implies (
    after[place] matches Some(RecordView::Str { v, .. }) ==> {
        &&& place.0 == Cf::Fences ==> is_token(v)
        &&& place.0 == Cf::WaitEdges ==> is_edge(v)
    }) by {
        if place.0 != Cf::Meta {
            assert(db.dom().contains(place));
        }
    }
}

proof fn lemma_counter_readable(db: DbView, key: Seq<u8>, v: i64)
    requires
        readable(db),
    ensures
        readable(db.insert((Cf::Meta, key), Some(RecordView::Counter { v }))),
{
    let after = db.insert((Cf::Meta, key), Some(RecordView::Counter { v }));
    assert forall|place: (Cf, Seq<u8>)| #[trigger] after.dom().contains(place) implies after[place]
        is Some && (after[place] matches Some(RecordView::Str { v, .. }) ==> {
        &&& place.0 == Cf::Fences ==> is_token(v)
        &&& place.0 == Cf::WaitEdges ==> is_edge(v)
    }) by {
        if place != (Cf::Meta, key) {
            assert(db.dom().contains(place));
        }
    }
}

proof fn lemma_one_readable(db: DbView, now: u64, step: StepView)
    requires
        readable(db),
        proper(step),
    ensures
        readable(applied(db, steps_ops(now, seq![step]))),
{
    lemma_steps_readable(db, now, seq![step]);
}

/// Every command leaves a store readable that was readable: its rows hold records, its fences
/// tokens, its edges edges.
pub proof fn law_commands_keep_it_readable(db: DbView, now: u64, op: OpKind)
    requires
        readable(db),
        command_effect(db, now, op) is Ok,
        op matches OpKind::SetWaitEdge { conflict_owner, metadata, .. } ==> conflict_owner.len()
            <= u64::MAX && (metadata matches Some(m) ==> m.path.len() <= u64::MAX),
    ensures
        readable(applied(db, command_effect(db, now, op)->Ok_0.1)),
{
    lemma_effect(db, now, op);
    let own = applied(db, command_writes(db, now, op)->Ok_0.1);
    assert(readable(own)) by {
        match op {
            OpKind::Acquire(args) => {
                lemma_plan_proper(db, now, args);
                lemma_steps_readable(db, now, acquire_plan(db, now, args)->Ok_0.1);
            },
            OpKind::Release { owner, reqs, del_wait } => {
                lemma_release_readable(db, now, owner, reqs, del_wait);
            },
            OpKind::ReleaseAll { owner, del_wait } => {
                lemma_release_all_readable(db, now, owner, del_wait);
            },
            OpKind::ForceRelease { victim } => {
                lemma_release_all_readable(db, now, victim, true);
            },
            OpKind::Renew { owner, ttl_ms } => {
                lemma_renew_readable(db, now, owner, ttl_ms);
            },
            OpKind::SetClaim { path, claimant, ttl_ms } => {
                let step = StepView::Claim { path, claimant, ttl: claim_ttl(ttl_ms) };
                lemma_one_readable(db, now, step);
            },
            OpKind::SetWaitEdge { owner, conflict_owner, metadata, ttl_ms } => {
                let edge = edge_text(conflict_owner, metadata);
                assert(is_edge(edge));
                lemma_one_readable(db, now, StepView::Wait { owner, edge, ttl: ttl_ms });
            },
            OpKind::ClearWaitEdge { owner } => {
                lemma_one_readable(db, now, StepView::NoWait { owner });
            },
            OpKind::GcSweep { now_ms, batch } => {
                lemma_sweep_readable(db, swept_rows(db, now_ms, batch as nat), now_ms);
            },
            OpKind::IncrFence => {
                let v = next_token(fence_counter(db)->Ok_0);
                lemma_single(db, put_counter(v));
                lemma_counter_readable(db, fence_counter_key(), v);
            },
        }
    }
    lemma_counter_readable(own, last_applied_key(), next_token(last_applied(db)->Ok_0));
}

} // verus!
