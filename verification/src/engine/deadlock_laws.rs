//! What the walk along wait-for edges finds.

use vstd::prelude::*;
use crate::db::{applied, DbView};
use crate::engine::conflict::is_alive;
use crate::engine::edge::{edge_text, law_edge_reads_back};
use crate::engine::outcome_laws::lemma_one_step;
use crate::engine::places::lemma_single;
use crate::engine::query::{awaited, blocking, walk};
use crate::engine::steps::{step_ops, steps_ops, StepView};
use crate::engine::types::{CycleView, MetaView};
use crate::db::OpView;
use crate::store_keys::{expiry_time, is_expired, Cf};
use crate::store_laws::{law_text_reads_back, law_write_is_local, lemma_put_text_places};
use crate::store_rocksdb::ErrorView;
use crate::text::utf8;

verus! {

/// Whether each owner of the chain waits for the next.
pub open spec fn is_chain(db: DbView, now: u64, chain: Seq<Seq<char>>) -> bool {
    forall|i: int|
        0 <= i < chain.len() - 1 ==> #[trigger] awaited(db, now, chain[i]) == Ok::<
            Option<Seq<char>>,
            ErrorView,
        >(Some(chain[i + 1]))
}

/// Whether the owners of the chain wait for each other in a ring that comes back to
/// the first, and to it only at the end.
pub open spec fn is_cycle(db: DbView, now: u64, chain: Seq<Seq<char>>) -> bool {
    &&& chain.len() > 0
    &&& is_chain(db, now, chain)
    &&& awaited(db, now, chain.last()) == Ok::<Option<Seq<char>>, ErrorView>(Some(chain[0]))
    &&& forall|i: int| 0 < i < chain.len() ==> #[trigger] chain[i] != chain[0]
}

pub proof fn lemma_chain_grows(db: DbView, now: u64, chain: Seq<Seq<char>>, next: Seq<char>)
    requires
        chain.len() > 0,
        is_chain(db, now, chain),
        awaited(db, now, chain.last()) == Ok::<Option<Seq<char>>, ErrorView>(Some(next)),
    ensures
        is_chain(db, now, chain.push(next)),
{
    let longer = chain.push(next);
    assert forall|i: int| 0 <= i < longer.len() - 1 implies #[trigger] awaited(
        db,
        now,
        longer[i],
    ) == Ok::<Option<Seq<char>>, ErrorView>(Some(longer[i + 1])) by {
        assert(longer[i] == chain[i]);
        if i < chain.len() - 1 {
            assert(awaited(db, now, chain[i]) == Ok::<Option<Seq<char>>, ErrorView>(
                Some(chain[i + 1]),
            ));
        }
    }
}

proof fn lemma_walk(db: DbView, now: u64, chain: Seq<Seq<char>>, depth: nat)
    requires
        chain.len() > 0,
        is_chain(db, now, chain),
        forall|i: int| 0 < i < chain.len() ==> #[trigger] chain[i] != chain[0],
    ensures
        walk(db, now, chain, depth) matches Ok(CycleView::Cycle(c)) ==> is_cycle(db, now, c)
            && c[0] == chain[0] && c.len() < chain.len() + depth,
        walk(db, now, chain, depth) matches Ok(CycleView::Truncated(c)) ==> is_chain(db, now, c)
            && c[0] == chain[0] && c.len() == chain.len() + depth,
    decreases depth,
{
    if depth > 0 {
        if let Ok(Some(next)) = awaited(db, now, chain.last()) {
            if next != chain[0] {
                lemma_chain_grows(db, now, chain, next);
                let longer = chain.push(next);
                assert forall|i: int| 0 < i < longer.len() implies #[trigger] longer[i]
                    != longer[0] by {
                    if i < chain.len() {
                        assert(longer[i] == chain[i]);
                    }
                }
                lemma_walk(db, now, longer, (depth - 1) as nat);
            }
        }
    }
}

/// A cycle that is reported is real: its owners wait for each other in a ring that
/// starts and ends at the owner that was asked about. A walk that was cut short
/// tells the owners along the way.
pub proof fn law_reported_cycle_is_real(db: DbView, now: u64, start: Seq<char>, depth: nat)
    ensures
        walk(db, now, seq![start], depth) matches Ok(CycleView::Cycle(c)) ==> is_cycle(db, now, c)
            && c[0] == start && c.len() <= depth,
        walk(db, now, seq![start], depth) matches Ok(CycleView::Truncated(c)) ==> is_chain(
            db,
            now,
            c,
        ) && c[0] == start && c.len() == depth + 1,
{
    lemma_walk(db, now, seq![start], depth);
}

proof fn lemma_walk_follows(db: DbView, now: u64, c: Seq<Seq<char>>, n: int, depth: nat)
    requires
        is_cycle(db, now, c),
        1 <= n <= c.len(),
    ensures
        walk(db, now, c.take(n), depth) == (if c.len() - n < depth {
            Ok::<CycleView, ErrorView>(CycleView::Cycle(c))
        } else {
            Ok(CycleView::Truncated(c.take(n + depth)))
        }),
    decreases depth,
{
    let part = c.take(n);
    if depth == 0 {
    } else if n == c.len() {
        assert(part =~= c);
    } else {
        assert(part.last() == c[n - 1]);
        assert(awaited(db, now, c[n - 1]) == Ok::<Option<Seq<char>>, ErrorView>(
            Some(c[n - 1 + 1]),
        ));
        assert(c[n] != c[0]);
        assert(part.push(c[n]) =~= c.take(n + 1));
        lemma_walk_follows(db, now, c, n + 1, (depth - 1) as nat);
    }
}

/// No cycle is missed: a walk from an owner on a cycle that is allowed as many steps
/// as the cycle has owners reports it, and a shorter one says that it was cut short.
pub proof fn law_no_cycle_is_missed(db: DbView, now: u64, c: Seq<Seq<char>>, depth: nat)
    requires
        is_cycle(db, now, c),
    ensures
        walk(db, now, seq![c[0]], depth) == (if c.len() <= depth {
            Ok::<CycleView, ErrorView>(CycleView::Cycle(c))
        } else {
            Ok(CycleView::Truncated(c.take(depth as int + 1)))
        }),
{
    assert(c.take(1) =~= seq![c[0]]);
    lemma_walk_follows(db, now, c, 1, depth);
}

/// Whoever waits is known to wait: while a wait-for edge lives and the awaited
/// owner's lease does, the owner waits for it; with metadata, only as long as the
/// awaited owner still stands in the way there.
pub proof fn law_wait_edge_is_followed(
    db: DbView,
    now: u64,
    owner: Seq<char>,
    other: Seq<char>,
    meta: Option<MetaView>,
    ttl: u64,
    later: u64,
)
    requires
        other.len() <= u64::MAX,
        meta matches Some(m) ==> m.path.len() <= u64::MAX,
        !is_expired(expiry_time(now, ttl), later),
        is_alive(db, later, other) == Ok::<bool, ErrorView>(true),
        meta matches Some(m) ==> blocking(db, later, m.path, other, m.reason) == Ok::<
            bool,
            ErrorView,
        >(true),
    ensures
        awaited(
            applied(
                db,
                steps_ops(
                    now,
                    seq![StepView::Wait { owner, edge: edge_text(other, meta), ttl }],
                ),
            ),
            later,
            owner,
        ) == Ok::<Option<Seq<char>>, ErrorView>(Some(other)),
{
    let edge = edge_text(other, meta);
    let step = StepView::Wait { owner, edge, ttl };
    lemma_one_step(now, step);
    law_text_reads_back(db, now, Cf::WaitEdges, utf8(owner), edge, ttl, later);
    lemma_put_text_places(db, now, Cf::WaitEdges, utf8(owner), edge, ttl);
    law_edge_reads_back(other, meta);
    let after = applied(db, step_ops(now, step));
    assert(is_alive(after, later, other) == is_alive(db, later, other)) by {
        law_write_is_local(
            db,
            now,
            Cf::WaitEdges,
            utf8(owner),
            edge,
            ttl,
            (Cf::OwnerAlive, utf8(other)),
        );
    }
    if let Some(m) = meta {
        let key = crate::store_keys::member_key_spec(utf8(m.path), other);
        law_write_is_local(
            db,
            now,
            Cf::WaitEdges,
            utf8(owner),
            edge,
            ttl,
            (Cf::ReadLocks, key),
        );
        law_write_is_local(
            db,
            now,
            Cf::WaitEdges,
            utf8(owner),
            edge,
            ttl,
            (Cf::Claims, utf8(m.path)),
        );
        law_write_is_local(
            db,
            now,
            Cf::WaitEdges,
            utf8(owner),
            edge,
            ttl,
            (Cf::WriteLocks, utf8(m.path)),
        );
    }
}

/// An owner whose wait-for edge was cleared waits for nobody.
pub proof fn law_cleared_edge_is_gone(db: DbView, now: u64, owner: Seq<char>, later: u64)
    ensures
        awaited(
            applied(db, steps_ops(now, seq![StepView::NoWait { owner }])),
            later,
            owner,
        ) == Ok::<Option<Seq<char>>, ErrorView>(None),
{
    lemma_one_step(now, StepView::NoWait { owner });
    lemma_single(db, OpView::Delete { cf: Cf::WaitEdges, key: utf8(owner) });
}

/// An owner whose lease is over stands in nobody's way.
pub proof fn law_dead_owner_blocks_nobody(
    db: DbView,
    now: u64,
    path: Seq<char>,
    owner: Seq<char>,
    reason: Seq<char>,
)
    requires
        is_alive(db, now, owner) == Ok::<bool, ErrorView>(false),
    ensures
        blocking(db, now, path, owner, reason) == Ok::<bool, ErrorView>(false),
{
}

} // verus!
