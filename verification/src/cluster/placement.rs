//! Placement by rendezvous hashing: which group a lock domain belongs to, and which
//! nodes vote in a group.

use vstd::bytes::{
    lemma_auto_spec_u64_to_from_le_bytes, spec_u64_from_le_bytes, spec_u64_to_le_bytes,
    u64_to_le_bytes,
};
use vstd::prelude::*;
use crate::text::utf8;

verus! {

/// The system group, for fencing tokens and what concerns the whole cluster.
pub const SYS_GROUP_ID: u64 = 0xffff_ffff_ffff_ffff;

/// The 64-bit XXH3 hash of some bytes.
pub uninterp spec fn xxh3(data: Seq<u8>) -> u64;

/// `xxhash_rust::xxh3::xxh3_64`: the hash of the bytes with the default seed. The
/// contract names the result; how it is computed is left unsaid.
#[verifier::external_body]
fn hash(data: &[u8]) -> (r: u64)
    ensures
        r == xxh3(data@),
{
    xxhash_rust::xxh3::xxh3_64(data)
}

// ---------------------------------------------------------------------------
// Groups
// ---------------------------------------------------------------------------

/// The weight of a group for a domain.
pub open spec fn domain_weight(domain: Seq<char>, group: u64) -> u64 {
    xxh3(spec_u64_to_le_bytes(group) + utf8(domain))
}

/// The weights of the groups `0..n` for a domain.
pub open spec fn domain_weights(domain: Seq<char>, n: nat) -> Seq<u64> {
    Seq::new(n, |g: int| domain_weight(domain, g as u64))
}

/// Whether `g` is the first of the heaviest (`0` where there are no weights).
pub open spec fn is_heaviest(ws: Seq<u64>, g: int) -> bool {
    if ws.len() == 0 {
        g == 0
    } else {
        &&& 0 <= g < ws.len()
        &&& forall|i: int| 0 <= i < ws.len() ==> #[trigger] ws[i] <= ws[g]
        &&& forall|i: int| 0 <= i < g ==> #[trigger] ws[i] < ws[g]
    }
}

/// The first of the heaviest (`0` where there are no weights).
pub fn heaviest(ws: &Vec<u64>) -> (r: u64)
    requires
        ws@.len() <= u64::MAX,
    ensures
        is_heaviest(ws@, r as int),
{
    let mut best_group: u64 = 0;
    let mut best_weight: u64 = 0;
    let mut g: usize = 0;
    while g < ws.len()
        invariant
            g <= ws@.len() <= u64::MAX,
            g > 0 ==> best_group < g && best_weight == ws@[best_group as int],
            g == 0 ==> best_group == 0 && best_weight == 0,
            forall|i: int| 0 <= i < g ==> #[trigger] ws@[i] <= best_weight,
            forall|i: int| 0 <= i < best_group ==> #[trigger] ws@[i] < best_weight,
        decreases ws@.len() - g,
    {
        if ws[g] > best_weight {
            best_weight = ws[g];
            best_group = g as u64;
        }
        g = g + 1;
    }
    best_group
}

fn weigh(mut key: Vec<u8>, rest: &[u8]) -> (r: u64)
    ensures
        r == xxh3(key@ + rest@),
{
    let ghost first = key@;
    key.extend_from_slice(rest);
    assert(key@ =~= first + rest@);
    hash(key.as_slice())
}

/// The group that a lock domain belongs to.
pub fn place_domain(domain: &str, group_count: u32) -> (r: u64)
    ensures
        is_heaviest(domain_weights(domain@, group_count as nat), r as int),
{
    let mut ws: Vec<u64> = Vec::new();
    let mut g: u32 = 0;
    while g < group_count
        invariant
            g <= group_count,
            ws@ == domain_weights(domain@, g as nat),
        decreases group_count - g,
    {
        ws.push(weigh(u64_to_le_bytes(g as u64), domain.as_bytes()));
        g = g + 1;
        assert(ws@ =~= domain_weights(domain@, g as nat));
    }
    heaviest(&ws)
}

/// What a group weighs for a domain is the hash of the number of the group, in eight bytes with
/// the lowest first, and of the name of the domain; what a node weighs for a group that of the
/// numbers of the two.
pub proof fn law_weights_hash_numbers_and_names(
    group: Seq<u8>,
    node: Seq<u8>,
    domain: Seq<char>,
)
    requires
        group.len() == 8,
        node.len() == 8,
    ensures
        domain_weight(domain, spec_u64_from_le_bytes(group)) == xxh3(group + utf8(domain)),
        node_weight(spec_u64_from_le_bytes(group), spec_u64_from_le_bytes(node)) == xxh3(
            group + node,
        ),
{
    lemma_auto_spec_u64_to_from_le_bytes();
}

/// There is one group for a domain.
pub proof fn law_heaviest_unique(ws: Seq<u64>, a: int, b: int)
    requires
        is_heaviest(ws, a),
        is_heaviest(ws, b),
    ensures
        a == b,
{
    if a < b {
        assert(ws[a] < ws[b]);
    } else if b < a {
        assert(ws[b] < ws[a]);
    }
}

/// A domain is placed in one of the groups, where there are any.
pub proof fn law_placed_in_range(domain: Seq<char>, n: nat, g: int)
    requires
        n > 0,
        is_heaviest(domain_weights(domain, n), g),
    ensures
        0 <= g < n,
{
}

/// With more groups, a domain stays where it was or moves to one of the new ones.
pub proof fn law_growth_moves_to_new_groups(domain: Seq<char>, n: nat, m: nat, a: int, b: int)
    requires
        0 < n <= m,
        is_heaviest(domain_weights(domain, n), a),
        is_heaviest(domain_weights(domain, m), b),
    ensures
        b == a || n <= b,
{
    let (few, many) = (domain_weights(domain, n), domain_weights(domain, m));
    if b < n {
        assert forall|i: int| 0 <= i < n implies #[trigger] few[i] <= few[b] by {
            assert(few[i] == many[i] && few[b] == many[b]);
        }
        assert forall|i: int| 0 <= i < b implies #[trigger] few[i] < few[b] by {
            assert(few[i] == many[i] && few[b] == many[b]);
        }
        law_heaviest_unique(few, a, b);
    }
}

// ---------------------------------------------------------------------------
// Voters
// ---------------------------------------------------------------------------

/// The weight of a node for a group.
pub open spec fn node_weight(group_id: u64, node: u64) -> u64 {
    xxh3(spec_u64_to_le_bytes(group_id) + spec_u64_to_le_bytes(node))
}

/// The weights of nodes for a group.
pub open spec fn node_weights(group_id: u64, nodes: Seq<u64>) -> Seq<u64> {
    Seq::new(nodes.len(), |i: int| node_weight(group_id, nodes[i]))
}

/// Whether position `i` ranks before position `j`: it is heavier, or as heavy and
/// earlier.
pub open spec fn before(ws: Seq<u64>, i: int, j: int) -> bool {
    ws[i] > ws[j] || (ws[i] == ws[j] && i < j)
}

/// Whether the positions are all ranked, each before the later ones.
pub open spec fn is_ranking(ws: Seq<u64>, order: Seq<int>) -> bool {
    &&& order.len() == ws.len()
    &&& forall|a: int| 0 <= a < order.len() ==> 0 <= #[trigger] order[a] < ws.len()
    &&& forall|a: int, b: int|
        0 <= a < b < order.len() ==> before(ws, #[trigger] order[a], #[trigger] order[b])
}

/// Whether the voters are the `count` first-ranked nodes, in that order, or all of
/// them where there are fewer.
pub open spec fn are_voters(nodes: Seq<u64>, ws: Seq<u64>, count: nat, voters: Seq<u64>) -> bool {
    exists|order: Seq<int>| #[trigger]
        is_ranking(ws, order) && voters == ranked(nodes, order).take(
            if count < nodes.len() {
                count as int
            } else {
                nodes.len() as int
            },
        )
}

/// The nodes in the order of their ranks.
pub open spec fn ranked(nodes: Seq<u64>, order: Seq<int>) -> Seq<u64> {
    Seq::new(order.len(), |a: int| nodes[order[a]])
}

spec fn as_ints(v: Seq<usize>) -> Seq<int> {
    Seq::new(v.len(), |i: int| v[i] as int)
}

fn rank(ws: &Vec<u64>) -> (r: Vec<usize>)
    ensures
        is_ranking(ws@, as_ints(r@)),
{
    let mut order: Vec<usize> = Vec::new();
    let mut i: usize = 0;
    while i < ws.len()
        invariant
            i <= ws@.len(),
            order@.len() == i,
            forall|a: int| 0 <= a < i ==> #[trigger] order@[a] < i,
            forall|a: int, b: int|
                0 <= a < b < i ==> before(
                    ws@,
                    #[trigger] order@[a] as int,
                    #[trigger] order@[b] as int,
                ),
        decreases ws@.len() - i,
    {
        let mut at: usize = 0;
        while at < i && ws[order[at]] >= ws[i]
            invariant
                at <= i < ws@.len(),
                order@.len() == i,
                forall|a: int| 0 <= a < i ==> #[trigger] order@[a] < i,
                forall|a: int| 0 <= a < at ==> ws@[#[trigger] order@[a] as int] >= ws@[i as int],
            decreases i - at,
        {
            at = at + 1;
        }
        let ghost prior = order@;
        order.insert(at, i);
        assert(order@ =~= prior.insert(at as int, i));
        assert forall|a: int, b: int| 0 <= a < b < i + 1 implies before(
            ws@,
            #[trigger] order@[a] as int,
            #[trigger] order@[b] as int,
        ) by {
            let (pa, pb) = (
                if a < at { a } else { a - 1 },
                if b < at { b } else { b - 1 },
            );
            if a == at {
                assert(order@[b] == prior[pb]);
                if pb > at {
                    assert(before(ws@, prior[at as int] as int, prior[pb] as int));
                }
            } else if b == at {
                assert(order@[a] == prior[pa]);
            } else {
                assert(order@[a] == prior[pa] && order@[b] == prior[pb]);
            }
        }
        assert forall|a: int| 0 <= a < i + 1 implies #[trigger] order@[a] < i + 1 by {
            if a != at {
                assert(order@[a] == prior[if a < at { a } else { a - 1 }]);
            }
        }
        i = i + 1;
    }
    order
}

/// The first-ranked nodes for the given weights, up to `count` of them.
pub fn top_ranked(nodes: &[u64], ws: &Vec<u64>, count: u32) -> (r: Vec<u64>)
    requires
        nodes@.len() == ws@.len(),
    ensures
        are_voters(nodes@, ws@, count as nat, r@),
{
    let order = rank(ws);
    let ghost ints = as_ints(order@);
    let mut out: Vec<u64> = Vec::new();
    let mut a: usize = 0;
    while a < order.len() && (a as u64) < count as u64
        invariant
            ints == as_ints(order@),
            is_ranking(ws@, ints),
            nodes@.len() == ws@.len() == order@.len(),
            a <= order@.len(),
            a <= count,
            out@ == ranked(nodes@, ints).take(a as int),
        decreases order@.len() - a,
    {
        assert(0 <= ints[a as int] < ws@.len());
        out.push(nodes[order[a]]);
        a = a + 1;
        assert(out@ =~= ranked(nodes@, ints).take(a as int));
    }
    out
}

/// The nodes that vote in a group.
pub fn select_voters(group_id: u64, nodes: &[u64], replication_factor: u32) -> (r: Vec<u64>)
    ensures
        are_voters(nodes@, node_weights(group_id, nodes@), replication_factor as nat, r@),
{
    let mut ws: Vec<u64> = Vec::new();
    let mut i: usize = 0;
    while i < nodes.len()
        invariant
            i <= nodes@.len(),
            ws@ == node_weights(group_id, nodes@.take(i as int)),
        decreases nodes@.len() - i,
    {
        let node = u64_to_le_bytes(nodes[i]);
        ws.push(weigh(u64_to_le_bytes(group_id), node.as_slice()));
        i = i + 1;
        assert(ws@ =~= node_weights(group_id, nodes@.take(i as int)));
    }
    assert(nodes@.take(nodes@.len() as int) =~= nodes@);
    top_ranked(nodes, &ws, replication_factor)
}

/// There is one ranking for given weights.
pub proof fn law_ranking_unique(ws: Seq<u64>, p: Seq<int>, q: Seq<int>)
    requires
        is_ranking(ws, p),
        is_ranking(ws, q),
    ensures
        p == q,
{
    lemma_ranking_covers(ws, p);
    lemma_ranking_covers(ws, q);
    lemma_same_order(ws, p, q, p.len() as int);
    assert(p =~= q);
}

/// A ranking has every position.
proof fn lemma_ranking_covers(ws: Seq<u64>, p: Seq<int>)
    requires
        is_ranking(ws, p),
    ensures
        forall|i: int| 0 <= i < ws.len() ==> #[trigger] p.contains(i),
{
    let n = ws.len() as int;
    assert(p.no_duplicates());
    p.unique_seq_to_set();
    let all = vstd::set_lib::set_int_range(0, n);
    vstd::set_lib::lemma_int_range(0, n);
    assert(p.to_set().subset_of(all)) by {
        assert forall|i: int| p.to_set().contains(i) implies all.contains(i) by {
            let a = p.index_of(i);
            assert(p[a] == i);
        }
    }
    vstd::set_lib::lemma_subset_equality(p.to_set(), all);
    assert forall|i: int| 0 <= i < ws.len() implies #[trigger] p.contains(i) by {
        assert(all.contains(i));
        assert(p.to_set().contains(i));
    }
}

proof fn lemma_same_order(ws: Seq<u64>, p: Seq<int>, q: Seq<int>, n: int)
    requires
        is_ranking(ws, p),
        is_ranking(ws, q),
        0 <= n <= ws.len(),
        forall|i: int| 0 <= i < ws.len() ==> #[trigger] p.contains(i),
        forall|i: int| 0 <= i < ws.len() ==> #[trigger] q.contains(i),
    ensures
        forall|a: int| 0 <= a < n ==> #[trigger] p[a] == q[a],
    decreases n,
{
    if n > 0 {
        lemma_same_order(ws, p, q, n - 1);
        let k = n - 1;
        if p[k] != q[k] {
            assert(q.contains(p[k]));
            let b = q.index_of(p[k]);
            assert(q[b] == p[k] && 0 <= b < q.len());
            assert(p.contains(q[k]));
            let a = p.index_of(q[k]);
            assert(p[a] == q[k] && 0 <= a < p.len());
            if b < k {
                assert(p[b] == q[b]);
                assert(before(ws, p[b], p[k]));
            }
            if a < k {
                assert(p[a] == q[a]);
                assert(before(ws, q[a], q[k]));
            }
            assert(before(ws, q[k], q[b]));
            assert(before(ws, p[k], p[a]));
        }
    }
}

/// There is one list of voters for given nodes and weights.
pub proof fn law_voters_unique(nodes: Seq<u64>, ws: Seq<u64>, count: nat, v: Seq<u64>, w: Seq<u64>)
    requires
        are_voters(nodes, ws, count, v),
        are_voters(nodes, ws, count, w),
    ensures
        v == w,
{
    let p = choose|order: Seq<int>| #[trigger]
        is_ranking(ws, order) && v == ranked(nodes, order).take(
            if count < nodes.len() {
                count as int
            } else {
                nodes.len() as int
            },
        );
    let q = choose|order: Seq<int>| #[trigger]
        is_ranking(ws, order) && w == ranked(nodes, order).take(
            if count < nodes.len() {
                count as int
            } else {
                nodes.len() as int
            },
        );
    law_ranking_unique(ws, p, q);
}

/// A group has as many voters as asked for, or all the nodes where there are fewer;
/// each voter is a node, and none votes twice where no node is listed twice.
pub proof fn law_voters_are_nodes(nodes: Seq<u64>, ws: Seq<u64>, count: nat, voters: Seq<u64>)
    requires
        nodes.len() == ws.len(),
        are_voters(nodes, ws, count, voters),
    ensures
        voters.len() == (if count < nodes.len() {
            count
        } else {
            nodes.len()
        }),
        forall|v: u64| #[trigger] voters.contains(v) ==> nodes.contains(v),
        nodes.no_duplicates() ==> voters.no_duplicates(),
{
    let k = if count < nodes.len() {
        count as int
    } else {
        nodes.len() as int
    };
    let order = choose|order: Seq<int>| #[trigger]
        is_ranking(ws, order) && voters == ranked(nodes, order).take(
            if count < nodes.len() {
                count as int
            } else {
                nodes.len() as int
            },
        );
    assert forall|v: u64| #[trigger] voters.contains(v) implies nodes.contains(v) by {
        let a = voters.index_of(v);
        assert(voters[a] == nodes[order[a]]);
    }
    if nodes.no_duplicates() {
        assert forall|a: int, b: int| 0 <= a < k && 0 <= b < k && a != b implies voters[a]
            != voters[b] by {
            assert(voters[a] == nodes[order[a]] && voters[b] == nodes[order[b]]);
            if a < b {
                assert(before(ws, order[a], order[b]));
            } else {
                assert(before(ws, order[b], order[a]));
            }
        }
    }
}

/// Where the position `i` goes when the one at `k` is taken out.
spec fn closed_up(i: int, k: int) -> int {
    if i < k {
        i
    } else {
        i - 1
    }
}

proof fn lemma_ranking_without(ws: Seq<u64>, order: Seq<int>, k: int, p: int)
    requires
        is_ranking(ws, order),
        0 <= p < order.len(),
        order[p] == k,
    ensures
        is_ranking(
            ws.remove(k),
            Seq::new((order.len() - 1) as nat, |a: int| closed_up(order.remove(p)[a], k)),
        ),
{
    let rest = Seq::new((order.len() - 1) as nat, |a: int| closed_up(order.remove(p)[a], k));
    let up = |a: int| if a < p { a } else { a + 1 };
    assert forall|a: int| 0 <= a < rest.len() implies 0 <= #[trigger] rest[a] < ws.remove(
        k,
    ).len() by {
        let x = order[up(a)];
        if up(a) < p {
            assert(before(ws, x, order[p]));
        } else {
            assert(before(ws, order[p], x));
        }
    }
    assert forall|a: int, b: int| 0 <= a < b < rest.len() implies before(
        ws.remove(k),
        #[trigger] rest[a],
        #[trigger] rest[b],
    ) by {
        let (x, y) = (order[up(a)], order[up(b)]);
        assert(before(ws, x, y));
        if up(a) < p {
            assert(before(ws, x, order[p]));
        } else {
            assert(before(ws, order[p], x));
        }
        if up(b) < p {
            assert(before(ws, y, order[p]));
        } else {
            assert(before(ws, order[p], y));
        }
        assert(ws.remove(k)[closed_up(x, k)] == ws[x]);
        assert(ws.remove(k)[closed_up(y, k)] == ws[y]);
    }
}

/// When a node leaves, the groups in which it does not vote keep their voters.
pub proof fn law_leaving_node_moves_no_others(
    group_id: u64,
    nodes: Seq<u64>,
    k: int,
    count: nat,
    voters: Seq<u64>,
)
    requires
        0 <= k < nodes.len(),
        are_voters(nodes, node_weights(group_id, nodes), count, voters),
        !voters.contains(nodes[k]),
    ensures
        are_voters(nodes.remove(k), node_weights(group_id, nodes.remove(k)), count, voters),
{
    let ws = node_weights(group_id, nodes);
    let order = choose|order: Seq<int>| #[trigger]
        is_ranking(ws, order) && voters == ranked(nodes, order).take(
            if count < nodes.len() {
                count as int
            } else {
                nodes.len() as int
            },
        );
    lemma_ranking_covers(ws, order);
    assert(order.contains(k));
    let p = order.index_of(k);
    assert(order[p] == k);
    if p < count {
        assert(voters[p] == nodes[k]);
    }
    lemma_ranking_without(ws, order, k, p);
    let rest = Seq::new((order.len() - 1) as nat, |a: int| closed_up(order.remove(p)[a], k));
    let fewer = nodes.remove(k);
    assert(ws.remove(k) =~= node_weights(group_id, fewer));
    assert forall|a: int| 0 <= a < count implies #[trigger] ranked(fewer, rest)[a] == voters[a] by {
        assert(before(ws, order[a], order[p]));
        assert(order.remove(p)[a] == order[a]);
        assert(0 <= order[a] < nodes.len());
    }
    let m = if count < fewer.len() {
        count as int
    } else {
        fewer.len() as int
    };
    assert(ranked(fewer, rest).take(m) =~= voters);
}

} // verus!
