//! The members of the cluster.

use vstd::prelude::*;
use crate::text::{
    decimal, is_digit, lemma_decimal_reads_back, lemma_parse_decimal, parse_unsigned,
    parse_unsigned_spec, split_on, split_pieces, texts, to_chars,
};

verus! {

/// The members of the cluster, as the local node knows them.
#[derive(Debug, Clone)]
pub struct ClusterMembers {
    /// The local node.
    pub node_id: u64,
    /// The members, none of them twice.
    pub members: Vec<u64>,
}

impl ClusterMembers {
    pub open spec fn view(&self) -> Set<u64> {
        self.members@.to_set()
    }

    /// Whether no member occurs twice.
    pub open spec fn well_formed(&self) -> bool {
        self.members@.no_duplicates()
    }

    /// No members yet.
    pub fn new(node_id: u64) -> (r: ClusterMembers)
        ensures
            r.node_id == node_id,
            r@ == Set::<u64>::empty(),
            r.well_formed(),
    {
        let r = ClusterMembers { node_id, members: Vec::new() };
        assert(r@ =~= Set::<u64>::empty());
        r
    }

    /// Replaces the members.
    pub fn update(&mut self, members: &Vec<u64>)
        ensures
            final(self).node_id == old(self).node_id,
            final(self)@ == members@.to_set(),
            final(self).well_formed(),
    {
        let mut out: Vec<u64> = Vec::new();
        let mut i: usize = 0;
        while i < members.len()
            invariant
                i <= members@.len(),
                out@.no_duplicates(),
                forall|x: u64| #[trigger]
                    out@.contains(x) <==> members@.take(i as int).contains(x),
            decreases members@.len() - i,
        {
            let ghost before = out@;
            let ghost seen = members@.take(i as int);
            let id: u64 = members[i];
            let known = has(&out, id);
            if !known {
                out.push(id);
            }
            assert forall|x: u64| #[trigger] out@.contains(x) <==> members@.take(
                i + 1,
            ).contains(x) by {
                lemma_pushed(seen, id, x);
                lemma_pushed(before, id, x);
                assert(members@.take(i + 1) =~= seen.push(id));
            }
            i = i + 1;
        }
        assert(members@.take(members@.len() as int) =~= members@);
        assert(out@.to_set() =~= members@.to_set()) by {
            assert forall|x: u64| out@.to_set().contains(x) <==> members@.to_set().contains(x) by {
                assert(out@.contains(x) <==> members@.contains(x));
            }
        }
        self.members = out;
    }
}

proof fn lemma_pushed(s: Seq<u64>, id: u64, x: u64)
    ensures
        s.push(id).contains(x) <==> s.contains(x) || x == id,
{
    if s.contains(x) {
        let k = s.index_of(x);
        assert(s.push(id)[k] == x);
    }
    if x == id {
        assert(s.push(id).last() == x);
    }
    if s.push(id).contains(x) && x != id {
        let k = s.push(id).index_of(x);
        assert(s[k] == x);
    }
}

fn has(v: &Vec<u64>, x: u64) -> (r: bool)
    ensures
        r == v@.contains(x),
{
    let mut i: usize = 0;
    while i < v.len()
        invariant
            i <= v@.len(),
            forall|j: int| 0 <= j < i ==> #[trigger] v@[j] != x,
        decreases v@.len() - i,
    {
        if v[i] == x {
            return true;
        }
        i = i + 1;
    }
    false
}

/// The id that a seed names: the part of its name before the first dot, if that is
/// a number.
pub open spec fn seed_id(seed: Seq<char>) -> Option<u64> {
    match parse_unsigned_spec(split_on(seed, '.')[0], u64::MAX as nat) {
        Ok(id) => Some(id as u64),
        Err(_) => None,
    }
}

proof fn lemma_split_not_empty(s: Seq<char>, sep: char)
    ensures
        split_on(s, sep).len() > 0,
    decreases s.len(),
{
    if s.len() > 0 {
        lemma_split_not_empty(s.drop_last(), sep);
    }
}

/// The id that a seed names.
pub fn parse_seed(seed: &str) -> (r: Option<u64>)
    ensures
        r == seed_id(seed@),
{
    let chars = to_chars(seed);
    let pieces = split_pieces(&chars, 0, '.');
    proof {
        assert(chars@.skip(0) =~= seed@);
        lemma_split_not_empty(seed@, '.');
        assert(texts(pieces@)[0] == pieces@[0]@);
    }
    match parse_unsigned(pieces[0].as_str(), u64::MAX) {
        Ok(id) => Some(id),
        Err(_) => None,
    }
}

/// Whether `id` is the local node or is named by a seed.
pub open spec fn is_static_member(node_id: u64, seeds: Seq<Seq<char>>, id: u64) -> bool {
    id == node_id || exists|i: int|
        0 <= i < seeds.len() && seed_id(#[trigger] seeds[i]) == Some(id)
}

/// The static members: the local node, and the nodes that the seeds name.
pub fn start_gossip(node_id: u64, seed_nodes: &Vec<String>) -> (r: ClusterMembers)
    ensures
        r.node_id == node_id,
        r.well_formed(),
        forall|id: u64| #[trigger]
            r@.contains(id) <==> is_static_member(node_id, texts(seed_nodes@), id),
{
    let ghost all = texts(seed_nodes@);
    let mut ids: Vec<u64> = Vec::new();
    ids.push(node_id);
    let mut i: usize = 0;
    assert(ids@ =~= seq![node_id]);
    assert forall|id: u64| #[trigger] ids@.contains(id) <==> is_static_member(
        node_id,
        all.take(0),
        id,
    ) by {
        lemma_pushed(Seq::empty(), node_id, id);
        assert(Seq::<u64>::empty().push(node_id) =~= ids@);
    }
    while i < seed_nodes.len()
        invariant
            i <= seed_nodes@.len(),
            all == texts(seed_nodes@),
            forall|id: u64| #[trigger]
                ids@.contains(id) <==> is_static_member(node_id, all.take(i as int), id),
        decreases seed_nodes@.len() - i,
    {
        let ghost before = ids@;
        let named = parse_seed(seed_nodes[i].as_str());
        if let Some(id) = named {
            ids.push(id);
        }
        assert forall|id: u64| #[trigger] ids@.contains(id) <==> is_static_member(
            node_id,
            all.take(i + 1),
            id,
        ) by {
            let (short, long) = (all.take(i as int), all.take(i + 1));
            assert(long[i as int] == seed_nodes@[i as int]@);
            if let Some(x) = named {
                lemma_pushed(before, x, id);
            }
            if is_static_member(node_id, short, id) && id != node_id {
                let k = choose|k: int|
                    0 <= k < short.len() && seed_id(#[trigger] short[k]) == Some(id);
                assert(seed_id(long[k]) == Some(id));
            }
            if is_static_member(node_id, long, id) && id != node_id {
                let k = choose|k: int|
                    0 <= k < long.len() && seed_id(#[trigger] long[k]) == Some(id);
                if k < i {
                    assert(seed_id(short[k]) == Some(id));
                }
            }
        }
        i = i + 1;
    }
    assert(all.take(all.len() as int) =~= all);
    let mut members = ClusterMembers::new(node_id);
    members.update(&ids);
    assert forall|id: u64| #[trigger] members@.contains(id) <==> is_static_member(
        node_id,
        all,
        id,
    ) by {
        assert(ids@.contains(id) <==> ids@.to_set().contains(id));
    }
    members
}

/// A seed whose name begins with a number and a dot, or is a number, names the node with that
/// number as its id.
pub proof fn law_seed_names_its_node(id: u64, rest: Seq<char>)
    ensures
        seed_id(decimal(id as nat)) == Some(id),
        seed_id(decimal(id as nat) + seq!['.'] + rest) == Some(id),
{
    let d = decimal(id as nat);
    lemma_parse_decimal(id as nat, u64::MAX as nat);
    lemma_decimal_reads_back(id as nat);
    assert forall|j: int| 0 <= j < d.len() implies #[trigger] d[j] != '.' by {
        assert(is_digit(d[j]));
    }
    lemma_first_piece(d, Seq::empty(), '.');
    assert(d + Seq::<char>::empty() =~= d);
    lemma_first_piece(d, seq!['.'] + rest, '.');
    assert(d + (seq!['.'] + rest) =~= d + seq!['.'] + rest);
}

/// The first piece of a text is what stands before the first separator.
proof fn lemma_first_piece(d: Seq<char>, rest: Seq<char>, sep: char)
    requires
        forall|j: int| 0 <= j < d.len() ==> #[trigger] d[j] != sep,
        rest.len() == 0 || rest[0] == sep,
    ensures
        split_on(d + rest, sep).len() > 0,
        split_on(d + rest, sep)[0] == d,
        rest.len() == 0 ==> split_on(d + rest, sep).len() == 1,
    decreases d.len() + rest.len(),
{
    let s = d + rest;
    if s.len() == 0 {
        assert(d =~= Seq::<char>::empty());
    } else if rest.len() > 0 {
        let fewer = rest.drop_last();
        lemma_first_piece(d, fewer, sep);
        assert(s.drop_last() =~= d + fewer);
        if rest.len() == 1 {
            assert(s.last() == sep);
        } else {
            lemma_more_pieces(d, fewer, sep);
        }
    } else {
        let e = d.drop_last();
        assert forall|j: int| 0 <= j < e.len() implies #[trigger] e[j] != sep by {
            assert(e[j] == d[j]);
        }
        lemma_first_piece(e, rest, sep);
        assert(s.drop_last() =~= e + rest);
        assert(s =~= d);
        assert(d.last() == d[d.len() - 1]);
        assert(e.push(d.last()) =~= d);
    }
}

proof fn lemma_more_pieces(d: Seq<char>, rest: Seq<char>, sep: char)
    requires
        rest.len() > 0,
        rest[0] == sep,
    ensures
        split_on(d + rest, sep).len() > 1,
    decreases rest.len(),
{
    let s = d + rest;
    lemma_split_not_empty(s.drop_last(), sep);
    if rest.len() == 1 {
        assert(s.last() == sep);
    } else {
        lemma_more_pieces(d, rest.drop_last(), sep);
        assert(s.drop_last() =~= d + rest.drop_last());
    }
}

} // verus!
