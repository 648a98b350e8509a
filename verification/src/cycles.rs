//! What a simple cycle of an indexed edge list is, and the translation of a
//! node-index cycle back into the relationship identifiers along it.

use vstd::prelude::*;
use crate::edges::{Edge, edge_seq_view};

verus! {

/// The `i`-th cyclically consecutive node pair of the cycle `c`.
pub open spec fn cycle_pair(c: Seq<usize>, i: int) -> (usize, usize) {
    (c[i], c[if i + 1 < c.len() {
        i + 1
    } else {
        0
    }])
}

/// `c` is a simple (elementary) cycle over the directed edge pairs `es`:
/// it is non-empty, repeats no node, and each cyclically consecutive node
/// pair is an edge.
pub open spec fn is_simple_cycle(es: Seq<(usize, usize)>, c: Seq<usize>) -> bool {
    &&& c.len() >= 1
    &&& (forall|i: int, j: int| 0 <= i < j < c.len() ==> c[i] != c[j])
    &&& (forall|i: int| 0 <= i < c.len() ==> es.contains(#[trigger] cycle_pair(c, i)))
}

/// The (source, destination) pairs of an indexed edge list.
pub open spec fn edge_pairs(es: Seq<(Seq<char>, usize, usize)>) -> Seq<(usize, usize)> {
    es.map_values(|e: (Seq<char>, usize, usize)| (e.1, e.2))
}

/// The identifier of the last edge of `es` over the ordered pair `p`: when
/// several edges share an ordered pair, the most recently supplied identifier
/// is retained.
pub open spec fn last_id_of_pair(es: Seq<(Seq<char>, usize, usize)>, p: (usize, usize)) -> Option<
    Seq<char>,
>
    decreases es.len(),
{
    if es.len() == 0 {
        None
    } else if es.last().1 == p.0 && es.last().2 == p.1 {
        Some(es.last().0)
    } else {
        last_id_of_pair(es.drop_last(), p)
    }
}

/// The identifier sequence of a node cycle: each cyclically consecutive node
/// pair translated through the pair-to-identifier lookup.
pub open spec fn cycle_ids(es: Seq<(Seq<char>, usize, usize)>, c: Seq<usize>) -> Seq<Seq<char>> {
    Seq::new(
        c.len(),
        |i: int|
            match last_id_of_pair(es, cycle_pair(c, i)) {
                Some(id) => id,
                None => Seq::empty(),
            },
    )
}

/// Every cyclically consecutive node pair of `c` has an identifier in `es`.
pub open spec fn all_pairs_mapped(es: Seq<(Seq<char>, usize, usize)>, c: Seq<usize>) -> bool {
    forall|i: int| 0 <= i < c.len() ==> last_id_of_pair(es, #[trigger] cycle_pair(c, i)).is_some()
}

/// A pair that occurs among the edges has an identifier in the lookup.
pub proof fn lemma_pair_has_id(es: Seq<(Seq<char>, usize, usize)>, p: (usize, usize))
    requires
        edge_pairs(es).contains(p),
    ensures
        last_id_of_pair(es, p).is_some(),
    decreases es.len(),
{
    if es.len() > 0 {
        if !(es.last().1 == p.0 && es.last().2 == p.1) {
            let w = choose|w: int| 0 <= w < edge_pairs(es).len() && edge_pairs(es)[w] == p;
            assert(edge_pairs(es)[w] == (es[w].1, es[w].2));
            assert(w < es.len() - 1);
            assert(edge_pairs(es.drop_last())[w] == p);
            assert(edge_pairs(es.drop_last()).contains(p));
            lemma_pair_has_id(es.drop_last(), p);
        }
    }
}

/// The defect signal of the analysis: a traversed node pair had no entry in
/// the pair-to-identifier lookup. Unreachable through a correctly built
/// graph; it reports an internal-invariant violation, not bad input.
#[derive(Debug)]
pub struct LookupFailure {
    pub src: usize,
    pub dst: usize,
}

impl LookupFailure {
    /// A diagnostic message for the defect.
    pub fn message(&self) -> (r: String)
        ensures
            r@ == "Edge not found in relationship map"@,
    {
        String::from_str("Edge not found in relationship map")
    }
}

/// Looks up the identifier of the last edge over the ordered pair `(a, b)`.
pub fn lookup_pair(edges: &Vec<Edge>, a: usize, b: usize) -> (r: Option<String>)
    ensures
        match r {
            Some(s) => last_id_of_pair(edge_seq_view(edges@), (a, b)) == Some(s@),
            None => last_id_of_pair(edge_seq_view(edges@), (a, b)).is_none(),
        },
{
    let ghost ev = edge_seq_view(edges@);
    let mut j: usize = edges.len();
    proof {
        assert(ev.take(ev.len() as int) =~= ev);
    }
    while j > 0
        invariant
            0 <= j <= edges@.len(),
            ev == edge_seq_view(edges@),
            ev.len() == edges@.len(),
            last_id_of_pair(ev, (a, b)) == last_id_of_pair(ev.take(j as int), (a, b)),
        decreases j,
    {
        proof {
            assert(ev.take(j as int).drop_last() =~= ev.take(j - 1));
            assert(ev.take(j as int).last() == ev[j - 1]);
            assert(ev[j - 1] == edges@[j - 1]@);
        }
        if edges[j - 1].src == a && edges[j - 1].dst == b {
            return Some(edges[j - 1].id.clone());
        }
        j = j - 1;
    }
    proof {
        assert(ev.take(0) =~= Seq::<(Seq<char>, usize, usize)>::empty());
    }
    None
}

/// Translates a node cycle into the relationship identifiers along it; fails
/// with the offending pair when some traversed pair has no identifier.
pub fn cycle_to_ids(edges: &Vec<Edge>, c: &Vec<usize>) -> (r: Result<Vec<String>, LookupFailure>)
    ensures
        match r {
            Ok(ids) => all_pairs_mapped(edge_seq_view(edges@), c@) && ids.deep_view() == cycle_ids(
                edge_seq_view(edges@),
                c@,
            ) && ids@.len() == c@.len(),
            Err(e) => last_id_of_pair(edge_seq_view(edges@), (e.src, e.dst)).is_none()
                && !all_pairs_mapped(edge_seq_view(edges@), c@),
        },
{
    let ghost ev = edge_seq_view(edges@);
    let mut ids: Vec<String> = Vec::new();
    let n = c.len();
    let mut i: usize = 0;
    while i < n
        invariant
            0 <= i <= n,
            n == c@.len(),
            ev == edge_seq_view(edges@),
            ids@.len() == i,
            forall|p: int| 0 <= p < i ==> last_id_of_pair(
                ev,
                #[trigger] cycle_pair(c@, p),
            ).is_some(),
            forall|p: int| 0 <= p < i ==> #[trigger] ids@[p]@ == cycle_ids(ev, c@)[p],
        decreases n - i,
    {
        let a = c[i];
        let b = if i + 1 < n {
            c[i + 1]
        } else {
            c[0]
        };
        proof {
            assert(cycle_pair(c@, i as int) == (a, b));
        }
        match lookup_pair(edges, a, b) {
            Some(id) => {
                ids.push(id);
            },
            None => {
                return Err(LookupFailure { src: a, dst: b });
            },
        }
        i = i + 1;
    }
    proof {
        assert(ids.deep_view() =~= cycle_ids(ev, c@));
    }
    Ok(ids)
}

} // verus!
