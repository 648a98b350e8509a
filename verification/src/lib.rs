//! Enumeration of the elementary cycles of a directed graph built from
//! labeled relationship edges. Every directed simple cycle is reported as the
//! ordered sequence of the relationship identifiers along it, rotated so that
//! the lexicographically smallest identifier comes first.

pub mod order;
pub mod canon;
pub mod edges;
pub mod cycles;
pub mod graph;

use vstd::prelude::*;
use crate::canon::{canonical, canonicalize, is_rotation_of, rotate_left};
use crate::cycles::{
    LookupFailure, all_pairs_mapped, cycle_ids, cycle_pair, cycle_to_ids, edge_pairs,
    is_simple_cycle, last_id_of_pair, lemma_pair_has_id,
};
use crate::edges::{
    build_edges, build_node_table, edge_seq_view, edges_of, extract_self_loops,
    lemma_node_table_len, lemma_proper_edges_len, lemma_proper_edges_no_loops, proper_edges,
    rel_views, self_loop_ids,
};
use crate::graph::{build_graph, graph_edge_list, graph_simple_cycles};

verus! {

/// The indexed edges of a relationship list: one edge per triple, endpoints
/// replaced by their node table positions.
pub open spec fn analysis_edges(rels: Seq<(String, String, String)>) -> Seq<
    (Seq<char>, usize, usize),
> {
    edges_of(rel_views(rels))
}

/// The indexed edges that are not self loops: the graph the enumeration runs
/// on.
pub open spec fn working_edges(rels: Seq<(String, String, String)>) -> Seq<
    (Seq<char>, usize, usize),
> {
    proper_edges(analysis_edges(rels))
}

/// The identifiers of the self-loop edges, each of which becomes one
/// single-element cycle.
pub open spec fn self_loop_cycle_ids(rels: Seq<(String, String, String)>) -> Seq<Seq<char>> {
    self_loop_ids(analysis_edges(rels))
}

/// `ids` is the canonical identifier sequence of some simple cycle over the
/// edge list `es`: a closed walk of actual node transitions repeating no
/// node, translated pair by pair and canonically rotated.
pub open spec fn canonical_cycle_of(
    es: Seq<(Seq<char>, usize, usize)>,
    ids: Seq<Seq<char>>,
) -> bool {
    exists|c: Seq<usize>|
        is_simple_cycle(edge_pairs(es), c) && ids == canonical(#[trigger] cycle_ids(es, c))
}

/// The first `m` entries of `out` are the canonical translations of `m`
/// pairwise non-equivalent simple cycles of `es`: no logical cycle stands
/// behind two entries, so each distinct elementary cycle is reported at most
/// once.
pub open spec fn distinct_cycle_enumeration(
    es: Seq<(Seq<char>, usize, usize)>,
    out: Seq<Seq<Seq<char>>>,
    m: int,
) -> bool {
    exists|cs: Seq<Seq<usize>>|
        #![trigger cs.len()]
        {
            &&& cs.len() == m
            &&& (forall|k: int| 0 <= k < m ==> is_simple_cycle(edge_pairs(es), #[trigger] cs[k]))
            &&& (forall|k1: int, k2: int|
                0 <= k1 < k2 < m ==> !is_rotation_of(#[trigger] cs[k1], #[trigger] cs[k2]))
            &&& (forall|k: int| 0 <= k < m ==> out[k] == canonical(cycle_ids(es, #[trigger] cs[k])))
        }
}

/// Finds every directed simple cycle of the graph whose edges are the given
/// `(relationship, source, destination)` triples, each distinct cycle once.
/// Each cycle is reported as the canonically rotated sequence of the
/// relationship identifiers along it; each self-loop edge is reported as one
/// single-element cycle, placed after the multi-node cycles. The collection
/// has no defined inter-cycle order.
///
/// The length bound is forced by the working graph's `u32` node and edge
/// indices.
pub fn find_cycles(relationships: Vec<(String, String, String)>) -> (r: Result<
    Vec<Vec<String>>,
    LookupFailure,
>)
    requires
        relationships@.len() < 0x8000_0000,
    ensures
        r.is_ok(),
        match r {
            Ok(cycles) => ({
                let out = cycles.deep_view();
                let es = working_edges(relationships@);
                let pairs = edge_pairs(es);
                let sids = self_loop_cycle_ids(relationships@);
                let m = out.len() - sids.len();
                &&& out.len() >= sids.len()
                &&& (forall|k: int| 0 <= k < sids.len() ==> #[trigger] out[m + k] == seq![sids[k]])
                &&& (forall|k: int| 0 <= k < m ==> canonical_cycle_of(es, #[trigger] out[k]))
                &&& (forall|k: int| 0 <= k < m ==> (#[trigger] out[k]).len() >= 2)
                &&& distinct_cycle_enumeration(es, out, m)
                &&& (forall|c: Seq<usize>|
                    #[trigger] is_simple_cycle(pairs, c) ==> exists|k: int, j: int|
                        0 <= k < m && 0 <= j < c.len() && out[k] == canonical(
                            cycle_ids(es, rotate_left(c, j)),
                        ))
                &&& ((sids.len() == 0 && (forall|c: Seq<usize>|
                    !#[trigger] is_simple_cycle(pairs, c))) ==> out.len() == 0)
            }),
            Err(_) => false,
        },
{
    let ghost rv = rel_views(relationships@);
    let tbl = build_node_table(&relationships);
    let all_edges = build_edges(&relationships, &tbl);
    let (loop_id_list, rest) = extract_self_loops(&all_edges);
    let ghost av = edge_seq_view(all_edges@);
    let ghost es_v = edge_seq_view(rest@);
    let ghost pairs = edge_pairs(es_v);
    let ghost sids = self_loop_ids(av);
    proof {
        assert(av == analysis_edges(relationships@));
        assert(es_v == working_edges(relationships@));
        assert(sids == self_loop_cycle_ids(relationships@));
        lemma_node_table_len(rv);
        lemma_proper_edges_len(av);
        assert(rest@.len() == es_v.len());
        lemma_proper_edges_no_loops(av);
        assert forall|q: int| 0 <= q < pairs.len() implies (#[trigger] pairs[q]).0
            != pairs[q].1 by {
            assert(pairs[q] == (es_v[q].1, es_v[q].2));
        }
        assert forall|p: int| 0 <= p < rest@.len() implies (#[trigger] rest@[p]).src < tbl@.len()
            && rest@[p].dst < tbl@.len() by {
            let q = choose|q: int| 0 <= q < all_edges@.len() && rest@[p]@ == all_edges@[q]@;
            assert(rest@[p]@.1 == all_edges@[q]@.1 && rest@[p]@.2 == all_edges@[q]@.2);
        }
    }
    let n = tbl.len();
    let g = build_graph(n, &rest);
    let ncs = graph_simple_cycles(&g);
    let ghost ndv = ncs.deep_view();
    proof {
        assert(graph_edge_list(g) == pairs);
        assert(ndv.len() == ncs@.len());
    }
    let mut out: Vec<Vec<String>> = Vec::new();
    let mut k: usize = 0;
    while k < ncs.len()
        invariant
            0 <= k <= ncs@.len(),
            out@.len() == k,
            ndv == ncs.deep_view(),
            ndv.len() == ncs@.len(),
            es_v == edge_seq_view(rest@),
            pairs == edge_pairs(es_v),
            forall|p: int| 0 <= p < ndv.len() ==> is_simple_cycle(pairs, #[trigger] ndv[p]),
            forall|q: int| 0 <= q < pairs.len() ==> (#[trigger] pairs[q]).0 != pairs[q].1,
            forall|p: int| 0 <= p < k ==> #[trigger] out.deep_view()[p] == canonical(
                cycle_ids(es_v, ndv[p]),
            ),
            forall|p: int| 0 <= p < k ==> (#[trigger] out.deep_view()[p]).len() >= 2,
        decreases ncs@.len() - k,
    {
        let c = &ncs[k];
        proof {
            assert(ncs@[k as int].deep_view() =~= ncs@[k as int]@);
            assert(ndv[k as int] == c@);
            assert(is_simple_cycle(pairs, c@));
            assert forall|i: int| 0 <= i < c@.len() implies last_id_of_pair(
                es_v,
                #[trigger] cycle_pair(c@, i),
            ).is_some() by {
                assert(pairs.contains(cycle_pair(c@, i)));
                lemma_pair_has_id(es_v, cycle_pair(c@, i));
            }
            assert(all_pairs_mapped(es_v, c@));
            if c@.len() == 1 {
                assert(pairs.contains(cycle_pair(c@, 0)));
                let q = choose|q: int| 0 <= q < pairs.len() && pairs[q] == cycle_pair(c@, 0);
                assert(cycle_pair(c@, 0) == (c@[0], c@[0]));
                assert(false);
            }
        }
        let ids = match cycle_to_ids(&rest, c) {
            Ok(v) => v,
            Err(e) => {
                proof {
                    assert(false);
                }
                return Err(e);
            },
        };
        let rotated = canonicalize(&ids);
        proof {
            assert(rotated.deep_view() == canonical(cycle_ids(es_v, ndv[k as int])));
        }
        let ghost odv = out.deep_view();
        let ghost rdv = rotated.deep_view();
        out.push(rotated);
        proof {
            assert(out.deep_view() =~= odv.push(rdv));
        }
        k = k + 1;
    }
    let ghost m = ncs@.len() as int;
    let mut t: usize = 0;
    while t < loop_id_list.len()
        invariant
            0 <= t <= loop_id_list@.len(),
            out@.len() == m + t,
            m == ncs@.len(),
            ndv == ncs.deep_view(),
            ndv.len() == ncs@.len(),
            es_v == edge_seq_view(rest@),
            pairs == edge_pairs(es_v),
            sids == loop_id_list.deep_view(),
            sids.len() == loop_id_list@.len(),
            forall|p: int| 0 <= p < ndv.len() ==> is_simple_cycle(pairs, #[trigger] ndv[p]),
            forall|p: int| 0 <= p < m ==> #[trigger] out.deep_view()[p] == canonical(
                cycle_ids(es_v, ndv[p]),
            ),
            forall|p: int| 0 <= p < m ==> (#[trigger] out.deep_view()[p]).len() >= 2,
            forall|p: int| 0 <= p < t ==> #[trigger] out.deep_view()[m + p] == seq![sids[p]],
        decreases loop_id_list@.len() - t,
    {
        let mut one: Vec<String> = Vec::new();
        one.push(loop_id_list[t].clone());
        proof {
            assert(one.deep_view() =~= seq![sids[t as int]]);
        }
        let ghost odv = out.deep_view();
        let ghost sdv = one.deep_view();
        out.push(one);
        proof {
            assert(out.deep_view() =~= odv.push(sdv));
        }
        t = t + 1;
    }
    proof {
        let outv = out.deep_view();
        let es2 = working_edges(relationships@);
        let pairs2 = edge_pairs(es2);
        assert(es2 == es_v && pairs2 == pairs);
        assert(outv.len() == m + sids.len());
        assert forall|k2: int| 0 <= k2 < m implies canonical_cycle_of(es2, #[trigger] outv[k2]) by {
            assert(is_simple_cycle(pairs2, ndv[k2]));
            assert(outv[k2] == canonical(cycle_ids(es2, ndv[k2])));
        }
        assert(ndv.len() == m);
        assert forall|k2: int| 0 <= k2 < m implies is_simple_cycle(
            pairs2,
            #[trigger] ndv[k2],
        ) by {}
        assert forall|k2: int| 0 <= k2 < m implies outv[k2] == canonical(
            cycle_ids(es2, #[trigger] ndv[k2]),
        ) by {}
        assert(distinct_cycle_enumeration(es2, outv, m));
        assert forall|c: Seq<usize>| #[trigger] is_simple_cycle(pairs, c) implies exists|
            k2: int,
            j: int,
        |
            0 <= k2 < m && 0 <= j < c.len() && outv[k2] == canonical(
                cycle_ids(es_v, rotate_left(c, j)),
            ) by {
            if c.len() == 1 {
                assert(pairs.contains(cycle_pair(c, 0)));
                let q = choose|q: int| 0 <= q < pairs.len() && pairs[q] == cycle_pair(c, 0);
                assert(cycle_pair(c, 0) == (c[0], c[0]));
                assert(false);
            }
            let k2 = choose|k2: int| 0 <= k2 < ndv.len() && is_rotation_of(ndv[k2], c);
            let j = choose|j: int| 0 <= j < c.len() && ndv[k2] == rotate_left(c, j);
            assert(outv[k2] == canonical(cycle_ids(es_v, rotate_left(c, j))));
        }
        if sids.len() == 0 && (forall|c: Seq<usize>| !#[trigger] is_simple_cycle(pairs, c)) {
            if m > 0 {
                assert(is_simple_cycle(pairs, ndv[0]));
            }
        }
    }
    Ok(out)
}

} // verus!
