//! The working directed graph and the cycle enumeration behind trusted
//! contracts: the graph is petgraph's `DiGraph`, and the enumeration is
//! Johnson's elementary-circuit algorithm from rustworkx-core.

use vstd::prelude::*;
use crate::canon::is_rotation_of;
use crate::cycles::{edge_pairs, is_simple_cycle};
use crate::edges::{Edge, edge_seq_view};

verus! {

#[verifier::external_type_specification]
#[verifier::external_body]
#[verifier::reject_recursive_types(N)]
#[verifier::reject_recursive_types(E)]
#[verifier::reject_recursive_types(Ty)]
#[verifier::reject_recursive_types(Ix)]
pub struct ExGraph<N, E, Ty, Ix>(petgraph::graph::Graph<N, E, Ty, Ix>);

#[verifier::external_type_specification]
#[verifier::external_body]
pub struct ExDirected(petgraph::Directed);

/// The number of nodes of the working graph; its nodes are indexed 0 up to
/// this count.
pub uninterp spec fn graph_node_count(g: petgraph::graph::DiGraph<(), ()>) -> nat;

/// The directed edges of the working graph, as (source, destination) index
/// pairs in insertion order.
pub uninterp spec fn graph_edge_list(g: petgraph::graph::DiGraph<(), ()>) -> Seq<(usize, usize)>;

/// Relies on petgraph's `Graph::new`: the new graph has no nodes and no
/// edges.
#[verifier::external_body]
pub(crate) fn graph_new() -> (g: petgraph::graph::DiGraph<(), ()>)
    ensures
        graph_node_count(g) == 0,
        graph_edge_list(g) == Seq::<(usize, usize)>::empty(),
{
    petgraph::graph::DiGraph::new()
}

/// Relies on petgraph's `Graph::add_node`: it appends one node and returns
/// its index, which equals the former node count. Below the index-type
/// maximum of `u32` it does not panic.
#[verifier::external_body]
pub(crate) fn graph_add_node(g: &mut petgraph::graph::DiGraph<(), ()>) -> (i: usize)
    requires
        graph_node_count(*old(g)) < 0xffff_ffff,
    ensures
        i == graph_node_count(*old(g)),
        graph_node_count(*final(g)) == graph_node_count(*old(g)) + 1,
        graph_edge_list(*final(g)) == graph_edge_list(*old(g)),
{
    g.add_node(()).index()
}

/// Relies on petgraph's `Graph::add_edge`: it appends one directed edge from
/// `a` to `b`. With both endpoints present and the edge count below the
/// index-type maximum of `u32` it does not panic.
#[verifier::external_body]
pub(crate) fn graph_add_edge(g: &mut petgraph::graph::DiGraph<(), ()>, a: usize, b: usize)
    requires
        a < graph_node_count(*old(g)),
        b < graph_node_count(*old(g)),
        graph_edge_list(*old(g)).len() < 0xffff_ffff,
    ensures
        graph_node_count(*final(g)) == graph_node_count(*old(g)),
        graph_edge_list(*final(g)) == graph_edge_list(*old(g)).push((a, b)),
{
    g.add_edge(petgraph::graph::NodeIndex::new(a), petgraph::graph::NodeIndex::new(b), ());
}

/// Relies on rustworkx-core's `johnson_simple_cycles` (Johnson's
/// elementary-circuit algorithm): every sequence it yields is a simple cycle
/// of the graph, no cycle is yielded twice, and, on a graph without
/// self-loop edges, every simple cycle of two or more nodes is yielded, up
/// to rotation. Self loops are handled before enumeration, as its
/// documentation directs.
#[verifier::external_body]
pub(crate) fn graph_simple_cycles(g: &petgraph::graph::DiGraph<(), ()>) -> (r: Vec<Vec<usize>>)
    ensures
        forall|k: int| 0 <= k < r.deep_view().len() ==> is_simple_cycle(
            graph_edge_list(*g),
            #[trigger] r.deep_view()[k],
        ),
        forall|k1: int, k2: int| 0 <= k1 < k2 < r.deep_view().len() ==> !is_rotation_of(
            #[trigger] r.deep_view()[k1],
            #[trigger] r.deep_view()[k2],
        ),
        (forall|q: int|
            0 <= q < graph_edge_list(*g).len() ==> (#[trigger] graph_edge_list(*g)[q]).0
                != graph_edge_list(*g)[q].1) ==> (forall|c: Seq<usize>|
            #[trigger] is_simple_cycle(graph_edge_list(*g), c) && c.len() >= 2 ==> exists|k: int|
                0 <= k < r.deep_view().len() && is_rotation_of(#[trigger] r.deep_view()[k], c)),
{
    let mut it = rustworkx_core::connectivity::johnson_simple_cycles(g, None);
    let mut out: Vec<Vec<usize>> = Vec::new();
    while let Some(c) = it.next(g) {
        out.push(c.into_iter().map(|n| n.index()).collect());
    }
    out
}

/// Builds the working graph: `n` nodes indexed 0 to `n - 1`, and one directed
/// edge per entry of `edges`.
pub fn build_graph(n: usize, edges: &Vec<Edge>) -> (g: petgraph::graph::DiGraph<(), ()>)
    requires
        n < 0xffff_ffff,
        edges@.len() < 0xffff_ffff,
        forall|k: int| 0 <= k < edges@.len() ==> (#[trigger] edges@[k]).src < n && edges@[k].dst
            < n,
    ensures
        graph_node_count(g) == n,
        graph_edge_list(g) == edge_pairs(edge_seq_view(edges@)),
{
    let mut g = graph_new();
    let mut i: usize = 0;
    while i < n
        invariant
            0 <= i <= n,
            n < 0xffff_ffff,
            graph_node_count(g) == i,
            graph_edge_list(g) == Seq::<(usize, usize)>::empty(),
        decreases n - i,
    {
        let _ = graph_add_node(&mut g);
        i = i + 1;
    }
    let ghost pv = edge_pairs(edge_seq_view(edges@));
    let mut k: usize = 0;
    proof {
        assert(pv.len() == edges@.len());
        assert(pv.take(0) =~= graph_edge_list(g));
    }
    while k < edges.len()
        invariant
            0 <= k <= edges@.len(),
            edges@.len() < 0xffff_ffff,
            pv == edge_pairs(edge_seq_view(edges@)),
            pv.len() == edges@.len(),
            graph_node_count(g) == n,
            forall|p: int| 0 <= p < edges@.len() ==> (#[trigger] edges@[p]).src < n
                && edges@[p].dst < n,
            graph_edge_list(g) == pv.take(k as int),
        decreases edges@.len() - k,
    {
        proof {
            assert(pv[k as int] == (edges@[k as int].src, edges@[k as int].dst));
        }
        graph_add_edge(&mut g, edges[k].src, edges[k].dst);
        proof {
            assert(pv.take(k + 1) =~= pv.take(k as int).push(pv[k as int]));
        }
        k = k + 1;
    }
    proof {
        assert(pv.take(pv.len() as int) =~= pv);
    }
    g
}

} // verus!
