//! Construction of the internal graph representation: every distinct node
//! identifier is assigned a stable integer index (in order of first
//! appearance), each relationship triple becomes an indexed edge, and
//! self-loop edges are split off from the working edge list.

use vstd::prelude::*;

verus! {

/// An edge of the internal graph: the relationship identifier together with
/// the integer indices of its source and destination nodes.
pub struct Edge {
    pub id: String,
    pub src: usize,
    pub dst: usize,
}

impl View for Edge {
    type V = (Seq<char>, usize, usize);

    open spec fn view(&self) -> (Seq<char>, usize, usize) {
        (self.id@, self.src, self.dst)
    }
}

/// The views of a relationship triple's three identifier strings.
pub open spec fn rel_views(rels: Seq<(String, String, String)>) -> Seq<
    (Seq<char>, Seq<char>, Seq<char>),
> {
    rels.map_values(|t: (String, String, String)| (t.0@, t.1@, t.2@))
}

pub open spec fn edge_seq_view(es: Seq<Edge>) -> Seq<(Seq<char>, usize, usize)> {
    es.map_values(|e: Edge| e@)
}

/// Appends `id` to the table unless it is already present.
pub open spec fn insert_id(tbl: Seq<Seq<char>>, id: Seq<char>) -> Seq<Seq<char>> {
    if tbl.contains(id) {
        tbl
    } else {
        tbl.push(id)
    }
}

/// The node identifier table of an edge list: every distinct source or
/// destination identifier, in order of first appearance.
pub open spec fn node_table(rv: Seq<(Seq<char>, Seq<char>, Seq<char>)>) -> Seq<Seq<char>>
    decreases rv.len(),
{
    if rv.len() == 0 {
        Seq::empty()
    } else {
        insert_id(insert_id(node_table(rv.drop_last()), rv.last().1), rv.last().2)
    }
}

/// The position of the first occurrence of `id` in `tbl`.
pub open spec fn first_idx(tbl: Seq<Seq<char>>, id: Seq<char>) -> int
    decreases tbl.len(),
{
    if tbl.len() == 0 {
        0
    } else if tbl[0] == id {
        0
    } else {
        1 + first_idx(tbl.drop_first(), id)
    }
}

pub proof fn lemma_first_idx(tbl: Seq<Seq<char>>, id: Seq<char>)
    requires
        tbl.contains(id),
    ensures
        0 <= first_idx(tbl, id) < tbl.len(),
        tbl[first_idx(tbl, id)] == id,
        forall|j: int| 0 <= j < first_idx(tbl, id) ==> tbl[j] != id,
    decreases tbl.len(),
{
    if tbl[0] != id {
        let t = tbl.drop_first();
        let w = choose|w: int| 0 <= w < tbl.len() && tbl[w] == id;
        assert(t[w - 1] == id);
        assert(t.contains(id));
        lemma_first_idx(t, id);
        assert forall|j: int| 0 <= j < first_idx(tbl, id) implies tbl[j] != id by {
            if j > 0 {
                assert(t[j - 1] == tbl[j]);
            }
        }
    }
}

/// The first occurrence position characterizes `first_idx` uniquely.
pub proof fn lemma_first_idx_unique(tbl: Seq<Seq<char>>, id: Seq<char>, i: int)
    requires
        0 <= i < tbl.len(),
        tbl[i] == id,
        forall|j: int| 0 <= j < i ==> tbl[j] != id,
    ensures
        first_idx(tbl, id) == i,
{
    assert(tbl.contains(id));
    lemma_first_idx(tbl, id);
    let f = first_idx(tbl, id);
    if f < i {
        assert(tbl[f] != id);
    }
    if i < f {
        assert(tbl[i] != id);
    }
}

proof fn lemma_insert_id_contains(tbl: Seq<Seq<char>>, id: Seq<char>)
    ensures
        insert_id(tbl, id).contains(id),
        forall|x: Seq<char>| tbl.contains(x) ==> #[trigger] insert_id(tbl, id).contains(x),
{
    let r = insert_id(tbl, id);
    if !tbl.contains(id) {
        assert(r[tbl.len() as int] == id);
        assert(r.contains(id));
    }
    assert forall|x: Seq<char>| tbl.contains(x) implies #[trigger] r.contains(x) by {
        let w = choose|w: int| 0 <= w < tbl.len() && tbl[w] == x;
        assert(r[w] == x);
    }
}

/// Every source and destination identifier of the edge list is in its node
/// table.
pub proof fn lemma_node_table_contains(rv: Seq<(Seq<char>, Seq<char>, Seq<char>)>, k: int)
    requires
        0 <= k < rv.len(),
    ensures
        node_table(rv).contains(rv[k].1),
        node_table(rv).contains(rv[k].2),
    decreases rv.len(),
{
    let prev = node_table(rv.drop_last());
    let mid = insert_id(prev, rv.last().1);
    lemma_insert_id_contains(prev, rv.last().1);
    lemma_insert_id_contains(mid, rv.last().2);
    if k < rv.len() - 1 {
        lemma_node_table_contains(rv.drop_last(), k);
        assert(rv.drop_last()[k] == rv[k]);
    }
}

/// Returns the position of the first occurrence of `id` in `tbl`, or `None`
/// when `id` does not occur.
pub fn index_of(tbl: &Vec<String>, id: &String) -> (r: Option<usize>)
    ensures
        match r {
            Some(i) => i < tbl@.len() && tbl.deep_view()[i as int] == id@ && (forall|j: int|
                0 <= j < i ==> tbl.deep_view()[j] != id@),
            None => forall|j: int| 0 <= j < tbl@.len() ==> tbl.deep_view()[j] != id@,
        },
{
    let ghost dv = tbl.deep_view();
    let mut i: usize = 0;
    while i < tbl.len()
        invariant
            0 <= i <= tbl@.len(),
            dv == tbl.deep_view(),
            forall|j: int| 0 <= j < i ==> dv[j] != id@,
        decreases tbl@.len() - i,
    {
        if tbl[i] == *id {
            return Some(i);
        }
        i = i + 1;
    }
    None
}

/// Builds the node identifier table: each distinct identifier, in order of
/// first appearance as a source or destination.
pub fn build_node_table(rels: &Vec<(String, String, String)>) -> (tbl: Vec<String>)
    ensures
        tbl.deep_view() == node_table(rel_views(rels@)),
{
    let ghost rv = rel_views(rels@);
    let mut tbl: Vec<String> = Vec::new();
    let mut k: usize = 0;
    proof {
        assert(rv.take(0) =~= Seq::empty());
        assert(tbl.deep_view() =~= node_table(rv.take(0)));
    }
    while k < rels.len()
        invariant
            0 <= k <= rels@.len(),
            rv == rel_views(rels@),
            rv.len() == rels@.len(),
            tbl.deep_view() == node_table(rv.take(k as int)),
        decreases rels@.len() - k,
    {
        let ghost prev = node_table(rv.take(k as int));
        proof {
            assert(rv.take(k + 1).drop_last() =~= rv.take(k as int));
            assert(rv.take(k + 1).last() == rv[k as int]);
            assert(rv[k as int].1 == rels@[k as int].1@);
            assert(rv[k as int].2 == rels@[k as int].2@);
        }
        match index_of(&tbl, &rels[k].1) {
            None => {
                tbl.push(rels[k].1.clone());
                proof {
                    assert(!prev.contains(rv[k as int].1));
                    assert(tbl.deep_view() =~= prev.push(rv[k as int].1));
                }
            },
            Some(_) => {
                proof {
                    assert(prev.contains(rv[k as int].1));
                }
            },
        }
        let ghost mid = insert_id(prev, rv[k as int].1);
        proof {
            assert(tbl.deep_view() == mid);
        }
        match index_of(&tbl, &rels[k].2) {
            None => {
                tbl.push(rels[k].2.clone());
                proof {
                    assert(!mid.contains(rv[k as int].2));
                    assert(tbl.deep_view() =~= mid.push(rv[k as int].2));
                }
            },
            Some(_) => {
                proof {
                    assert(mid.contains(rv[k as int].2));
                }
            },
        }
        proof {
            assert(tbl.deep_view() == node_table(rv.take(k + 1)));
        }
        k = k + 1;
    }
    proof {
        assert(rv.take(rv.len() as int) =~= rv);
    }
    tbl
}

/// The indexed edge list of a relationship list: each triple keeps its
/// identifier and maps its endpoints to their node table positions.
pub open spec fn edges_of(rv: Seq<(Seq<char>, Seq<char>, Seq<char>)>) -> Seq<
    (Seq<char>, usize, usize),
> {
    rv.map_values(
        |r: (Seq<char>, Seq<char>, Seq<char>)|
            (r.0, first_idx(node_table(rv), r.1) as usize, first_idx(node_table(rv), r.2) as usize),
    )
}

/// Builds the indexed edge list of `rels` against its node table `tbl`.
pub fn build_edges(rels: &Vec<(String, String, String)>, tbl: &Vec<String>) -> (es: Vec<Edge>)
    requires
        tbl.deep_view() == node_table(rel_views(rels@)),
    ensures
        edge_seq_view(es@) == edges_of(rel_views(rels@)),
        es@.len() == rels@.len(),
        forall|k: int| 0 <= k < es@.len() ==> es@[k].src < tbl@.len() && es@[k].dst < tbl@.len(),
{
    let ghost rv = rel_views(rels@);
    let ghost nt = node_table(rv);
    let mut es: Vec<Edge> = Vec::new();
    let mut k: usize = 0;
    while k < rels.len()
        invariant
            0 <= k <= rels@.len(),
            rv == rel_views(rels@),
            nt == node_table(rv),
            rv.len() == rels@.len(),
            tbl.deep_view() == nt,
            tbl@.len() == nt.len(),
            es@.len() == k,
            forall|p: int| 0 <= p < k ==> #[trigger] es@[p]@ == edges_of(rv)[p],
            forall|p: int| 0 <= p < k ==> es@[p].src < tbl@.len() && es@[p].dst < tbl@.len(),
        decreases rels@.len() - k,
    {
        proof {
            lemma_node_table_contains(rv, k as int);
            lemma_first_idx(nt, rv[k as int].1);
            lemma_first_idx(nt, rv[k as int].2);
            assert(rv[k as int].1 == rels@[k as int].1@);
            assert(rv[k as int].2 == rels@[k as int].2@);
            assert(rv[k as int].0 == rels@[k as int].0@);
        }
        let src = match index_of(tbl, &rels[k].1) {
            Some(i) => i,
            None => {
                proof {
                    assert(false);
                }
                0
            },
        };
        let dst = match index_of(tbl, &rels[k].2) {
            Some(i) => i,
            None => {
                proof {
                    assert(false);
                }
                0
            },
        };
        proof {
            lemma_first_idx_unique(nt, rv[k as int].1, src as int);
            lemma_first_idx_unique(nt, rv[k as int].2, dst as int);
        }
        es.push(Edge { id: rels[k].0.clone(), src, dst });
        k = k + 1;
    }
    proof {
        assert(edge_seq_view(es@) =~= edges_of(rv));
    }
    es
}

/// The identifiers of the self-loop edges of `es`, in order.
pub open spec fn self_loop_ids(es: Seq<(Seq<char>, usize, usize)>) -> Seq<Seq<char>>
    decreases es.len(),
{
    if es.len() == 0 {
        Seq::empty()
    } else {
        self_loop_ids(es.drop_last()) + (if es.last().1 == es.last().2 {
            seq![es.last().0]
        } else {
            Seq::empty()
        })
    }
}

/// The edges of `es` that are not self loops, in order.
pub open spec fn proper_edges(es: Seq<(Seq<char>, usize, usize)>) -> Seq<(Seq<char>, usize, usize)>
    decreases es.len(),
{
    if es.len() == 0 {
        Seq::empty()
    } else {
        proper_edges(es.drop_last()) + (if es.last().1 != es.last().2 {
            seq![es.last()]
        } else {
            Seq::empty()
        })
    }
}

/// The node table holds at most two identifiers per edge.
pub proof fn lemma_node_table_len(rv: Seq<(Seq<char>, Seq<char>, Seq<char>)>)
    ensures
        node_table(rv).len() <= 2 * rv.len(),
    decreases rv.len(),
{
    if rv.len() > 0 {
        lemma_node_table_len(rv.drop_last());
    }
}

/// Dropping the self loops does not lengthen the edge list.
pub proof fn lemma_proper_edges_len(es: Seq<(Seq<char>, usize, usize)>)
    ensures
        proper_edges(es).len() <= es.len(),
    decreases es.len(),
{
    if es.len() > 0 {
        lemma_proper_edges_len(es.drop_last());
    }
}

/// No edge kept by `proper_edges` is a self loop.
pub proof fn lemma_proper_edges_no_loops(es: Seq<(Seq<char>, usize, usize)>)
    ensures
        forall|p: int| 0 <= p < proper_edges(es).len() ==> (#[trigger] proper_edges(es)[p]).1
            != proper_edges(es)[p].2,
    decreases es.len(),
{
    if es.len() > 0 {
        lemma_proper_edges_no_loops(es.drop_last());
        let pe = proper_edges(es);
        let pp = proper_edges(es.drop_last());
        assert forall|p: int| 0 <= p < pe.len() implies (#[trigger] pe[p]).1 != pe[p].2 by {
            if p < pp.len() {
                assert(pe[p] == pp[p]);
            } else {
                assert(pe[p] == es.last());
            }
        }
    }
}

/// Splits the edge list: the identifiers of its self-loop edges (each
/// self-loop edge yields one entry), and the remaining proper edges.
pub fn extract_self_loops(es: &Vec<Edge>) -> (r: (Vec<String>, Vec<Edge>))
    ensures
        r.0.deep_view() == self_loop_ids(edge_seq_view(es@)),
        edge_seq_view(r.1@) == proper_edges(edge_seq_view(es@)),
        forall|p: int| 0 <= p < r.1@.len() ==> exists|q: int|
            0 <= q < es@.len() && (#[trigger] r.1@[p])@ == es@[q]@,
{
    let ghost ev = edge_seq_view(es@);
    let mut loops: Vec<String> = Vec::new();
    let mut rest: Vec<Edge> = Vec::new();
    let mut k: usize = 0;
    proof {
        assert(ev.take(0) =~= Seq::empty());
        assert(loops.deep_view() =~= self_loop_ids(ev.take(0)));
        assert(edge_seq_view(rest@) =~= proper_edges(ev.take(0)));
    }
    while k < es.len()
        invariant
            0 <= k <= es@.len(),
            ev == edge_seq_view(es@),
            ev.len() == es@.len(),
            loops.deep_view() == self_loop_ids(ev.take(k as int)),
            edge_seq_view(rest@) == proper_edges(ev.take(k as int)),
            forall|p: int| 0 <= p < rest@.len() ==> exists|q: int|
                0 <= q < es@.len() && (#[trigger] rest@[p])@ == es@[q]@,
        decreases es@.len() - k,
    {
        proof {
            assert(ev.take(k + 1).drop_last() =~= ev.take(k as int));
            assert(ev.take(k + 1).last() == ev[k as int]);
            assert(ev[k as int] == es@[k as int]@);
        }
        if es[k].src == es[k].dst {
            loops.push(es[k].id.clone());
            proof {
                assert(loops.deep_view() =~= self_loop_ids(ev.take(k + 1)));
                assert(edge_seq_view(rest@) =~= proper_edges(ev.take(k + 1)));
            }
        } else {
            rest.push(Edge { id: es[k].id.clone(), src: es[k].src, dst: es[k].dst });
            proof {
                assert(loops.deep_view() =~= self_loop_ids(ev.take(k + 1)));
                assert(edge_seq_view(rest@) =~= proper_edges(ev.take(k + 1)));
            }
        }
        k = k + 1;
    }
    proof {
        assert(ev.take(ev.len() as int) =~= ev);
    }
    (loops, rest)
}

} // verus!
