use vstd::prelude::*;

use crate::forest::{
    acyclic, lemma_spanning_forest_acyclic, lemma_spanning_forest_indices, spanning_forest, total_weight,
};
use crate::graph::{has_edge, Edge};
use crate::undirected_graph::{distinct_pairs, UndirectedGraph};

verus! {

/// The edges of `a` ordered by weight, equal weights in the order of `a`: what a stable sort
/// by weight returns.
pub uninterp spec fn sorted_by_weight(a: Seq<Edge>) -> Seq<Edge>;

/// `b` is `a` sorted by weight with equal weights kept in their order; `b[i]` is `a[p[i]]`.
pub open spec fn stable_sort_of(p: Seq<int>, a: Seq<Edge>, b: Seq<Edge>) -> bool {
    &&& p.len() == a.len()
    &&& b.len() == a.len()
    &&& forall|i: int| 0 <= i < b.len() ==> 0 <= #[trigger] p[i] < a.len() && b[i] == a[p[i]]
    &&& forall|i: int, j: int|
        0 <= i < j < b.len() ==> #[trigger] p[i] != #[trigger] p[j] && b[i].2 <= b[j].2 && (b[i].2 == b[j].2
            ==> p[i] < p[j])
}

/// The spanning forest that Kruskal's rule picks from `g`: its edges by ascending weight, equal
/// weights in the order of the edge list, each kept unless the edges kept before it already
/// join its endpoints.
pub open spec fn kruskal_tree(g: &UndirectedGraph) -> Seq<Edge> {
    spanning_forest(sorted_by_weight(g.edge_list()))
}

/// `t` is a forest of edges of `g`: no cycle, each edge of the edge list at most once, in
/// ascending weight.
pub open spec fn weight_ordered_forest(g: &UndirectedGraph, t: Seq<Edge>) -> bool {
    &&& acyclic(t)
    &&& t.no_duplicates()
    &&& forall|k: int| 0 <= k < t.len() ==> g.edge_list().contains(#[trigger] t[k])
    &&& forall|i: int, j: int| 0 <= i < j < t.len() ==> #[trigger] t[i].2 <= #[trigger] t[j].2
}

/// What Kruskal's rule keeps from the stably sorted edge list of `g` is a forest of edges of
/// `g` in ascending weight.
pub proof fn lemma_kruskal_tree_forest(g: &UndirectedGraph, sorted: Seq<Edge>)
    requires
        g.wf(),
        sorted == sorted_by_weight(g.edge_list()),
        exists|p: Seq<int>| stable_sort_of(p, g.edge_list(), sorted),
        distinct_pairs(sorted),
    ensures
        weight_ordered_forest(g, kruskal_tree(g)),
{
    let t = spanning_forest(sorted);
    let p = choose|p: Seq<int>| stable_sort_of(p, g.edge_list(), sorted);
    lemma_spanning_forest_acyclic(sorted);
    let ix = lemma_spanning_forest_indices(sorted);
    assert forall|k: int| 0 <= k < t.len() implies g.edge_list().contains(#[trigger] t[k]) by {
        assert(t[k] == sorted[ix[k]]);
        assert(sorted[ix[k]] == g.edge_list()[p[ix[k]]]);
    }
    assert forall|i: int, j: int| 0 <= i < j < t.len() implies #[trigger] t[i].2 <= #[trigger] t[j].2 by {
        assert(ix[i] < ix[j]);
        assert(p[ix[i]] != p[ix[j]]);
        assert(t[i] == sorted[ix[i]] && t[j] == sorted[ix[j]]);
    }
    assert forall|i: int, j: int| 0 <= i < t.len() && 0 <= j < t.len() && i != j implies t[i] != t[j] by {
        if i < j {
            assert(ix[i] < ix[j]);
        } else {
            assert(ix[j] < ix[i]);
        }
        assert(t[i] == sorted[ix[i]] && t[j] == sorted[ix[j]]);
    }
}

/// Relies on `slice::sort_by_key`, a stable sort: it orders the edges by weight and keeps
/// edges of equal weight in their order.
#[verifier::external_body]
fn sort_by_weight(es: &mut Vec<Edge>)
    ensures
        final(es)@ == sorted_by_weight(old(es)@),
        exists|p: Seq<int>| stable_sort_of(p, old(es)@, final(es)@),
{
    es.sort_by_key(|e| e.2);
}

/// A copy of `es`.
fn copy_edges(es: &Vec<Edge>) -> (r: Vec<Edge>)
    ensures
        r@ == es@,
{
    let mut r: Vec<Edge> = Vec::new();
    let mut i: usize = 0;
    while i < es.len()
        invariant
            i <= es.len(),
            r@ == es@.take(i as int),
        decreases es.len() - i,
    {
        r.push(es[i]);
        i = i + 1;
        assert(r@ =~= es@.take(i as int));
    }
    assert(es@.take(i as int) =~= es@);
    r
}

/// The edges of `g` sorted by weight, with what the sort keeps from the edge list.
pub(crate) fn sorted_edges(g: &UndirectedGraph) -> (r: Vec<Edge>)
    requires
        g.wf(),
    ensures
        r@ == sorted_by_weight(g.edge_list()),
        exists|p: Seq<int>| stable_sort_of(p, g.edge_list(), r@),
        distinct_pairs(r@),
        forall|k: int|
            0 <= k < r@.len() ==> #[trigger] r@[k].0 <= r@[k].1 && g.vertex_set().contains(r@[k].0)
                && g.vertex_set().contains(r@[k].1),
{
    let mut edges = copy_edges(g.get_edges());
    sort_by_weight(&mut edges);
    proof {
        let a = g.edge_list();
        let p = choose|p: Seq<int>| stable_sort_of(p, a, edges@);
        assert forall|k: int| 0 <= k < edges@.len() implies #[trigger] edges@[k].0 <= edges@[k].1
            && g.vertex_set().contains(edges@[k].0) && g.vertex_set().contains(edges@[k].1) by {
            assert(edges@[k] == a[p[k]]);
            assert(has_edge(g.adjacency(), a[p[k]].0, a[p[k]].1));
            assert(has_edge(g.adjacency(), a[p[k]].1, a[p[k]].0));
        }
        assert forall|i: int, j: int| 0 <= i < edges@.len() && 0 <= j < edges@.len() && i != j implies
            (#[trigger] edges@[i].0 != #[trigger] edges@[j].0 || edges@[i].1 != edges@[j].1) by {
            if i < j {
                assert(p[i] != p[j]);
            } else {
                assert(p[j] != p[i]);
            }
            assert(edges@[i] == a[p[i]]);
            assert(edges@[j] == a[p[j]]);
        }
    }
    edges
}

/// Kruskal's rule with cycle checks and with disjoint sets keeps the same edges, so the two
/// spanning trees have the same total weight.
pub proof fn lemma_kruskal_variants_agree(g: &UndirectedGraph, naive: Seq<Edge>, with_sets: Seq<Edge>)
    requires
        g.wf(),
        naive == kruskal_tree(g),
        with_sets == kruskal_tree(g),
    ensures
        naive == with_sets,
        total_weight(naive) == total_weight(with_sets),
{
}

} // verus!
