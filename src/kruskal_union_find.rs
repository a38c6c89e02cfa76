use vstd::prelude::*;

use crate::forest::{lemma_tracks_empty, lemma_tracks_push, spanning_forest, tracks};
use crate::graph::{Edge, Path};
use crate::kruskal::{kruskal_tree, lemma_kruskal_tree_forest, sorted_edges, weight_ordered_forest};
use crate::undirected_graph::UndirectedGraph;
use crate::union_find::{union_loser, union_winner, UnionFind};

verus! {

/// Kruskal's minimum spanning tree of `g`.
pub fn run(g: &UndirectedGraph) -> (r: Path)
    requires
        g.wf(),
    ensures
        r@ == kruskal_tree(g),
        weight_ordered_forest(g, r@),
{
    kruskal_union_find(g)
}

/// Kruskal's minimum spanning tree with disjoint sets: the edges by ascending weight, each kept
/// when its endpoints are still in different sets.
pub fn kruskal_union_find(g: &UndirectedGraph) -> (r: Path)
    requires
        g.wf(),
    ensures
        r@ == kruskal_tree(g),
        weight_ordered_forest(g, r@),
{
    let vs = g.get_vertices();
    let mut uf = UnionFind::from(vs);
    let edges = sorted_edges(g);
    let mut mst: Vec<Edge> = Vec::new();
    proof {
        lemma_tracks_empty(uf.root_map(), vs@);
        assert(edges@.take(0) =~= Seq::<Edge>::empty());
    }
    let mut i: usize = 0;
    while i < edges.len()
        invariant
            vs@ == g.vertex_set(),
            forall|k: int|
                0 <= k < edges@.len() ==> #[trigger] edges@[k].0 <= edges@[k].1 && vs@.contains(edges@[k].0)
                    && vs@.contains(edges@[k].1),
            uf.wf(),
            uf.root_map().dom() == vs@,
            i <= edges.len(),
            tracks(uf.root_map(), mst@, vs@),
            mst@ == spanning_forest(edges@.take(i as int)),
        decreases edges.len() - i,
    {
        let e = edges[i];
        proof {
            assert(edges@[i as int] == e);
            assert(edges@.take(i + 1).drop_last() =~= edges@.take(i as int));
            assert(edges@.take(i + 1).last() == e);
        }
        let r0 = uf.find(&e.0).unwrap();
        let r1 = uf.find(&e.1).unwrap();
        if r0 != r1 {
            let ghost roots = uf.root_map();
            let ghost sizes = uf.size_map();
            let ghost kept = mst@;
            mst.push(e);
            uf.union(&e.0, &e.1);
            proof {
                lemma_tracks_push(
                    roots,
                    uf.root_map(),
                    kept,
                    vs@,
                    e,
                    union_loser(sizes, r0, r1),
                    union_winner(sizes, r0, r1),
                );
            }
        }
        i = i + 1;
    }
    proof {
        assert(edges@.take(i as int) =~= edges@);
        lemma_kruskal_tree_forest(g, edges@);
    }
    mst
}

} // verus!
