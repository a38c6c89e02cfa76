use vstd::prelude::*;

use crate::forest::{lemma_spanning_forest_acyclic, lemma_spanning_forest_from, spanning_forest};
use crate::graph::{has_edge, Edge, Path};
use crate::is_acyclic::is_acyclic;
use crate::kruskal::{kruskal_tree, lemma_kruskal_tree_forest, sorted_edges, weight_ordered_forest};
use crate::undirected_graph::{canonical, distinct_pairs, has_pair, pair_at, pair_index, UndirectedGraph};

verus! {

/// Kruskal's minimum spanning tree of `g`.
pub fn run(g: &UndirectedGraph) -> (r: Path)
    requires
        g.wf(),
    ensures
        r@ == kruskal_tree(g),
        weight_ordered_forest(g, r@),
{
    kruskal_naive(g)
}

/// Kruskal's minimum spanning tree by cycle checks: the edges by ascending weight, each added to
/// a scratch graph and kept when the scratch graph stays acyclic, taken out again otherwise.
pub fn kruskal_naive(g: &UndirectedGraph) -> (r: Path)
    requires
        g.wf(),
    ensures
        r@ == kruskal_tree(g),
        weight_ordered_forest(g, r@),
{
    let mut tmp = UndirectedGraph::new();
    let edges = sorted_edges(g);
    let mut mst: Vec<Edge> = Vec::new();
    proof {
        assert(edges@.take(0) =~= Seq::<Edge>::empty());
    }
    let mut i: usize = 0;
    while i < edges.len()
        invariant
            distinct_pairs(edges@),
            forall|k: int| 0 <= k < edges@.len() ==> #[trigger] edges@[k].0 <= edges@[k].1,
            i <= edges.len(),
            tmp.wf(),
            tmp.edge_list() == mst@,
            mst@ == spanning_forest(edges@.take(i as int)),
        decreases edges.len() - i,
    {
        let e = edges[i];
        let ghost kept = mst@;
        proof {
            assert(edges@[i as int] == e);
            assert(edges@.take(i + 1).drop_last() =~= edges@.take(i as int));
            assert(edges@.take(i + 1).last() == e);
            lemma_spanning_forest_from(edges@.take(i as int));
            lemma_spanning_forest_acyclic(edges@.take(i as int));
            assert(!has_pair(kept, e.0, e.1)) by {
                if has_pair(kept, e.0, e.1) {
                    let k = choose|k: int| pair_at(kept, k, e.0, e.1);
                    let j = choose|j: int| 0 <= j < i && #[trigger] kept[k] == edges@.take(i as int)[j];
                    assert(edges@[j] == kept[k]);
                }
            }
            assert(canonical(e.0, e.1, e.2) == e);
            assert(kept.push(e).drop_last() == kept);
        }
        tmp.add_edge(e.0, e.1, e.2);
        if is_acyclic(&tmp) {
            mst.push(e);
        } else {
            proof {
                let es2 = kept.push(e);
                let last = kept.len() as int;
                assert(pair_at(es2, last, e.0, e.1));
                assert(has_edge(tmp.adjacency(), e.0, e.1));
                let k = pair_index(es2, e.0, e.1);
                assert(pair_at(es2, k, e.0, e.1));
                assert(k == last);
                assert(es2.remove(last) =~= kept);
            }
            tmp.delete_edge(&e.0, &e.1);
        }
        i = i + 1;
    }
    proof {
        assert(edges@.take(i as int) =~= edges@);
        lemma_kruskal_tree_forest(g, edges@);
    }
    mst
}

} // verus!
