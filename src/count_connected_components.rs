use std::collections::HashSet;
use vstd::prelude::*;

use crate::dfs::explore;
use crate::graph::{set_to_vec, symmetric, Adjacency, Vertex};
use crate::reach::{closed, lemma_closed_reach, lemma_reaches_self, lemma_reaches_symmetric, lemma_reaches_trans, reach_set, reaches};
use crate::undirected_graph::UndirectedGraph;

verus! {

broadcast use vstd::std_specs::hash::group_hash_axioms;

/// The number of connected components of `g`.
pub fn run(g: &UndirectedGraph) -> (r: usize)
    requires
        g.wf(),
    ensures
        r == components(g.adjacency(), g.vertex_set()).len(),
{
    count_connected_components(g)
}

/// The connected components of the vertices `vs`: for each, the set of vertices it reaches.
pub open spec fn components(adj: Adjacency, vs: Set<Vertex>) -> Set<Set<Vertex>> {
    vs.map(|v: Vertex| reach_set(adj, v))
}

/// In a graph whose edges go both ways, vertices that reach each other have one component.
pub proof fn lemma_same_component(adj: Adjacency, a: Vertex, b: Vertex)
    requires
        symmetric(adj),
        reaches(adj, a, b),
    ensures
        reach_set(adj, a) == reach_set(adj, b),
{
    lemma_reaches_symmetric(adj, a, b);
    assert forall|x: Vertex| reach_set(adj, a).contains(x) <==> reach_set(adj, b).contains(x) by {
        if reaches(adj, a, x) {
            lemma_reaches_trans(adj, b, a, x);
        }
        if reaches(adj, b, x) {
            lemma_reaches_trans(adj, a, b, x);
        }
    }
    assert(reach_set(adj, a) =~= reach_set(adj, b));
}

/// The number of connected components of `g`: one depth-first search from each vertex that
/// no earlier search has reached.
pub fn count_connected_components(g: &UndirectedGraph) -> (r: usize)
    requires
        g.wf(),
    ensures
        r == components(g.adjacency(), g.vertex_set()).len(),
{
    let ghost adj = g.adjacency();
    let vs = set_to_vec(g.get_vertices());
    let mut visited: HashSet<Vertex> = HashSet::new();
    let mut connected_components: usize = 0;
    let ghost mut launched: Set<Vertex> = Set::empty();
    let ghost mut comps: Set<Set<Vertex>> = Set::empty();
    let mut i: usize = 0;
    proof {
        assert(closed(adj, visited@));
    }
    while i < vs.len()
        invariant
            g.wf(),
            adj == g.adjacency(),
            vs@.to_set() == g.vertex_set(),
            i <= vs@.len(),
            connected_components <= i,
            closed(adj, visited@),
            forall|x: Vertex| #[trigger] visited@.contains(x) <==> exists|l: Vertex| launched.contains(l) && reaches(adj, l, x),
            forall|l: Vertex| #[trigger] launched.contains(l) ==> g.vertex_set().contains(l),
            forall|j: int| 0 <= j < i ==> visited@.contains(#[trigger] vs@[j]),
            forall|c: Set<Vertex>| #[trigger] comps.contains(c) <==> exists|l: Vertex| launched.contains(l) && c == reach_set(adj, l),
            comps.finite(),
            connected_components == comps.len(),
        decreases vs@.len() - i,
    {
        let u = vs[i];
        proof {
            assert(vs@.to_set().contains(vs@[i as int]));
        }
        if !visited.contains(&u) {
            let ghost c = reach_set(adj, u);
            proof {
                lemma_reaches_self(adj, u);
                assert(!comps.contains(c)) by {
                    if comps.contains(c) {
                        let l = choose|l: Vertex| launched.contains(l) && c == reach_set(adj, l);
                        assert(reach_set(adj, l).contains(u));
                    }
                }
            }
            let ghost vis0 = visited@;
            let ghost l0 = launched;
            dfs_connected_components(g, &u, &mut visited);
            connected_components = connected_components + 1;
            proof {
                launched = launched.insert(u);
                comps = comps.insert(c);
                assert forall|x: Vertex| #[trigger] visited@.contains(x) <==> exists|l: Vertex| launched.contains(l) && reaches(adj, l, x) by {
                    assert(visited@.contains(x) == (vis0.contains(x) || reach_set(adj, u).contains(x)));
                    if visited@.contains(x) {
                        if vis0.contains(x) {
                            let l = choose|l: Vertex| l0.contains(l) && reaches(adj, l, x);
                            assert(launched.contains(l));
                        } else {
                            assert(launched.contains(u) && reaches(adj, u, x));
                        }
                    }
                    if exists|l: Vertex| launched.contains(l) && reaches(adj, l, x) {
                        let l = choose|l: Vertex| launched.contains(l) && reaches(adj, l, x);
                        if l != u {
                            assert(l0.contains(l));
                            assert(vis0.contains(x));
                        } else {
                            assert(reach_set(adj, u).contains(x));
                        }
                    }
                }
                assert forall|cc: Set<Vertex>| #[trigger] comps.contains(cc) <==> exists|l: Vertex| launched.contains(l) && cc == reach_set(adj, l) by {
                    if cc == c {
                        assert(launched.contains(u));
                    }
                }
            }
        }
        i = i + 1;
    }
    proof {
        let all = components(adj, g.vertex_set());
        assert forall|cc: Set<Vertex>| all.contains(cc) <==> comps.contains(cc) by {
            if all.contains(cc) {
                let v = choose|v: Vertex| g.vertex_set().contains(v) && cc == reach_set(adj, v);
                let j = choose|j: int| 0 <= j < vs@.len() && vs@[j] == v;
                assert(visited@.contains(vs@[j]));
                let l = choose|l: Vertex| launched.contains(l) && reaches(adj, l, v);
                lemma_same_component(adj, l, v);
            }
        }
        assert(all =~= comps);
    }
    connected_components
}

/// Depth-first search from `u` that marks everything `u` reaches; `visited` has no edge out
/// of itself.
pub fn dfs_connected_components(g: &UndirectedGraph, u: &Vertex, visited: &mut HashSet<Vertex>)
    requires
        g.wf(),
        closed(g.adjacency(), old(visited)@),
    ensures
        final(visited)@ == old(visited)@.union(reach_set(g.adjacency(), *u)),
        closed(g.adjacency(), final(visited)@),
{
    explore(g, visited, *u, None);
}

/// Every vertex of `p` reaches every other.
pub open spec fn connected_piece(adj: Adjacency, p: Set<Vertex>) -> bool {
    forall|x: Vertex, y: Vertex| p.contains(x) && p.contains(y) ==> #[trigger] reaches(adj, x, y)
}

/// When the vertices of `g` split into pieces, each nonempty, each connected and none with an
/// edge to another, `g` has as many connected components as there are pieces.
pub proof fn lemma_partition_components(g: &UndirectedGraph, pieces: Seq<Set<Vertex>>)
    requires
        g.wf(),
        forall|i: int| 0 <= i < pieces.len() ==> !(#[trigger] pieces[i]).is_empty(),
        forall|i: int, j: int| 0 <= i < j < pieces.len() ==> (#[trigger] pieces[i]).disjoint(#[trigger] pieces[j]),
        forall|x: Vertex| #[trigger] g.vertex_set().contains(x) <==> exists|i: int| 0 <= i < pieces.len() && pieces[i].contains(x),
        forall|i: int| 0 <= i < pieces.len() ==> connected_piece(g.adjacency(), #[trigger] pieces[i]),
        forall|i: int| 0 <= i < pieces.len() ==> closed(g.adjacency(), #[trigger] pieces[i]),
    ensures
        components(g.adjacency(), g.vertex_set()).len() == pieces.len(),
{
    let adj = g.adjacency();
    assert forall|i: int, x: Vertex| 0 <= i < pieces.len() && #[trigger] pieces[i].contains(x) implies reach_set(adj, x) == pieces[i] by {
        lemma_closed_reach(adj, pieces[i], x, x);
        assert(connected_piece(adj, pieces[i]));
        assert forall|y: Vertex| pieces[i].contains(y) implies reach_set(adj, x).contains(y) by {
            assert(reaches(adj, x, y));
        }
        assert(reach_set(adj, x) =~= pieces[i]);
    }
    assert forall|c: Set<Vertex>| components(adj, g.vertex_set()).contains(c) <==> pieces.to_set().contains(c) by {
        if components(adj, g.vertex_set()).contains(c) {
            let x = choose|x: Vertex| g.vertex_set().contains(x) && c == reach_set(adj, x);
            let i = choose|i: int| 0 <= i < pieces.len() && pieces[i].contains(x);
            assert(pieces[i] == c);
        }
        if pieces.to_set().contains(c) {
            let i = choose|i: int| 0 <= i < pieces.len() && pieces[i] == c;
            assert(!pieces[i].is_empty());
            let x = choose|x: Vertex| pieces[i].contains(x);
            assert(g.vertex_set().contains(x));
            assert(reach_set(adj, x) == c);
        }
    }
    assert(components(adj, g.vertex_set()) =~= pieces.to_set());
    assert(pieces.no_duplicates()) by {
        assert forall|i: int, j: int| 0 <= i < pieces.len() && 0 <= j < pieces.len() && i != j implies pieces[i] != pieces[j] by {
            let x = choose|x: Vertex| pieces[i].contains(x);
            if i < j {
                assert(pieces[i].disjoint(pieces[j]));
            } else {
                assert(pieces[j].disjoint(pieces[i]));
            }
        }
    }
    pieces.unique_seq_to_set();
}

} // verus!
