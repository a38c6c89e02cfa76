use std::collections::HashSet;
use vstd::prelude::*;

use crate::graph::{has_edge, map_to_vec, Vertex};
use crate::undirected_graph::UndirectedGraph;
use crate::reach::{
    avoids, closed, connects, lemma_closed_reach, lemma_reaches_self, lemma_reaches_step, reach_set,
    reaches,
};

verus! {

broadcast use vstd::std_specs::hash::group_hash_axioms;

/// No vertex of `vs` has an edge to the target, if there is one.
pub open spec fn avoids_target(adj: crate::graph::Adjacency, vs: Set<Vertex>, target: Option<Vertex>) -> bool {
    match target {
        Some(t) => avoids(adj, vs, t),
        None => true,
    }
}

/// `z` has no edge to the target, if there is one.
pub open spec fn no_edge_to(adj: crate::graph::Adjacency, z: Vertex, target: Option<Vertex>) -> bool {
    match target {
        Some(t) => !has_edge(adj, z, t),
        None => true,
    }
}

/// Marks and stacks each unvisited neighbour of `x`, in the order of its row; stops at the
/// first edge from `x` to the target.
fn visit_neighbours(
    g: &UndirectedGraph,
    x: Vertex,
    target: Option<Vertex>,
    visited: &mut HashSet<Vertex>,
    stack: &mut Vec<Vertex>,
) -> (found: bool)
    requires
        g.wf(),
        g.adjacency().contains_key(x),
        forall|i: int| 0 <= i < old(stack)@.len() ==> old(visited)@.contains(#[trigger] old(stack)@[i]),
        old(stack)@.no_duplicates(),
    ensures
        found == !no_edge_to(g.adjacency(), x, target),
        !found ==> forall|y: Vertex| #[trigger] has_edge(g.adjacency(), x, y) ==> final(visited)@.contains(y),
        forall|y: Vertex|
            #[trigger] final(visited)@.contains(y) ==> old(visited)@.contains(y) || has_edge(g.adjacency(), x, y),
        old(visited)@.subset_of(final(visited)@),
        final(stack)@.len() >= old(stack)@.len(),
        final(stack)@.subrange(0, old(stack)@.len() as int) == old(stack)@,
        forall|i: int| 0 <= i < final(stack)@.len() ==> final(visited)@.contains(#[trigger] final(stack)@[i]),
        forall|i: int|
            old(stack)@.len() <= i < final(stack)@.len() ==> has_edge(g.adjacency(), x, #[trigger] final(stack)@[i]),
        final(stack)@.no_duplicates(),
        forall|y: Vertex|
            final(visited)@.contains(y) && !old(visited)@.contains(y) ==> #[trigger] final(stack)@.contains(y),
        g.vertex_set().difference(final(visited)@).len() + final(stack)@.len() == g.vertex_set().difference(
            old(visited)@,
        ).len() + old(stack)@.len(),
{
    let ghost adj = g.adjacency();
    let ghost all = g.vertex_set();
    proof {
        g.lemma_vertex_set_finite();
    }
    let m = g.get_adj_list(&x).unwrap();
    let ns = map_to_vec(m);
    let mut j: usize = 0;
    while j < ns.len()
        invariant
            g.wf(),
            adj == g.adjacency(),
            all == g.vertex_set(),
            all.finite(),
            m@ == adj[x],
            adj.contains_key(x),
            j <= ns@.len(),
            forall|k: int| 0 <= k < ns@.len() ==> #[trigger] m@.contains_key(ns@[k].0),
            forall|v: Vertex| #[trigger] m@.contains_key(v) ==> exists|k: int| 0 <= k < ns@.len() && ns@[k].0 == v,
            forall|k: int| 0 <= k < j ==> visited@.contains(#[trigger] ns@[k].0) && target != Some(ns@[k].0),
            forall|y: Vertex| #[trigger] visited@.contains(y) ==> old(visited)@.contains(y) || has_edge(adj, x, y),
            old(visited)@.subset_of(visited@),
            stack@.len() >= old(stack)@.len(),
            stack@.subrange(0, old(stack)@.len() as int) == old(stack)@,
            forall|i: int| 0 <= i < stack@.len() ==> visited@.contains(#[trigger] stack@[i]),
            forall|i: int| old(stack)@.len() <= i < stack@.len() ==> has_edge(adj, x, #[trigger] stack@[i]),
            stack@.no_duplicates(),
            forall|y: Vertex| visited@.contains(y) && !old(visited)@.contains(y) ==> #[trigger] stack@.contains(y),
            all.difference(visited@).len() + stack@.len() == all.difference(old(visited)@).len() + old(stack)@.len(),
        decreases ns@.len() - j,
    {
        let v = ns[j].0;
        proof {
            assert(m@.contains_key(ns@[j as int].0));
            assert(has_edge(adj, x, v));
        }
        if let Some(t) = target {
            if v == t {
                return true;
            }
        }
        if !visited.contains(&v) {
            proof {
                assert(has_edge(adj, v, x));
                assert(all.contains(v));
                assert(all.difference(visited@.insert(v)) =~= all.difference(visited@).remove(v));
            }
            let ghost st = stack@;
            let ghost vb = visited@;
            visited.insert(v);
            stack.push(v);
            proof {
                assert(stack@ == st.push(v));
                assert(stack@.subrange(0, old(stack)@.len() as int) =~= st.subrange(0, old(stack)@.len() as int));
                assert forall|y: Vertex| visited@.contains(y) && !old(visited)@.contains(y) implies #[trigger] stack@.contains(y) by {
                    if y == v {
                        assert(stack@[st.len() as int] == v);
                    } else {
                        assert(vb.contains(y));
                        assert(st.contains(y));
                        let i = choose|i: int| 0 <= i < st.len() && st[i] == y;
                        assert(stack@[i] == y);
                    }
                }
            }
        }
        j = j + 1;
    }
    proof {
        assert forall|y: Vertex| #[trigger] has_edge(adj, x, y) implies visited@.contains(y) by {
            assert(m@.contains_key(y));
            let k = choose|k: int| 0 <= k < ns@.len() && ns@[k].0 == y;
            assert(visited@.contains(ns@[k].0));
        }
        if let Some(t) = target {
            if has_edge(adj, x, t) {
                assert(m@.contains_key(t));
                let k = choose|k: int| 0 <= k < ns@.len() && ns@[k].0 == t;
                assert(target != Some(ns@[k].0));
            }
        }
    }
    false
}

/// Depth-first search from `u` with an explicit stack, adding what it visits to `visited`.
/// With a target, it stops as soon as a visited vertex has an edge to the target.
pub(crate) fn explore(g: &UndirectedGraph, visited: &mut HashSet<Vertex>, u: Vertex, target: Option<Vertex>) -> (r: bool)
    requires
        g.wf(),
        closed(g.adjacency(), old(visited)@),
        avoids_target(g.adjacency(), old(visited)@, target),
    ensures
        r ==> (target matches Some(t) && connects(g.adjacency(), u, t)),
        !r ==> final(visited)@ == old(visited)@.union(reach_set(g.adjacency(), u)),
        !r ==> closed(g.adjacency(), final(visited)@),
        !r ==> avoids_target(g.adjacency(), final(visited)@, target),
        !r ==> (target matches Some(t) ==> !connects(g.adjacency(), u, t)),
{
    let ghost adj = g.adjacency();
    let ghost old_v = visited@;
    let ghost all = g.vertex_set();
    proof {
        g.lemma_vertex_set_finite();
        lemma_reaches_self(adj, u);
    }
    visited.insert(u);
    let mut stack: Vec<Vertex> = Vec::new();
    stack.push(u);
    proof {
        assert forall|x: Vertex, y: Vertex|
            visited@.contains(x) && !stack@.contains(x) && #[trigger] has_edge(adj, x, y) implies visited@.contains(y) by {
            if x == u {
                assert(stack@[0] == u);
            }
        }
        assert forall|x: Vertex| visited@.contains(x) && !stack@.contains(x) implies #[trigger] no_edge_to(adj, x, target) by {
            if x == u {
                assert(stack@[0] == u);
            }
        }
    }
    while stack.len() > 0
        invariant
            g.wf(),
            adj == g.adjacency(),
            all == g.vertex_set(),
            all.finite(),
            old_v.subset_of(visited@),
            visited@.contains(u),
            closed(adj, old_v),
            avoids_target(adj, old_v, target),
            forall|x: Vertex| visited@.contains(x) && !old_v.contains(x) ==> #[trigger] reaches(adj, u, x),
            forall|i: int| 0 <= i < stack@.len() ==> visited@.contains(#[trigger] stack@[i]) && reaches(adj, u, stack@[i]),
            stack@.no_duplicates(),
            forall|x: Vertex, y: Vertex|
                visited@.contains(x) && !stack@.contains(x) && #[trigger] has_edge(adj, x, y) ==> visited@.contains(y),
            forall|x: Vertex| visited@.contains(x) && !stack@.contains(x) ==> #[trigger] no_edge_to(adj, x, target),
        decreases all.difference(visited@).len() + stack@.len(),
    {
        let ghost st0 = stack@;
        let ghost vis0 = visited@;
        let x = stack.pop().unwrap();
        proof {
            assert(st0 == stack@.push(x));
            assert(st0[st0.len() - 1] == x);
            assert(reaches(adj, u, x));
            assert(!stack@.contains(x)) by {
                if stack@.contains(x) {
                    let i = choose|i: int| 0 <= i < stack@.len() && stack@[i] == x;
                    assert(st0[i] == st0[st0.len() - 1]);
                }
            }
            assert forall|z: Vertex| #[trigger] st0.contains(z) implies stack@.contains(z) || z == x by {
                let i = choose|i: int| 0 <= i < st0.len() && st0[i] == z;
                if i < stack@.len() {
                    assert(stack@[i] == z);
                }
            }
        }
        if g.get_adj_list(&x).is_some() {
            let ghost st1 = stack@;
            let found = visit_neighbours(g, x, target, visited, &mut stack);
            if found {
                proof {
                    let t = target.unwrap();
                    lemma_reaches_step(adj, u, x, t);
                }
                return true;
            }
            proof {
                assert forall|z: Vertex| visited@.contains(z) && !old_v.contains(z) implies #[trigger] reaches(adj, u, z) by {
                    if !vis0.contains(z) {
                        assert(has_edge(adj, x, z));
                        lemma_reaches_step(adj, u, x, z);
                    }
                }
                assert forall|i: int| 0 <= i < stack@.len() implies visited@.contains(#[trigger] stack@[i]) && reaches(adj, u, stack@[i]) by {
                    if i < st1.len() {
                        assert(stack@.subrange(0, st1.len() as int)[i] == stack@[i]);
                    } else {
                        lemma_reaches_step(adj, u, x, stack@[i]);
                    }
                }
                assert forall|z: Vertex| st1.contains(z) implies #[trigger] stack@.contains(z) by {
                    let i = choose|i: int| 0 <= i < st1.len() && st1[i] == z;
                    assert(stack@.subrange(0, st1.len() as int)[i] == stack@[i]);
                }
                assert forall|z: Vertex, y: Vertex|
                    visited@.contains(z) && !stack@.contains(z) && #[trigger] has_edge(adj, z, y) implies visited@.contains(y) by {
                    if z != x {
                        assert(vis0.contains(z));
                        assert(!st0.contains(z));
                    }
                }
                assert forall|z: Vertex| visited@.contains(z) && !stack@.contains(z) implies #[trigger] no_edge_to(adj, z, target) by {
                    if z != x {
                        assert(vis0.contains(z));
                        assert(!st0.contains(z));
                    }
                }
            }
        } else {
            proof {
                assert forall|z: Vertex, y: Vertex|
                    visited@.contains(z) && !stack@.contains(z) && #[trigger] has_edge(adj, z, y) implies visited@.contains(y) by {
                    if z != x {
                        assert(!st0.contains(z));
                    }
                }
                assert forall|z: Vertex| visited@.contains(z) && !stack@.contains(z) implies #[trigger] no_edge_to(adj, z, target) by {
                    if z != x {
                        assert(!st0.contains(z));
                    }
                }
            }
        }
    }
    proof {
        assert forall|x: Vertex| visited@.contains(x) implies #[trigger] no_edge_to(adj, x, target) by {
            assert(!stack@.contains(x));
        }
        assert forall|x: Vertex, y: Vertex| visited@.contains(x) && #[trigger] has_edge(adj, x, y) implies visited@.contains(y) by {
            assert(!stack@.contains(x));
        }
        assert(closed(adj, visited@));
        if let Some(t) = target {
            assert forall|x: Vertex| visited@.contains(x) implies !#[trigger] has_edge(adj, x, t) by {
                assert(no_edge_to(adj, x, target));
            }
        }
        assert(avoids_target(adj, visited@, target));
        let t = match target {
            Some(t) => t,
            None => u,
        };
        lemma_closed_reach(adj, visited@, u, t);
        assert(visited@ =~= old_v.union(reach_set(adj, u)));
    }
    false
}

} // verus!
