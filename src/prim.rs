use std::collections::HashMap;
use vstd::prelude::*;

use crate::graph::{has_edge, map_to_vec, set_to_vec, Adjacency, Edge, Path, Vertex};
use crate::reach::{closed, lemma_closed_reach, reach_set, reaches};
use crate::priority_queue::{PriorityQueue, PriorityQueueItem};
use crate::undirected_graph::UndirectedGraph;

verus! {

broadcast use vstd::std_specs::hash::group_hash_axioms;

/// Prim's minimum spanning tree of `g` from `start`.
pub fn run(g: &UndirectedGraph, start: &Vertex) -> (r: Path)
    requires
        g.wf(),
    ensures
        tree_from(g.adjacency(), *start, r@),
        light_weights(g.adjacency()) && g.vertex_set().contains(*start) ==> forall|v: Vertex|
            #[trigger] reaches(g.adjacency(), *start, v) && v != *start ==> exists|k: int| 0 <= k < r@.len() && r@[k].1 == v,
{
    prim(g, start)
}

/// `t` is a tree of edges of `adj` grown from `s`: each edge is an edge of `adj` with its
/// weight, starts at `s` or at a vertex that an earlier edge reached, and reaches a vertex
/// other than `s` that no other edge reaches.
pub open spec fn tree_from(adj: Adjacency, s: Vertex, t: Seq<Edge>) -> bool {
    &&& forall|k: int| 0 <= k < t.len() ==> has_edge(adj, #[trigger] t[k].0, t[k].1) && adj[t[k].0][t[k].1] == t[k].2
    &&& forall|k: int| 0 <= k < t.len() ==> #[trigger] t[k].0 == s || exists|j: int| 0 <= j < k && t[j].1 == t[k].0
    &&& forall|k: int| 0 <= k < t.len() ==> #[trigger] t[k].1 != s
    &&& forall|j: int, k: int| 0 <= j < k < t.len() ==> #[trigger] t[j].1 != #[trigger] t[k].1
}

/// Every edge weighs less than `i32::MAX`, the priority of a vertex not reached yet.
pub open spec fn light_weights(adj: Adjacency) -> bool {
    forall|u: Vertex, v: Vertex| #[trigger] has_edge(adj, u, v) ==> adj[u][v] < i32::MAX
}

/// For each neighbour of `x` still queued whose edge from `x` is lighter than its priority,
/// records `x` as its parent and lowers its priority to that weight.
fn relax_neighbours(
    g: &UndirectedGraph,
    x: Vertex,
    pq: &mut PriorityQueue,
    parents: &mut HashMap<Vertex, Vertex>,
)
    requires
        g.wf(),
        g.adjacency().contains_key(x),
        old(pq).wf(),
    ensures
        final(pq).wf(),
        final(pq).heap().len() == old(pq).heap().len(),
        final(pq).priorities().dom() == old(pq).priorities().dom(),
        forall|v: Vertex| #[trigger] final(pq).priorities().contains_key(v) ==> final(pq).priorities()[v] <= old(pq).priorities()[v],
        forall|v: Vertex|
            #[trigger] final(pq).priorities().contains_key(v) && has_edge(g.adjacency(), x, v) ==> final(pq).priorities()[v]
                <= g.adjacency()[x][v],
        forall|v: Vertex| #[trigger] old(parents)@.contains_key(v) ==> final(parents)@.contains_key(v),
        forall|v: Vertex|
            #[trigger] final(pq).priorities().contains_key(v) && final(pq).priorities()[v] != old(pq).priorities()[v]
                ==> final(parents)@.contains_key(v),
        forall|v: Vertex| #[trigger] final(parents)@.contains_key(v) ==> {
            ||| (old(parents)@.contains_key(v) && final(parents)@[v] == old(parents)@[v] && (
                final(pq).priorities().contains_key(v) ==> final(pq).priorities()[v] == old(pq).priorities()[v]))
            ||| (final(parents)@[v] == x && old(pq).priorities().contains_key(v) && has_edge(g.adjacency(), x, v)
                && final(pq).priorities()[v] == g.adjacency()[x][v])
        },
{
    let ghost adj = g.adjacency();
    let m = g.get_adj_list(&x).unwrap();
    let ns = map_to_vec(m);
    let mut j: usize = 0;
    while j < ns.len()
        invariant
            g.wf(),
            adj == g.adjacency(),
            adj.contains_key(x),
            m@ == adj[x],
            forall|k: int| 0 <= k < ns@.len() ==> #[trigger] m@.contains_key(ns@[k].0) && m@[ns@[k].0] == ns@[k].1,
            forall|v: Vertex| #[trigger] m@.contains_key(v) ==> exists|k: int| 0 <= k < ns@.len() && ns@[k].0 == v,
            j <= ns@.len(),
            pq.wf(),
            pq.heap().len() == old(pq).heap().len(),
            pq.priorities().dom() == old(pq).priorities().dom(),
            forall|v: Vertex| #[trigger] pq.priorities().contains_key(v) ==> pq.priorities()[v] <= old(pq).priorities()[v],
            forall|k: int|
                0 <= k < j && pq.priorities().contains_key(#[trigger] ns@[k].0) ==> pq.priorities()[ns@[k].0] <= ns@[k].1,
            forall|v: Vertex| #[trigger] old(parents)@.contains_key(v) ==> parents@.contains_key(v),
            forall|v: Vertex|
                #[trigger] pq.priorities().contains_key(v) && pq.priorities()[v] != old(pq).priorities()[v]
                    ==> parents@.contains_key(v),
            forall|v: Vertex| #[trigger] parents@.contains_key(v) ==> {
                ||| (old(parents)@.contains_key(v) && parents@[v] == old(parents)@[v] && (pq.priorities().contains_key(v)
                    ==> pq.priorities()[v] == old(pq).priorities()[v]))
                ||| (parents@[v] == x && old(pq).priorities().contains_key(v) && has_edge(adj, x, v)
                    && pq.priorities()[v] == adj[x][v])
            },
        decreases ns@.len() - j,
    {
        let (v, w) = ns[j];
        proof {
            assert(m@.contains_key(ns@[j as int].0));
        }
        match pq.get_index(&v) {
            Some(i) => {
                let t = *pq.get_element(i).unwrap();
                if w < t.1 {
                    let ghost before = pq.priorities();
                    parents.insert(v, x);
                    pq.decrease_key(i, w);
                    proof {
                        assert(pq.priorities().dom() =~= before.dom());
                        assert forall|k: int|
                            0 <= k < j + 1 && pq.priorities().contains_key(#[trigger] ns@[k].0) implies pq.priorities()[ns@[k].0]
                                <= ns@[k].1 by {
                            if ns@[k].0 == v {
                                assert(m@[v] == w);
                            }
                        }
                    }
                }
            },
            None => {},
        }
        j = j + 1;
    }
    proof {
        assert forall|v: Vertex|
            #[trigger] pq.priorities().contains_key(v) && has_edge(adj, x, v) implies pq.priorities()[v] <= adj[x][v] by {
            assert(m@.contains_key(v));
            let k = choose|k: int| 0 <= k < ns@.len() && ns@[k].0 == v;
            assert(pq.priorities().contains_key(ns@[k].0));
        }
    }
}

/// Prim's minimum spanning tree from `s`. All vertices enter a priority queue, `s` with
/// priority zero and the others with `i32::MAX`; each vertex taken out with a recorded parent
/// contributes the edge from its parent, and each vertex taken out that `s` has reached lowers
/// the priority of its neighbours still queued when the edge to them is lighter, becoming their
/// parent. Vertices that `s` does not reach contribute no edge; when every edge weighs less than
/// `i32::MAX`, every vertex that `s` reaches does.
pub fn prim(g: &UndirectedGraph, s: &Vertex) -> (r: Path)
    requires
        g.wf(),
    ensures
        tree_from(g.adjacency(), *s, r@),
        light_weights(g.adjacency()) && g.vertex_set().contains(*s) ==> forall|v: Vertex|
            #[trigger] reaches(g.adjacency(), *s, v) && v != *s ==> exists|k: int| 0 <= k < r@.len() && r@[k].1 == v,
{
    let ghost adj = g.adjacency();
    let ghost light = light_weights(adj);
    let s = *s;
    let vs = set_to_vec(g.get_vertices());
    let mut parents: HashMap<Vertex, Vertex> = HashMap::new();
    let mut pq = PriorityQueue::new();
    let mut mst: Vec<Edge> = Vec::new();
    let mut i: usize = 0;
    while i < vs.len()
        invariant
            pq.wf(),
            i <= vs@.len(),
            pq.heap().len() == i,
            vs@.no_duplicates(),
            forall|k: Vertex| #[trigger] pq.priorities().contains_key(k) <==> exists|j: int| 0 <= j < i && vs@[j] == k,
            forall|k: Vertex| #[trigger] pq.priorities().contains_key(k) ==> pq.priorities()[k] == if k == s { 0 } else { i32::MAX },
        decreases vs@.len() - i,
    {
        let v = vs[i];
        proof {
            assert(!pq.priorities().contains_key(v)) by {
                if pq.priorities().contains_key(v) {
                    let j = choose|j: int| 0 <= j < i && vs@[j] == v;
                    assert(vs@[j] == vs@[i as int]);
                }
            }
        }
        pq.insert(PriorityQueueItem(v, if v != s { i32::MAX } else { 0 }));
        proof {
            assert forall|k: Vertex| #[trigger] pq.priorities().contains_key(k) <==> exists|j: int| 0 <= j < i + 1 && vs@[j] == k by {
                if k == v {
                    assert(vs@[i as int] == k);
                }
            }
        }
        i = i + 1;
    }
    proof {
        assert forall|k: Vertex| #[trigger] pq.priorities().contains_key(k) <==> g.vertex_set().contains(k) by {
            if g.vertex_set().contains(k) {
                assert(vs@.to_set().contains(k));
            }
        }
    }
    let ghost mut done: Set<Vertex> = Set::empty();
    let ghost mut relaxed: Set<Vertex> = Set::empty();
    let ghost mut stopped: bool = false;
    while !pq.is_empty()
        invariant
            g.wf(),
            adj == g.adjacency(),
            light == light_weights(adj),
            pq.wf(),
            forall|v: Vertex| #[trigger] pq.priorities().contains_key(v) ==> g.vertex_set().contains(v),
            forall|v: Vertex| #[trigger] parents@.contains_key(v) ==> {
                &&& has_edge(adj, parents@[v], v)
                &&& !pq.priorities().contains_key(parents@[v])
                &&& (parents@[v] == s || done.contains(parents@[v]))
                &&& v != s
            },
            forall|v: Vertex| #[trigger] parents@.contains_key(v) && pq.priorities().contains_key(v) ==> pq.priorities()[v] == adj[parents@[v]][v],
            pq.priorities().contains_key(s) ==> parents@ == Map::<Vertex, Vertex>::empty(),
            pq.priorities().contains_key(s) ==> pq.priorities()[s] < i32::MAX,
            forall|v: Vertex|
                #[trigger] pq.priorities().contains_key(v) && v != s && pq.priorities()[v] < i32::MAX ==> parents@.contains_key(v),
            tree_from(adj, s, mst@),
            forall|x: Vertex| #[trigger] done.contains(x) <==> exists|k: int| 0 <= k < mst@.len() && mst@[k].1 == x,
            forall|x: Vertex| #[trigger] done.contains(x) ==> !pq.priorities().contains_key(x),
            forall|x: Vertex| #[trigger] relaxed.contains(x) ==> (x == s || done.contains(x)) && !pq.priorities().contains_key(x),
            light && stopped ==> !pq.priorities().contains_key(s),
            light && stopped ==> forall|v: Vertex| #[trigger] pq.priorities().contains_key(v) ==> !parents@.contains_key(v),
            light ==> forall|x: Vertex, y: Vertex|
                relaxed.contains(x) && #[trigger] has_edge(adj, x, y) ==> relaxed.contains(y) || (pq.priorities().contains_key(y)
                    && parents@.contains_key(y)),
            light ==> forall|v: Vertex|
                #[trigger] g.vertex_set().contains(v) && !pq.priorities().contains_key(v) ==> relaxed.contains(v) || stopped,
            light && g.vertex_set().contains(s) && !pq.priorities().contains_key(s) ==> relaxed.contains(s),
        decreases pq.heap().len(),
    {
        let ghost q0 = pq.priorities();
        let ghost parents0 = parents@;
        let ghost r0 = relaxed;
        let u = pq.extract_min().unwrap();
        let x = u.0;
        proof {
            assert(q0.contains_key(x));
            if light && !parents0.contains_key(x) && x != s {
                assert(q0[x] == i32::MAX);
                assert forall|v: Vertex| #[trigger] pq.priorities().contains_key(v) implies !parents@.contains_key(v) by {
                    assert(q0.contains_key(v));
                    assert(u.1 <= q0[v]);
                    if parents@.contains_key(v) {
                        assert(has_edge(adj, parents@[v], v));
                    }
                }
                if pq.priorities().contains_key(s) {
                    assert(q0.contains_key(s));
                    assert(u.1 <= q0[s]);
                }
            }
        }
        let relax = match parents.get(&x) {
            Some(p) => {
                let ghost m0 = mst@;
                mst.push((*p, x, u.1));
                proof {
                    let n = m0.len() as int;
                    assert(mst@[n] == (*p, x, u.1));
                    assert(!done.contains(x));
                    assert forall|k: int| 0 <= k < mst@.len() implies #[trigger] mst@[k].0 == s || exists|j: int| 0 <= j < k && mst@[j].1 == mst@[k].0 by {
                        if k < n {
                            assert(mst@[k] == m0[k]);
                            if m0[k].0 != s {
                                let j = choose|j: int| 0 <= j < k && m0[j].1 == m0[k].0;
                                assert(mst@[j] == m0[j]);
                            }
                        } else if *p != s {
                            let j = choose|j: int| 0 <= j < m0.len() && m0[j].1 == *p;
                            assert(mst@[j] == m0[j]);
                        }
                    }
                    assert forall|j: int, k: int| 0 <= j < k < mst@.len() implies #[trigger] mst@[j].1 != #[trigger] mst@[k].1 by {
                        if k == n {
                            assert(mst@[j] == m0[j]);
                        } else {
                            assert(mst@[j] == m0[j] && mst@[k] == m0[k]);
                        }
                    }
                    assert forall|k: int| 0 <= k < mst@.len() implies has_edge(adj, #[trigger] mst@[k].0, mst@[k].1) && adj[mst@[k].0][mst@[k].1] == mst@[k].2 by {
                        if k < n {
                            assert(mst@[k] == m0[k]);
                        }
                    }
                    assert forall|k: int| 0 <= k < mst@.len() implies #[trigger] mst@[k].1 != s by {
                        if k < n {
                            assert(mst@[k] == m0[k]);
                        }
                    }
                    done = done.insert(x);
                    assert forall|y: Vertex| #[trigger] done.contains(y) <==> exists|k: int| 0 <= k < mst@.len() && mst@[k].1 == y by {
                        if y == x {
                            assert(mst@[n].1 == y);
                        } else if done.contains(y) {
                            let k = choose|k: int| 0 <= k < m0.len() && m0[k].1 == y;
                            assert(mst@[k] == m0[k]);
                        } else if exists|k: int| 0 <= k < mst@.len() && mst@[k].1 == y {
                            let k = choose|k: int| 0 <= k < mst@.len() && mst@[k].1 == y;
                            assert(mst@[k] == m0[k]);
                        }
                    }
                }
                true
            },
            None => x == s,
        };
        if relax {
            proof {
                assert(g.vertex_set().contains(x));
            }
            let ghost q1 = pq.priorities();
            relax_neighbours(g, x, &mut pq, &mut parents);
            proof {
                assert forall|v: Vertex|
                    #[trigger] pq.priorities().contains_key(v) && v != s && pq.priorities()[v] < i32::MAX implies parents@.contains_key(v) by {
                    if pq.priorities()[v] == q1[v] {
                        assert(q0.contains_key(v));
                    }
                }
                relaxed = relaxed.insert(x);
                if light {
                    assert(!stopped) by {
                        if stopped {
                            if x == s {
                                assert(q0.contains_key(s));
                            } else {
                                assert(parents0.contains_key(x));
                            }
                        }
                    }
                    assert forall|a: Vertex, b: Vertex|
                        relaxed.contains(a) && #[trigger] has_edge(adj, a, b) implies relaxed.contains(b) || (
                        pq.priorities().contains_key(b) && parents@.contains_key(b)) by {
                        if pq.priorities().contains_key(b) {
                            assert(q1.contains_key(b));
                            if a == x {
                                assert(pq.priorities()[b] <= adj[x][b]);
                                assert(b != s);
                            } else {
                                assert(r0.contains(a));
                                assert(b != x);
                            }
                        } else if b != x {
                            assert(g.vertex_set().contains(b)) by {
                                assert(has_edge(adj, b, a));
                            }
                        }
                    }
                }
            }
        } else {
            proof {
                if light {
                    stopped = true;
                    assert forall|a: Vertex, b: Vertex|
                        relaxed.contains(a) && #[trigger] has_edge(adj, a, b) implies relaxed.contains(b) || (
                        pq.priorities().contains_key(b) && parents@.contains_key(b)) by {
                        if b == x {
                            assert(!parents0.contains_key(x));
                        }
                    }
                }
            }
        }
    }
    proof {
        if light && g.vertex_set().contains(s) {
            assert(closed(adj, relaxed)) by {
                assert forall|a: Vertex, b: Vertex| relaxed.contains(a) && #[trigger] has_edge(adj, a, b) implies relaxed.contains(b) by {}
            }
            lemma_closed_reach(adj, relaxed, s, s);
            assert forall|v: Vertex| #[trigger] reaches(adj, s, v) && v != s implies exists|k: int| 0 <= k < mst@.len() && mst@[k].1 == v by {
                assert(reach_set(adj, s).contains(v));
                assert(done.contains(v));
            }
        }
    }
    mst
}

} // verus!
