use vstd::prelude::*;

use crate::forest::{
    acyclic, edge_step, joined, lemma_acyclic_prefix, lemma_edge_joined, lemma_joined_refl,
    lemma_joined_symm, lemma_joined_trans, lemma_joined_walk, lemma_simple_walk, lemma_tracks_empty,
    lemma_tracks_push, tracks,
};
use crate::graph::{has_edge, Adjacency, Edge, Vertex};
use crate::reach::is_walk;
use crate::undirected_graph::{pair_at, pair_index};
use crate::undirected_graph::UndirectedGraph;
use crate::union_find::{union_loser, union_winner, UnionFind};

verus! {

/// Whether `g` has no cycle.
pub fn run(g: &UndirectedGraph) -> (r: bool)
    requires
        g.wf(),
    ensures
        r == acyclic(g.edge_list()),
        r == !exists|c: Seq<Vertex>| is_cycle(g.adjacency(), c),
        no_self_loops(g.adjacency()) ==> r == !exists|v: Seq<Vertex>| is_simple_cycle(g.adjacency(), v),
{
    is_acyclic(g)
}

/// Whether `g` has no cycle. The edges are scanned in order against disjoint sets of the
/// vertices: an edge whose endpoints are already in one set closes a cycle.
pub fn is_acyclic(g: &UndirectedGraph) -> (r: bool)
    requires
        g.wf(),
    ensures
        r == acyclic(g.edge_list()),
        r == !exists|c: Seq<Vertex>| is_cycle(g.adjacency(), c),
        no_self_loops(g.adjacency()) ==> r == !exists|v: Seq<Vertex>| is_simple_cycle(g.adjacency(), v),
{
    let vs = g.get_vertices();
    let mut uf = UnionFind::from(vs);
    let edges = g.get_edges();
    proof {
        lemma_tracks_empty(uf.root_map(), vs@);
        assert(edges@.take(0) =~= Seq::<crate::graph::Edge>::empty());
    }
    let mut i: usize = 0;
    while i < edges.len()
        invariant
            g.wf(),
            edges@ == g.edge_list(),
            vs@ == g.vertex_set(),
            uf.wf(),
            uf.root_map().dom() == vs@,
            i <= edges.len(),
            tracks(uf.root_map(), edges@.take(i as int), vs@),
            acyclic(edges@.take(i as int)),
        decreases edges.len() - i,
    {
        let e = edges[i];
        proof {
            assert(edges@[i as int] == e);
            assert(has_edge(g.adjacency(), e.0, e.1));
            assert(edges@.take(i + 1).drop_last() =~= edges@.take(i as int));
            assert(edges@.take(i + 1).last() == e);
        }
        let r0 = uf.find(&e.0).unwrap();
        let r1 = uf.find(&e.1).unwrap();
        if r0 == r1 {
            proof {
                assert(joined(edges@.take(i as int), e.0, e.1));
                lemma_acyclic_prefix(edges@, i + 1);
                lemma_acyclic_iff_no_cycle(g);
                if no_self_loops(g.adjacency()) {
                    lemma_acyclic_iff_no_simple_cycle(g);
                }
            }
            return false;
        }
        let ghost roots = uf.root_map();
        let ghost sizes = uf.size_map();
        uf.union(&e.0, &e.1);
        proof {
            lemma_tracks_push(
                roots,
                uf.root_map(),
                edges@.take(i as int),
                vs@,
                e,
                union_loser(sizes, r0, r1),
                union_winner(sizes, r0, r1),
            );
            assert(edges@.take(i as int).push(e) =~= edges@.take(i + 1));
        }
        i = i + 1;
    }
    proof {
        assert(edges@.take(i as int) =~= edges@);
        lemma_acyclic_iff_no_cycle(g);
        if no_self_loops(g.adjacency()) {
            lemma_acyclic_iff_no_simple_cycle(g);
        }
    }
    true
}

/// The steps `i` and `j` of `c` walk the same edge, in one direction or the other.
pub open spec fn same_step(c: Seq<Vertex>, i: int, j: int) -> bool {
    (c[i] == c[j] && c[i + 1] == c[j + 1]) || (c[i] == c[j + 1] && c[i + 1] == c[j])
}

/// `c` is a cycle of `adj`: a closed walk with at least one edge that walks no edge twice.
pub open spec fn is_cycle(adj: Adjacency, c: Seq<Vertex>) -> bool {
    &&& is_walk(adj, c)
    &&& c.len() >= 2
    &&& c[0] == c.last()
    &&& forall|i: int, j: int| 0 <= i < j < c.len() - 1 ==> !#[trigger] same_step(c, i, j)
}

/// The position in `es` of the edge that step `t` of `c` walks.
spec fn step_index(es: Seq<Edge>, c: Seq<Vertex>, t: int) -> int {
    if c[t] <= c[t + 1] {
        pair_index(es, c[t], c[t + 1])
    } else {
        pair_index(es, c[t + 1], c[t])
    }
}

/// Position `ix[t]` of `es` holds the edge that step `t` of `c` walks.
spec fn steps_at(es: Seq<Edge>, c: Seq<Vertex>, ix: Seq<int>) -> bool {
    forall|t: int| 0 <= t < ix.len() ==> #[trigger] pair_at(es, ix[t], es[ix[t]].0, es[ix[t]].1)
        && ((es[ix[t]].0 == c[t] && es[ix[t]].1 == c[t + 1]) || (es[ix[t]].0 == c[t + 1] && es[ix[t]].1 == c[t]))
}

/// A position of a largest element of `s`.
proof fn lemma_argmax(s: Seq<int>) -> (m: int)
    requires
        s.len() > 0,
    ensures
        0 <= m < s.len(),
        forall|t: int| 0 <= t < s.len() ==> #[trigger] s[t] <= s[m],
    decreases s.len(),
{
    if s.len() == 1 {
        0
    } else {
        let m0 = lemma_argmax(s.drop_last());
        assert forall|t: int| 0 <= t < s.len() - 1 implies #[trigger] s[t] <= s[m0] by {
            assert(s.drop_last()[t] == s[t]);
        }
        if s[m0] >= s[s.len() - 1] {
            m0
        } else {
            s.len() - 1
        }
    }
}

/// The steps `a` to `b` of `c`, whose edges all come before position `n` of `es`, join
/// `c[a]` and `c[b]` in the first `n` edges.
proof fn lemma_steps_joined(es: Seq<Edge>, c: Seq<Vertex>, ix: Seq<int>, n: int, a: int, b: int)
    requires
        0 <= a <= b < c.len(),
        ix.len() == c.len() - 1,
        0 <= n <= es.len(),
        forall|t: int| a <= t < b ==> 0 <= #[trigger] ix[t] < n,
        steps_at(es, c, ix),
    ensures
        joined(es.take(n), c[a], c[b]),
    decreases b - a,
{
    let pre = es.take(n);
    if a == b {
        lemma_joined_refl(pre, c[a]);
    } else {
        lemma_steps_joined(es, c, ix, n, a, b - 1);
        let k = ix[b - 1];
        assert(pair_at(es, k, es[k].0, es[k].1));
        assert(pre[k] == es[k]);
        lemma_edge_joined(pre, k);
        if es[k].0 == c[b - 1] && es[k].1 == c[b] {
        } else {
            lemma_joined_symm(pre, es[k].0, es[k].1);
        }
        lemma_joined_trans(pre, c[a], c[b - 1], c[b]);
    }
}

/// A graph with a cycle is not acyclic: of the edges of the cycle, the one that comes last in
/// the edge list joins two vertices that the other edges of the cycle already join.
pub proof fn lemma_cycle_not_acyclic(g: &UndirectedGraph, c: Seq<Vertex>)
    requires
        g.wf(),
        is_cycle(g.adjacency(), c),
    ensures
        !acyclic(g.edge_list()),
{
    let adj = g.adjacency();
    let es = g.edge_list();
    let k = c.len() - 1;
    let ix = Seq::new(k as nat, |t: int| step_index(es, c, t));
    assert forall|t: int| 0 <= t < ix.len() implies #[trigger] pair_at(es, ix[t], es[ix[t]].0, es[ix[t]].1)
        && ((es[ix[t]].0 == c[t] && es[ix[t]].1 == c[t + 1]) || (es[ix[t]].0 == c[t + 1] && es[ix[t]].1 == c[t])) by {
        assert(has_edge(adj, c[t], c[t + 1]));
        assert(has_edge(adj, c[t + 1], c[t]));
        if c[t] <= c[t + 1] {
            assert(pair_at(es, pair_index(es, c[t], c[t + 1]), c[t], c[t + 1]));
        } else {
            assert(pair_at(es, pair_index(es, c[t + 1], c[t]), c[t + 1], c[t]));
        }
    }
    assert(steps_at(es, c, ix));
    let m = lemma_argmax(ix);
    let n = ix[m];
    assert forall|t: int| 0 <= t < k && t != m implies 0 <= #[trigger] ix[t] < n by {
        assert(pair_at(es, ix[t], es[ix[t]].0, es[ix[t]].1));
        assert(pair_at(es, ix[m], es[ix[m]].0, es[ix[m]].1));
        if ix[t] == n {
            if t < m {
                assert(same_step(c, t, m));
            } else {
                assert(same_step(c, m, t));
            }
        }
    }
    assert(pair_at(es, n, es[n].0, es[n].1));
    let pre = es.take(n);
    lemma_steps_joined(es, c, ix, n, m + 1, k);
    lemma_steps_joined(es, c, ix, n, 0, m);
    lemma_joined_trans(pre, c[m + 1], c[k], c[m]);
    lemma_joined_symm(pre, c[m + 1], c[m]);
    if es[n].0 == c[m] && es[n].1 == c[m + 1] {
    } else {
    }
    assert(joined(pre, es[n].0, es[n].1));
    assert(es.take(n + 1).drop_last() =~= pre);
    assert(es.take(n + 1).last() == es[n]);
    lemma_acyclic_prefix(es, n + 1);
}

/// When `es` is not acyclic, a position of `es` whose edge joins two vertices that the edges
/// before it already join.
proof fn lemma_closing_edge(es: Seq<Edge>) -> (n: int)
    requires
        !acyclic(es),
    ensures
        0 <= n < es.len(),
        joined(es.take(n), es[n].0, es[n].1),
    decreases es.len(),
{
    let p = es.drop_last();
    if joined(p, es.last().0, es.last().1) {
        assert(es.take(es.len() - 1) =~= p);
        es.len() - 1
    } else {
        let n = lemma_closing_edge(p);
        assert(p.take(n) =~= es.take(n));
        assert(p[n] == es[n]);
        n
    }
}

/// A graph that is not acyclic has a cycle: the edge that closes it and a path between its
/// endpoints along the edges before it.
pub proof fn lemma_not_acyclic_cycle(g: &UndirectedGraph) -> (c: Seq<Vertex>)
    requires
        g.wf(),
        !acyclic(g.edge_list()),
    ensures
        is_cycle(g.adjacency(), c),
        c.drop_last().no_duplicates(),
        no_self_loops(g.adjacency()) ==> c.len() >= 4,
{
    let adj = g.adjacency();
    let es = g.edge_list();
    let n = lemma_closing_edge(es);
    let a = es[n].0;
    let b = es[n].1;
    assert(has_edge(adj, a, b));
    assert(has_edge(adj, b, a));
    if a == b {
        let c = seq![a, a];
        assert(is_walk(adj, c));
        assert(c.drop_last() =~= seq![a]);
        c
    } else {
        let pre = es.take(n);
        let w = lemma_joined_walk(pre, a, b);
        let p = lemma_simple_walk(pre, w);
        let c = p.push(a);
        assert forall|t: int| 0 <= t < p.len() - 1 implies has_edge(adj, #[trigger] p[t], p[t + 1]) by {
            assert(edge_step(pre, p[t], p[t + 1]));
            let i = choose|i: int| 0 <= i < pre.len() && ((pre[i].0 == p[t] && pre[i].1 == p[t + 1]) || (pre[i].0 == p[t + 1] && pre[i].1 == p[t]));
            assert(pre[i] == es[i]);
            assert(has_edge(adj, es[i].0, es[i].1));
        }
        assert(p.len() >= 2) by {
            if p.len() == 1 {
                assert(p[0] == p.last());
            }
        }
        assert forall|t: int| #![trigger c[t]] 0 <= t < c.len() - 1 implies has_edge(adj, c[t], c[t + 1]) by {
            if t < p.len() - 1 {
                assert(c[t] == p[t] && c[t + 1] == p[t + 1]);
            } else {
                assert(c[t] == b && c[t + 1] == a);
            }
        }
        assert forall|i: int, j: int| 0 <= i < j < c.len() - 1 implies !#[trigger] same_step(c, i, j) by {
            assert(c[i] == p[i] && c[i + 1] == p[i + 1]);
            if j < p.len() - 1 {
                assert(c[j] == p[j] && c[j + 1] == p[j + 1]);
                if same_step(c, i, j) {
                    if p[i] == p[j] {
                    } else {
                        assert(p[i] == p[j + 1]);
                    }
                }
            } else {
                assert(c[j] == b && c[j + 1] == a);
                if same_step(c, i, j) {
                    assert(edge_step(pre, p[i], p[i + 1]));
                    let k = choose|k: int| 0 <= k < pre.len() && ((pre[k].0 == p[i] && pre[k].1 == p[i + 1]) || (pre[k].0 == p[i + 1] && pre[k].1 == p[i]));
                    assert(pre[k] == es[k]);
                    assert(es[k].0 <= es[k].1);
                    assert(es[n].0 <= es[n].1);
                    assert(k != n);
                }
            }
        }
        assert(c.drop_last() =~= p);
        assert(p.len() >= 3) by {
            if p.len() == 2 {
                assert(p[1] == b);
                assert(edge_step(pre, p[0], p[1]));
                let k = choose|k: int| 0 <= k < pre.len() && ((pre[k].0 == p[0] && pre[k].1 == p[1]) || (pre[k].0 == p[1] && pre[k].1 == p[0]));
                assert(pre[k] == es[k]);
                assert(es[k].0 <= es[k].1);
                assert(es[n].0 <= es[n].1);
                assert(k != n);
            }
        }
        c
    }
}

/// A graph is acyclic exactly when it has no cycle.
pub proof fn lemma_acyclic_iff_no_cycle(g: &UndirectedGraph)
    requires
        g.wf(),
    ensures
        acyclic(g.edge_list()) <==> !exists|c: Seq<Vertex>| is_cycle(g.adjacency(), c),
{
    if acyclic(g.edge_list()) {
        assert forall|c: Seq<Vertex>| !is_cycle(g.adjacency(), c) by {
            if is_cycle(g.adjacency(), c) {
                lemma_cycle_not_acyclic(g, c);
            }
        }
    } else {
        let c = lemma_not_acyclic_cycle(g);
    }
}

/// No vertex has an edge to itself.
pub open spec fn no_self_loops(adj: Adjacency) -> bool {
    forall|u: Vertex| !#[trigger] has_edge(adj, u, u)
}

/// `v` lists a simple cycle of `adj`: at least three distinct vertices, each with an edge to
/// the next, and the last with an edge to the first.
pub open spec fn is_simple_cycle(adj: Adjacency, v: Seq<Vertex>) -> bool {
    &&& v.len() >= 3
    &&& v.no_duplicates()
    &&& forall|i: int| 0 <= i < v.len() - 1 ==> has_edge(adj, #[trigger] v[i], v[i + 1])
    &&& has_edge(adj, v.last(), v[0])
}

/// A graph without self-loops is acyclic exactly when it has no simple cycle.
pub proof fn lemma_acyclic_iff_no_simple_cycle(g: &UndirectedGraph)
    requires
        g.wf(),
        no_self_loops(g.adjacency()),
    ensures
        acyclic(g.edge_list()) <==> !exists|v: Seq<Vertex>| is_simple_cycle(g.adjacency(), v),
{
    let adj = g.adjacency();
    if acyclic(g.edge_list()) {
        assert forall|v: Seq<Vertex>| !is_simple_cycle(adj, v) by {
            if is_simple_cycle(adj, v) {
                let c = v.push(v[0]);
                assert forall|t: int| #![trigger c[t]] 0 <= t < c.len() - 1 implies has_edge(adj, c[t], c[t + 1]) by {
                    if t < v.len() - 1 {
                        assert(c[t] == v[t] && c[t + 1] == v[t + 1]);
                    } else {
                        assert(c[t] == v.last() && c[t + 1] == v[0]);
                    }
                }
                assert forall|i: int, j: int| 0 <= i < j < c.len() - 1 implies !#[trigger] same_step(c, i, j) by {
                    let k = v.len() - 1;
                    assert(c[i] == v[i]);
                    assert(c[j] == v[j]);
                    if j < k {
                        assert(c[i + 1] == v[i + 1] && c[j + 1] == v[j + 1]);
                    } else {
                        assert(c[j + 1] == v[0]);
                        if i + 1 < v.len() {
                            assert(c[i + 1] == v[i + 1]);
                        }
                    }
                }
                assert(c.last() == c[0]);
                lemma_cycle_not_acyclic(g, c);
            }
        }
    } else {
        let c = lemma_not_acyclic_cycle(g);
        let v = c.drop_last();
        assert forall|i: int| 0 <= i < v.len() - 1 implies has_edge(adj, #[trigger] v[i], v[i + 1]) by {
            assert(v[i] == c[i] && v[i + 1] == c[i + 1]);
        }
        assert(has_edge(adj, c[v.len() - 1], c[v.len() as int]));
        assert(is_simple_cycle(adj, v));
    }
}

} // verus!
