use vstd::prelude::*;

use crate::graph::{Edge, Vertex};

verus! {

/// `x` and `y` lie in one component of the graph whose edges are `es`: with no edges only
/// `x == y` holds, and each further edge `(a, b)` merges the components of `a` and `b`.
pub open spec fn joined(es: Seq<Edge>, x: Vertex, y: Vertex) -> bool
    decreases es.len(),
{
    if es.len() == 0 {
        x == y
    } else {
        let p = es.drop_last();
        let e = es.last();
        joined(p, x, y) || (joined(p, x, e.0) && joined(p, e.1, y)) || (joined(p, x, e.1) && joined(
            p,
            e.0,
            y,
        ))
    }
}

/// No edge of `es` joins two vertices that the edges before it already join.
pub open spec fn acyclic(es: Seq<Edge>) -> bool
    decreases es.len(),
{
    if es.len() == 0 {
        true
    } else {
        acyclic(es.drop_last()) && !joined(es.drop_last(), es.last().0, es.last().1)
    }
}

/// The edges that Kruskal's rule keeps from `es`, taken in order: each edge whose endpoints
/// the edges kept before it do not already join.
pub open spec fn spanning_forest(es: Seq<Edge>) -> Seq<Edge>
    decreases es.len(),
{
    if es.len() == 0 {
        Seq::empty()
    } else {
        let f = spanning_forest(es.drop_last());
        let e = es.last();
        if joined(f, e.0, e.1) {
            f
        } else {
            f.push(e)
        }
    }
}

/// The total weight of `es`.
pub open spec fn total_weight(es: Seq<Edge>) -> int
    decreases es.len(),
{
    if es.len() == 0 {
        0
    } else {
        total_weight(es.drop_last()) + es.last().2
    }
}

/// `roots` gives two vertices of `vs` the same representative exactly when `es` joins them.
pub open spec fn tracks(roots: Map<Vertex, Vertex>, es: Seq<Edge>, vs: Set<Vertex>) -> bool {
    forall|x: Vertex, y: Vertex|
        vs.contains(x) && vs.contains(y) ==> (roots[x] == roots[y] <==> #[trigger] joined(es, x, y))
}

/// The edges that Kruskal's rule keeps never close a cycle.
pub proof fn lemma_spanning_forest_acyclic(es: Seq<Edge>)
    ensures
        acyclic(spanning_forest(es)),
    decreases es.len(),
{
    if es.len() > 0 {
        let f = spanning_forest(es.drop_last());
        lemma_spanning_forest_acyclic(es.drop_last());
        assert(f.push(es.last()).drop_last() == f);
    }
}

/// Every edge that Kruskal's rule keeps comes from `es`.
pub proof fn lemma_spanning_forest_from(es: Seq<Edge>)
    ensures
        forall|k: int|
            0 <= k < spanning_forest(es).len() ==> exists|j: int|
                0 <= j < es.len() && #[trigger] spanning_forest(es)[k] == es[j],
    decreases es.len(),
{
    if es.len() > 0 {
        let p = es.drop_last();
        lemma_spanning_forest_from(p);
        let f = spanning_forest(p);
        assert forall|k: int| 0 <= k < spanning_forest(es).len() implies exists|j: int|
            0 <= j < es.len() && #[trigger] spanning_forest(es)[k] == es[j] by {
            if k < f.len() {
                let j = choose|j: int| 0 <= j < p.len() && f[k] == p[j];
                assert(es[j] == p[j]);
            } else {
                assert(spanning_forest(es)[k] == es[es.len() - 1]);
            }
        }
    }
}

/// Identical representatives track the edgeless graph.
pub proof fn lemma_tracks_empty(roots: Map<Vertex, Vertex>, vs: Set<Vertex>)
    requires
        forall|x: Vertex| #[trigger] vs.contains(x) ==> roots[x] == x,
    ensures
        tracks(roots, Seq::empty(), vs),
{
}

/// Merging the sets of the endpoints of `e` tracks the graph that gains `e`.
pub proof fn lemma_tracks_push(
    roots: Map<Vertex, Vertex>,
    merged: Map<Vertex, Vertex>,
    es: Seq<Edge>,
    vs: Set<Vertex>,
    e: Edge,
    from: Vertex,
    to: Vertex,
)
    requires
        tracks(roots, es, vs),
        vs.contains(e.0),
        vs.contains(e.1),
        (from == roots[e.0] && to == roots[e.1]) || (from == roots[e.1] && to == roots[e.0]),
        forall|x: Vertex| #[trigger] vs.contains(x) ==> merged[x] == if roots[x] == from { to } else { roots[x] },
    ensures
        tracks(merged, es.push(e), vs),
{
    let es2 = es.push(e);
    assert(es2.drop_last() == es);
    assert forall|x: Vertex, y: Vertex| vs.contains(x) && vs.contains(y) implies (merged[x] == merged[y]
        <==> #[trigger] joined(es2, x, y)) by {
        assert(joined(es, x, e.0) == (roots[x] == roots[e.0]));
        assert(joined(es, x, e.1) == (roots[x] == roots[e.1]));
        assert(joined(es, e.0, y) == (roots[e.0] == roots[y]));
        assert(joined(es, e.1, y) == (roots[e.1] == roots[y]));
        assert(joined(es, x, y) == (roots[x] == roots[y]));
    }
}

/// A graph whose first edges already close a cycle has a cycle.
pub proof fn lemma_acyclic_prefix(es: Seq<Edge>, j: int)
    requires
        0 <= j <= es.len(),
        !acyclic(es.take(j)),
    ensures
        !acyclic(es),
    decreases es.len(),
{
    if j == es.len() {
        assert(es.take(j) =~= es);
    } else {
        assert(es.drop_last().take(j) =~= es.take(j));
        lemma_acyclic_prefix(es.drop_last(), j);
    }
}

/// Every vertex is joined to itself.
pub proof fn lemma_joined_refl(es: Seq<Edge>, x: Vertex)
    ensures
        joined(es, x, x),
    decreases es.len(),
{
    if es.len() > 0 {
        lemma_joined_refl(es.drop_last(), x);
    }
}

/// Being joined goes both ways.
pub proof fn lemma_joined_symm(es: Seq<Edge>, x: Vertex, y: Vertex)
    requires
        joined(es, x, y),
    ensures
        joined(es, y, x),
    decreases es.len(),
{
    if es.len() > 0 {
        let p = es.drop_last();
        let e = es.last();
        if joined(p, x, y) {
            lemma_joined_symm(p, x, y);
        } else if joined(p, x, e.0) && joined(p, e.1, y) {
            lemma_joined_symm(p, x, e.0);
            lemma_joined_symm(p, e.1, y);
        } else {
            lemma_joined_symm(p, x, e.1);
            lemma_joined_symm(p, e.0, y);
        }
    }
}

/// Being joined carries over: what `y` is joined to, `x` is joined to when joined to `y`.
pub proof fn lemma_joined_trans(es: Seq<Edge>, x: Vertex, y: Vertex, z: Vertex)
    requires
        joined(es, x, y),
        joined(es, y, z),
    ensures
        joined(es, x, z),
    decreases es.len(),
{
    if es.len() > 0 {
        let p = es.drop_last();
        let a = es.last().0;
        let b = es.last().1;
        if joined(p, x, y) && joined(p, y, z) {
            lemma_joined_trans(p, x, y, z);
        }
        if joined(p, x, y) && joined(p, y, a) {
            lemma_joined_trans(p, x, y, a);
        }
        if joined(p, x, y) && joined(p, y, b) {
            lemma_joined_trans(p, x, y, b);
        }
        if joined(p, b, y) && joined(p, y, z) {
            lemma_joined_trans(p, b, y, z);
        }
        if joined(p, a, y) && joined(p, y, z) {
            lemma_joined_trans(p, a, y, z);
        }
        if joined(p, x, a) && joined(p, a, z) {
            lemma_joined_trans(p, x, a, z);
        }
        if joined(p, x, b) && joined(p, b, z) {
            lemma_joined_trans(p, x, b, z);
        }
    }
}

/// Each edge of `es` joins its endpoints.
pub proof fn lemma_edge_joined(es: Seq<Edge>, i: int)
    requires
        0 <= i < es.len(),
    ensures
        joined(es, es[i].0, es[i].1),
    decreases es.len(),
{
    let p = es.drop_last();
    if i == es.len() - 1 {
        lemma_joined_refl(p, es[i].0);
        lemma_joined_refl(p, es[i].1);
    } else {
        assert(p[i] == es[i]);
        lemma_edge_joined(p, i);
    }
}

/// Some edge of `es` joins `u` and `v`, in one direction or the other.
pub open spec fn edge_step(es: Seq<Edge>, u: Vertex, v: Vertex) -> bool {
    exists|i: int| 0 <= i < es.len() && ((es[i].0 == u && es[i].1 == v) || (es[i].0 == v && es[i].1 == u))
}

/// Each step of `w` follows an edge of `es`.
pub open spec fn walks_along(es: Seq<Edge>, w: Seq<Vertex>) -> bool {
    forall|t: int| 0 <= t < w.len() - 1 ==> #[trigger] edge_step(es, w[t], w[t + 1])
}

/// Vertices that `es` joins are the ends of a walk along the edges of `es`.
pub proof fn lemma_joined_walk(es: Seq<Edge>, x: Vertex, y: Vertex) -> (w: Seq<Vertex>)
    requires
        joined(es, x, y),
    ensures
        w.len() >= 1,
        w[0] == x,
        w.last() == y,
        walks_along(es, w),
    decreases es.len(),
{
    if es.len() == 0 {
        let w = seq![x];
        assert(walks_along(es, w));
        w
    } else {
        let p = es.drop_last();
        let e = es.last();
        let n = es.len() - 1;
        assert forall|u: Vertex, v: Vertex| #[trigger] edge_step(p, u, v) implies edge_step(es, u, v) by {
            let i = choose|i: int| 0 <= i < p.len() && ((p[i].0 == u && p[i].1 == v) || (p[i].0 == v && p[i].1 == u));
            assert(es[i] == p[i]);
        }
        assert(edge_step(es, e.0, e.1)) by {
            assert(es[n] == e);
        }
        assert(edge_step(es, e.1, e.0)) by {
            assert(es[n] == e);
        }
        if joined(p, x, y) {
            let w = lemma_joined_walk(p, x, y);
            assert forall|t: int| 0 <= t < w.len() - 1 implies #[trigger] edge_step(es, w[t], w[t + 1]) by {
                assert(edge_step(p, w[t], w[t + 1]));
            }
            w
        } else {
            let (m0, m1) = if joined(p, x, e.0) && joined(p, e.1, y) {
                (e.0, e.1)
            } else {
                (e.1, e.0)
            };
            let w1 = lemma_joined_walk(p, x, m0);
            let w2 = lemma_joined_walk(p, m1, y);
            let w = w1 + w2;
            assert forall|t: int| 0 <= t < w.len() - 1 implies #[trigger] edge_step(es, w[t], w[t + 1]) by {
                if t < w1.len() - 1 {
                    assert(w[t] == w1[t] && w[t + 1] == w1[t + 1]);
                    assert(edge_step(p, w1[t], w1[t + 1]));
                } else if t == w1.len() - 1 {
                    assert(w[t] == m0 && w[t + 1] == m1);
                } else {
                    let k = t - w1.len();
                    assert(w[t] == w2[k] && w[t + 1] == w2[k + 1]);
                    assert(edge_step(p, w2[k], w2[k + 1]));
                }
            }
            assert(w.last() == w2.last());
            w
        }
    }
}

/// A walk along the edges of `es` shortens to one that visits no vertex twice, with the same
/// ends and steps taken from the walk.
pub proof fn lemma_simple_walk(es: Seq<Edge>, w: Seq<Vertex>) -> (p: Seq<Vertex>)
    requires
        w.len() >= 1,
        walks_along(es, w),
    ensures
        p.len() >= 1,
        p[0] == w[0],
        p.last() == w.last(),
        p.no_duplicates(),
        walks_along(es, p),
    decreases w.len(),
{
    if w.no_duplicates() {
        w
    } else {
        let (i, j) = choose|i: int, j: int| 0 <= i < w.len() && 0 <= j < w.len() && i != j && w[i] == w[j];
        let (a, b) = if i < j {
            (i, j)
        } else {
            (j, i)
        };
        let v = w.take(a) + w.skip(b);
        assert(v.len() == w.len() - (b - a));
        assert forall|t: int| 0 <= t < v.len() - 1 implies #[trigger] edge_step(es, v[t], v[t + 1]) by {
            if t < a - 1 {
                assert(v[t] == w[t] && v[t + 1] == w[t + 1]);
            } else if t == a - 1 {
                assert(v[t] == w[a - 1] && v[t + 1] == w[b]);
                assert(w[b] == w[a]);
                assert(edge_step(es, w[a - 1], w[a]));
            } else {
                let k = t + (b - a);
                assert(v[t] == w[k] && v[t + 1] == w[k + 1]);
            }
        }
        assert(v[0] == w[0]) by {
            if a == 0 {
                assert(w[b] == w[0]);
            }
        }
        assert(v.last() == w.last());
        lemma_simple_walk(es, v)
    }
}

/// The edges that Kruskal's rule keeps are a subsequence of `es`: `ix` gives their positions,
/// in increasing order.
pub proof fn lemma_spanning_forest_indices(es: Seq<Edge>) -> (ix: Seq<int>)
    ensures
        ix.len() == spanning_forest(es).len(),
        forall|k: int| 0 <= k < ix.len() ==> 0 <= #[trigger] ix[k] < es.len() && spanning_forest(es)[k] == es[ix[k]],
        forall|i: int, j: int| 0 <= i < j < ix.len() ==> #[trigger] ix[i] < #[trigger] ix[j],
    decreases es.len(),
{
    if es.len() == 0 {
        Seq::empty()
    } else {
        let p = es.drop_last();
        let ix0 = lemma_spanning_forest_indices(p);
        assert forall|k: int| 0 <= k < ix0.len() implies #[trigger] es[ix0[k]] == p[ix0[k]] by {}
        if joined(spanning_forest(p), es.last().0, es.last().1) {
            ix0
        } else {
            let ix = ix0.push(es.len() - 1);
            assert forall|k: int| 0 <= k < ix.len() implies 0 <= #[trigger] ix[k] < es.len() && spanning_forest(es)[k] == es[ix[k]] by {
                if k < ix0.len() {
                    assert(ix[k] == ix0[k]);
                }
            }
            ix
        }
    }
}

} // verus!
