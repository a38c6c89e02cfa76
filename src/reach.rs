use vstd::prelude::*;

use crate::graph::{has_edge, Adjacency, Vertex};

verus! {

/// `p` is a walk in `adj`: a nonempty sequence of vertices, each joined to the next by an edge.
pub open spec fn is_walk(adj: Adjacency, p: Seq<Vertex>) -> bool {
    &&& p.len() >= 1
    &&& forall|i: int| #![trigger p[i]] 0 <= i < p.len() - 1 ==> has_edge(adj, p[i], p[i + 1])
}

/// Some walk in `adj`, possibly without edges, leads from `s` to `x`.
pub open spec fn reaches(adj: Adjacency, s: Vertex, x: Vertex) -> bool {
    exists|p: Seq<Vertex>| is_walk(adj, p) && p[0] == s && p.last() == x
}

/// Some walk in `adj` with at least one edge leads from `s` to `t`.
pub open spec fn connects(adj: Adjacency, s: Vertex, t: Vertex) -> bool {
    exists|p: Seq<Vertex>| is_walk(adj, p) && p.len() >= 2 && p[0] == s && p.last() == t
}

/// Every edge that leaves a vertex of `vs` ends in `vs`.
pub open spec fn closed(adj: Adjacency, vs: Set<Vertex>) -> bool {
    forall|x: Vertex, y: Vertex| vs.contains(x) && #[trigger] has_edge(adj, x, y) ==> vs.contains(y)
}

/// No vertex of `vs` has an edge to `t`.
pub open spec fn avoids(adj: Adjacency, vs: Set<Vertex>, t: Vertex) -> bool {
    forall|x: Vertex| vs.contains(x) ==> !#[trigger] has_edge(adj, x, t)
}

/// The vertices that `s` reaches.
pub open spec fn reach_set(adj: Adjacency, s: Vertex) -> Set<Vertex> {
    Set::new(|x: Vertex| reaches(adj, s, x))
}

/// Every vertex reaches itself.
pub proof fn lemma_reaches_self(adj: Adjacency, s: Vertex)
    ensures
        reaches(adj, s, s),
{
    let p = seq![s];
    assert(is_walk(adj, p));
    assert(p[0] == s && p.last() == s);
}

/// A walk to `x` goes on along an edge from `x` to `y`.
pub proof fn lemma_reaches_step(adj: Adjacency, s: Vertex, x: Vertex, y: Vertex)
    requires
        reaches(adj, s, x),
        has_edge(adj, x, y),
    ensures
        reaches(adj, s, y),
        connects(adj, s, y),
{
    let p = choose|p: Seq<Vertex>| is_walk(adj, p) && p[0] == s && p.last() == x;
    let q = p.push(y);
    assert forall|i: int| #![trigger q[i]] 0 <= i < q.len() - 1 implies has_edge(adj, q[i], q[i + 1]) by {
        if i < p.len() - 1 {
            assert(q[i] == p[i] && q[i + 1] == p[i + 1]);
        }
    }
    assert(is_walk(adj, q));
    assert(q[0] == s && q.last() == y && q.len() >= 2);
}

/// A walk that starts in a closed set stays in it.
proof fn lemma_walk_stays(adj: Adjacency, vs: Set<Vertex>, p: Seq<Vertex>, i: int)
    requires
        closed(adj, vs),
        is_walk(adj, p),
        vs.contains(p[0]),
        0 <= i < p.len(),
    ensures
        vs.contains(p[i]),
    decreases i,
{
    if i > 0 {
        lemma_walk_stays(adj, vs, p, i - 1);
        assert(has_edge(adj, p[i - 1], p[i]));
    }
}

/// A closed set holds every vertex that its members reach, and when it avoids `t`, no walk
/// with an edge leads from it to `t`.
pub proof fn lemma_closed_reach(adj: Adjacency, vs: Set<Vertex>, s: Vertex, t: Vertex)
    requires
        closed(adj, vs),
        vs.contains(s),
    ensures
        reach_set(adj, s).subset_of(vs),
        avoids(adj, vs, t) ==> !connects(adj, s, t),
{
    assert forall|x: Vertex| reach_set(adj, s).contains(x) implies vs.contains(x) by {
        let p = choose|p: Seq<Vertex>| is_walk(adj, p) && p[0] == s && p.last() == x;
        lemma_walk_stays(adj, vs, p, p.len() - 1);
    }
    if avoids(adj, vs, t) && connects(adj, s, t) {
        let p = choose|p: Seq<Vertex>| is_walk(adj, p) && p.len() >= 2 && p[0] == s && p.last() == t;
        let n = p.len() - 1;
        lemma_walk_stays(adj, vs, p, n - 1);
        assert(has_edge(adj, p[n - 1], p[n]));
    }
}

/// Walks join: `a` reaches what `b` reaches when it reaches `b`.
pub proof fn lemma_reaches_trans(adj: Adjacency, a: Vertex, b: Vertex, c: Vertex)
    requires
        reaches(adj, a, b),
        reaches(adj, b, c),
    ensures
        reaches(adj, a, c),
{
    let p = choose|p: Seq<Vertex>| is_walk(adj, p) && p[0] == a && p.last() == b;
    let q = choose|q: Seq<Vertex>| is_walk(adj, q) && q[0] == b && q.last() == c;
    let r = p + q.drop_first();
    assert forall|i: int| #![trigger r[i]] 0 <= i < r.len() - 1 implies has_edge(adj, r[i], r[i + 1]) by {
        if i < p.len() - 1 {
            assert(r[i] == p[i] && r[i + 1] == p[i + 1]);
        } else if i == p.len() - 1 {
            assert(r[i] == q[0] && r[i + 1] == q[1]);
        } else {
            let k = i - p.len() + 1;
            assert(r[i] == q[k] && r[i + 1] == q[k + 1]);
        }
    }
    if q.len() == 1 {
        assert(r =~= p);
    } else {
        assert(r.last() == q.last());
    }
    assert(is_walk(adj, r) && r[0] == a && r.last() == c);
}

/// In a graph whose edges go both ways, walks can be walked back.
pub proof fn lemma_reaches_symmetric(adj: Adjacency, a: Vertex, b: Vertex)
    requires
        crate::graph::symmetric(adj),
        reaches(adj, a, b),
    ensures
        reaches(adj, b, a),
{
    let p = choose|p: Seq<Vertex>| is_walk(adj, p) && p[0] == a && p.last() == b;
    let r = p.reverse();
    assert forall|i: int| #![trigger r[i]] 0 <= i < r.len() - 1 implies has_edge(adj, r[i], r[i + 1]) by {
        let k = p.len() - 2 - i;
        assert(r[i] == p[k + 1] && r[i + 1] == p[k]);
        assert(has_edge(adj, p[k], p[k + 1]));
    }
    assert(is_walk(adj, r));
    assert(r[0] == b && r.last() == a);
}

/// In a graph whose edges go both ways, a walk with an edge can be walked back.
pub proof fn lemma_connects_reverse(adj: Adjacency, a: Vertex, b: Vertex)
    requires
        crate::graph::symmetric(adj),
        connects(adj, a, b),
    ensures
        connects(adj, b, a),
{
    let p = choose|p: Seq<Vertex>| is_walk(adj, p) && p.len() >= 2 && p[0] == a && p.last() == b;
    let r = p.reverse();
    assert forall|i: int| #![trigger r[i]] 0 <= i < r.len() - 1 implies has_edge(adj, r[i], r[i + 1]) by {
        let k = p.len() - 2 - i;
        assert(r[i] == p[k + 1] && r[i + 1] == p[k]);
        assert(has_edge(adj, p[k], p[k + 1]));
    }
    assert(is_walk(adj, r));
    assert(r[0] == b && r.last() == a && r.len() >= 2);
}

} // verus!
