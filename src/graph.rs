use std::collections::{HashMap, HashSet};
use vstd::prelude::*;
use vstd::std_specs::iter::IteratorSpec;

verus! {

broadcast use vstd::std_specs::hash::group_hash_axioms;

/// A vertex identifier.
pub type Vertex = usize;

/// An edge weight; negative weights are allowed.
pub type Weight = i32;

/// An edge `(u, v, w)`.
pub type Edge = (Vertex, Vertex, Weight);

/// A sequence of edges: a traversal or a spanning tree.
pub type Path = Vec<Edge>;

/// A graph as a map from each vertex to the weights of its outgoing edges.
pub type Adjacency = Map<Vertex, Map<Vertex, Weight>>;

/// There is an edge from `u` to `v`.
pub open spec fn has_edge(adj: Adjacency, u: Vertex, v: Vertex) -> bool {
    adj.contains_key(u) && adj[u].contains_key(v)
}

/// The weights of the edges that leave `u`; none when `u` is unknown.
pub open spec fn row(adj: Adjacency, u: Vertex) -> Map<Vertex, Weight> {
    if adj.contains_key(u) {
        adj[u]
    } else {
        Map::empty()
    }
}

/// Every edge can be walked both ways, with the same weight.
pub open spec fn symmetric(adj: Adjacency) -> bool {
    forall|u: Vertex, v: Vertex|
        #[trigger] has_edge(adj, u, v) ==> has_edge(adj, v, u) && adj[v][u] == adj[u][v]
}

/// `adj` with the edge from `x` to `y` set to `w`.
pub open spec fn attach(adj: Adjacency, x: Vertex, y: Vertex, w: Weight) -> Adjacency {
    adj.insert(x, row(adj, x).insert(y, w))
}

/// The operations that every graph offers, over its adjacency and its vertex set.
pub trait Graph {
    /// The weight of each edge, by its two endpoints.
    spec fn edge_weights(&self) -> Adjacency;

    /// The vertex set.
    spec fn vertex_view(&self) -> Set<Vertex>;

    /// The representation invariant.
    spec fn inv(&self) -> bool;

    /// Sets the weight of the edge from `u` to `v`, adding either vertex if absent.
    fn add_edge(&mut self, u: Vertex, v: Vertex, w: Weight)
        requires
            old(self).inv(),
        ensures
            final(self).inv(),
            has_edge(final(self).edge_weights(), u, v),
            final(self).edge_weights()[u][v] == w,
            final(self).vertex_view() == old(self).vertex_view().insert(u).insert(v),
    ;

    /// The number of vertices.
    fn get_size(&self) -> (r: usize)
        requires
            self.inv(),
        ensures
            r == self.vertex_view().len(),
    ;

    /// The neighbours of `v` with the weights of the edges to them; none when `v` has no
    /// outgoing edge.
    fn get_adj_list(&self, v: &Vertex) -> (r: Option<&HashMap<Vertex, Weight>>)
        requires
            self.inv(),
        ensures
            match r {
                Some(m) => self.edge_weights().contains_key(*v) && m@ == self.edge_weights()[*v],
                None => !self.edge_weights().contains_key(*v),
            },
    ;

    /// The weight of the edge from `u` to `v`, if there is one.
    fn get_weight(&self, u: &Vertex, v: &Vertex) -> (r: Option<Weight>)
        requires
            self.inv(),
        ensures
            r == if has_edge(self.edge_weights(), *u, *v) {
                Some(self.edge_weights()[*u][*v])
            } else {
                None::<Weight>
            },
    ;

    /// The vertex set.
    fn get_vertices(&self) -> (r: &HashSet<Vertex>)
        requires
            self.inv(),
        ensures
            r@ == self.vertex_view(),
    ;
}

/// The elements of `s`, each once, in the set's iteration order.
pub fn set_to_vec(s: &HashSet<Vertex>) -> (r: Vec<Vertex>)
    ensures
        r@.to_set() == s@,
        r@.no_duplicates(),
        r@.len() == s@.len(),
{
    let mut r: Vec<Vertex> = Vec::new();
    let ghost all = vstd::std_specs::hash::spec_hash_keys_iter(s).remaining().unref();
    for x in it: s.iter()
        invariant
            all == it.seq().unref(),
            all.to_set() == s@,
            all.no_duplicates(),
            all.len() == s@.len(),
            r@ == all.take(it.index()),
    {
        r.push(*x);
        proof {
            assert(all.take(it.index() + 1) =~= all.take(it.index()).push(*x));
        }
    }
    proof {
        assert(all.take(r@.len() as int) =~= all);
    }
    r
}

/// The entries of `m`, each once, in the map's iteration order.
pub fn map_to_vec(m: &HashMap<Vertex, Weight>) -> (r: Vec<(Vertex, Weight)>)
    ensures
        forall|i: int| 0 <= i < r@.len() ==> #[trigger] m@.contains_key(r@[i].0) && m@[r@[i].0] == r@[i].1,
        forall|v: Vertex| #[trigger] m@.contains_key(v) ==> exists|i: int| 0 <= i < r@.len() && r@[i].0 == v,
{
    let mut r: Vec<(Vertex, Weight)> = Vec::new();
    let ghost all = vstd::std_specs::hash::spec_hash_map_iter(m).remaining();
    for p in it: m.iter()
        invariant
            all == it.seq(),
            forall|i: int| #![trigger all[i]] 0 <= i < all.len() ==> m@.contains_key(*all[i].0) && m@[*all[i].0] == *all[i].1,
            forall|v: Vertex| #[trigger] m@.contains_key(v) ==> all.contains((&v, &m@[v])),
            r@.len() == it.index(),
            forall|i: int| 0 <= i < it.index() ==> r@[i] == (*all[i].0, *all[i].1),
    {
        r.push((*p.0, *p.1));
    }
    proof {
        assert forall|v: Vertex| #[trigger] m@.contains_key(v) implies exists|i: int| 0 <= i < r@.len() && r@[i].0 == v by {
            let i = choose|i: int| 0 <= i < all.len() && all[i] == (&v, &m@[v]);
            assert(r@[i].0 == v);
        }
    }
    r
}

} // verus!
