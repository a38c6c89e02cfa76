use std::collections::{HashMap, HashSet};
use vstd::prelude::*;

use crate::graph::{attach, has_edge, Adjacency, Graph, Vertex, Weight};

verus! {

broadcast use vstd::std_specs::hash::group_hash_axioms;

/// A directed weighted graph. Adding an edge from `u` to `v` again replaces its weight.
pub struct DirectedGraph {
    adj_matrix: HashMap<Vertex, HashMap<Vertex, Weight>>,
    vertices: HashSet<Vertex>,
    size: usize,
}

impl DirectedGraph {
    /// The weight of each edge, by its source and its target.
    pub closed spec fn adjacency(&self) -> Adjacency {
        self.adj_matrix@.map_values(|r: HashMap<Vertex, Weight>| r@)
    }

    /// The vertex set.
    pub closed spec fn vertex_set(&self) -> Set<Vertex> {
        self.vertices@
    }

    /// The number of vertices the graph was made for.
    pub closed spec fn capacity(&self) -> usize {
        self.size
    }

    /// Both ends of every edge are vertices.
    pub open spec fn wf(&self) -> bool {
        forall|u: Vertex, v: Vertex|
            #[trigger] has_edge(self.adjacency(), u, v) ==> self.vertex_set().contains(u) && self.vertex_set().contains(v)
    }

    /// An empty graph made for `size` vertices.
    pub fn new(size: usize) -> (g: DirectedGraph)
        ensures
            g.wf(),
            g.adjacency() == Map::<Vertex, Map<Vertex, Weight>>::empty(),
            g.vertex_set() == Set::<Vertex>::empty(),
            g.capacity() == size,
    {
        let g = DirectedGraph { adj_matrix: HashMap::new(), vertices: HashSet::new(), size };
        assert(g.adjacency() =~= Map::<Vertex, Map<Vertex, Weight>>::empty());
        g
    }

    /// Adds the edge from `u` to `v` with weight `w`, creating either endpoint if absent; an
    /// edge already from `u` to `v` takes the weight `w`.
    pub fn add_edge(&mut self, u: Vertex, v: Vertex, w: Weight)
        requires
            old(self).wf(),
        ensures
            final(self).wf(),
            final(self).adjacency() == attach(old(self).adjacency(), u, v, w),
            final(self).vertex_set() == old(self).vertex_set().insert(u).insert(v),
            final(self).capacity() == old(self).capacity(),
    {
        let mut r = match self.adj_matrix.remove(&u) {
            Some(r) => r,
            None => HashMap::new(),
        };
        r.insert(v, w);
        self.adj_matrix.insert(u, r);
        self.vertices.insert(u);
        self.vertices.insert(v);
        assert(self.adjacency() =~= attach(old(self).adjacency(), u, v, w));
        assert forall|x: Vertex, y: Vertex| #[trigger] has_edge(self.adjacency(), x, y) implies self.vertex_set().contains(x)
            && self.vertex_set().contains(y) by {
            if !(x == u && y == v) {
                assert(has_edge(old(self).adjacency(), x, y));
            }
        }
    }

    /// The number of vertices.
    pub fn get_size(&self) -> (r: usize)
        ensures
            r == self.vertex_set().len(),
    {
        self.vertices.len()
    }

    /// The targets of the edges from `v` with their weights; none when `v` has no outgoing edge.
    pub fn get_adj_list(&self, v: &Vertex) -> (r: Option<&HashMap<Vertex, Weight>>)
        ensures
            match r {
                Some(m) => self.adjacency().contains_key(*v) && m@ == self.adjacency()[*v],
                None => !self.adjacency().contains_key(*v),
            },
    {
        self.adj_matrix.get(v)
    }

    /// The weight of the edge from `u` to `v`, if there is one.
    pub fn get_weight(&self, u: &Vertex, v: &Vertex) -> (r: Option<Weight>)
        ensures
            r == if has_edge(self.adjacency(), *u, *v) {
                Some(self.adjacency()[*u][*v])
            } else {
                None::<Weight>
            },
    {
        match self.adj_matrix.get(u) {
            Some(r) => match r.get(v) {
                Some(w) => Some(*w),
                None => None,
            },
            None => None,
        }
    }

    /// The vertex set.
    pub fn get_vertices(&self) -> (r: &HashSet<Vertex>)
        ensures
            r@ == self.vertex_set(),
    {
        &self.vertices
    }
}

impl Graph for DirectedGraph {
    open spec fn edge_weights(&self) -> Adjacency {
        self.adjacency()
    }

    open spec fn vertex_view(&self) -> Set<Vertex> {
        self.vertex_set()
    }

    open spec fn inv(&self) -> bool {
        self.wf()
    }

    fn add_edge(&mut self, u: Vertex, v: Vertex, w: Weight) {
        DirectedGraph::add_edge(self, u, v, w);
    }

    fn get_size(&self) -> (r: usize) {
        DirectedGraph::get_size(self)
    }

    fn get_adj_list(&self, v: &Vertex) -> (r: Option<&HashMap<Vertex, Weight>>) {
        DirectedGraph::get_adj_list(self, v)
    }

    fn get_weight(&self, u: &Vertex, v: &Vertex) -> (r: Option<Weight>) {
        DirectedGraph::get_weight(self, u, v)
    }

    fn get_vertices(&self) -> (r: &HashSet<Vertex>) {
        DirectedGraph::get_vertices(self)
    }
}

} // verus!
