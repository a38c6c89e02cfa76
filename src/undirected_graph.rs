use std::collections::{HashMap, HashSet};
use vstd::prelude::*;

use crate::graph::{attach, has_edge, row, symmetric, Adjacency, Edge, Graph, Vertex, Weight};

verus! {

broadcast use vstd::std_specs::hash::group_hash_axioms;

/// The representative of an undirected edge: its endpoints in ascending order.
pub open spec fn canonical(u: Vertex, v: Vertex, w: Weight) -> Edge {
    if u <= v {
        (u, v, w)
    } else {
        (v, u, w)
    }
}

/// Every vertex that the adjacency knows has at least one edge.
pub open spec fn no_isolated(adj: Adjacency) -> bool {
    forall|u: Vertex| #[trigger] adj.contains_key(u) ==> !adj[u].is_empty()
}

/// The endpoints of the `i`-th edge of `es` are `a` and `b`, in this order.
pub open spec fn pair_at(es: Seq<Edge>, i: int, a: Vertex, b: Vertex) -> bool {
    0 <= i < es.len() && es[i].0 == a && es[i].1 == b
}

/// `es` holds an edge between `a` and `b`, in this order.
pub open spec fn has_pair(es: Seq<Edge>, a: Vertex, b: Vertex) -> bool {
    exists|i: int| pair_at(es, i, a, b)
}

/// The position of the edge between `a` and `b` in `es`.
pub open spec fn pair_index(es: Seq<Edge>, a: Vertex, b: Vertex) -> int {
    choose|i: int| pair_at(es, i, a, b)
}

/// No two edges of `es` join the same two endpoints.
pub open spec fn distinct_pairs(es: Seq<Edge>) -> bool {
    forall|i: int, j: int|
        0 <= i < es.len() && 0 <= j < es.len() && i != j ==> (#[trigger] es[i].0 != #[trigger] es[j].0
            || es[i].1 != es[j].1)
}

/// `es` lists each undirected edge of `adj` exactly once, in canonical form.
pub open spec fn lists_edges(adj: Adjacency, es: Seq<Edge>) -> bool {
    &&& forall|i: int|
        #![trigger es[i]]
        0 <= i < es.len() ==> es[i].0 <= es[i].1 && has_edge(adj, es[i].0, es[i].1)
            && adj[es[i].0][es[i].1] == es[i].2
    &&& distinct_pairs(es)
    &&& forall|u: Vertex, v: Vertex|
        #[trigger] has_edge(adj, u, v) && u <= v ==> has_pair(es, u, v)
}

/// The invariant of an undirected graph with adjacency `adj`, vertex set `vs` and edge list `es`.
pub open spec fn undirected_inv(adj: Adjacency, vs: Set<Vertex>, es: Seq<Edge>) -> bool {
    &&& vs == adj.dom()
    &&& symmetric(adj)
    &&& no_isolated(adj)
    &&& lists_edges(adj, es)
}

/// `adj` without the edge from `x` to `y`; `x` leaves when it has no edge left.
pub open spec fn detach(adj: Adjacency, x: Vertex, y: Vertex) -> Adjacency {
    if adj.contains_key(x) {
        if adj[x].remove(y).is_empty() {
            adj.remove(x)
        } else {
            adj.insert(x, adj[x].remove(y))
        }
    } else {
        adj
    }
}

/// `adj` with the undirected edge between `u` and `v` set to `w`.
pub open spec fn with_edge(adj: Adjacency, u: Vertex, v: Vertex, w: Weight) -> Adjacency {
    attach(attach(adj, u, v, w), v, u, w)
}

/// `adj` without the undirected edge between `u` and `v`.
pub open spec fn without_edge(adj: Adjacency, u: Vertex, v: Vertex) -> Adjacency {
    detach(detach(adj, u, v), v, u)
}

/// `es` after setting the undirected edge between `u` and `v` to `w`: an edge already there
/// keeps its place and takes the new weight; a new one goes last.
pub open spec fn edges_with(es: Seq<Edge>, u: Vertex, v: Vertex, w: Weight) -> Seq<Edge> {
    let e = canonical(u, v, w);
    if has_pair(es, e.0, e.1) {
        es.update(pair_index(es, e.0, e.1), e)
    } else {
        es.push(e)
    }
}

/// `es` without the undirected edge between `u` and `v`.
pub open spec fn edges_without(es: Seq<Edge>, u: Vertex, v: Vertex) -> Seq<Edge> {
    let e = canonical(u, v, 0);
    if has_pair(es, e.0, e.1) {
        es.remove(pair_index(es, e.0, e.1))
    } else {
        es
    }
}

/// Setting an edge keeps the invariant of an undirected graph.
proof fn lemma_with_edge_inv(adj: Adjacency, vs: Set<Vertex>, es: Seq<Edge>, u: Vertex, v: Vertex, w: Weight)
    requires
        undirected_inv(adj, vs, es),
    ensures
        undirected_inv(with_edge(adj, u, v, w), vs.insert(u).insert(v), edges_with(es, u, v, w)),
{
    let adj2 = with_edge(adj, u, v, w);
    let es2 = edges_with(es, u, v, w);
    let e = canonical(u, v, w);
    assert(vs.insert(u).insert(v) =~= adj2.dom());
    assert forall|x: Vertex, y: Vertex| #[trigger] has_edge(adj2, x, y) implies has_edge(adj2, y, x)
        && adj2[y][x] == adj2[x][y] by {
        if (x == u && y == v) || (x == v && y == u) {
        } else {
            assert(has_edge(adj, x, y));
        }
    }
    assert forall|x: Vertex| #[trigger] adj2.contains_key(x) implies !adj2[x].is_empty() by {
        if x == u {
            assert(adj2[x].contains_key(v));
        } else if x == v {
            assert(adj2[x].contains_key(u));
        } else {
            assert(!adj[x].is_empty());
            let y = choose|y: Vertex| adj[x].contains_key(y);
            assert(adj2[x].contains_key(y));
        }
    }
    if has_pair(es, e.0, e.1) {
        let k = pair_index(es, e.0, e.1);
        assert(pair_at(es, k, e.0, e.1));
        assert forall|i: int| #![trigger es2[i]] 0 <= i < es2.len() implies es2[i].0 <= es2[i].1
            && has_edge(adj2, es2[i].0, es2[i].1) && adj2[es2[i].0][es2[i].1] == es2[i].2 by {
            if i != k {
                assert(es[i].0 != e.0 || es[i].1 != e.1);
                assert(es2[i] == es[i]);
                assert(has_edge(adj, es[i].0, es[i].1));
            }
        }
        assert forall|x: Vertex, y: Vertex| #[trigger] has_edge(adj2, x, y) && x <= y implies has_pair(es2, x, y) by {
            if x == e.0 && y == e.1 {
                assert(pair_at(es2, k, x, y));
            } else {
                assert(has_edge(adj, x, y));
                let j = choose|j: int| pair_at(es, j, x, y);
                assert(pair_at(es2, j, x, y));
            }
        }
    } else {
        assert forall|i: int| #![trigger es2[i]] 0 <= i < es2.len() implies es2[i].0 <= es2[i].1
            && has_edge(adj2, es2[i].0, es2[i].1) && adj2[es2[i].0][es2[i].1] == es2[i].2 by {
            if i < es.len() {
                assert(es2[i] == es[i]);
                assert(!pair_at(es, i, e.0, e.1));
                assert(has_edge(adj, es[i].0, es[i].1));
            }
        }
        assert forall|i: int, j: int| 0 <= i < es2.len() && 0 <= j < es2.len() && i != j implies
            (#[trigger] es2[i].0 != #[trigger] es2[j].0 || es2[i].1 != es2[j].1) by {
            if i == es.len() {
                assert(!pair_at(es, j, e.0, e.1));
            } else if j == es.len() {
                assert(!pair_at(es, i, e.0, e.1));
            }
        }
        assert forall|x: Vertex, y: Vertex| #[trigger] has_edge(adj2, x, y) && x <= y implies has_pair(es2, x, y) by {
            if x == e.0 && y == e.1 {
                assert(pair_at(es2, es.len() as int, x, y));
            } else {
                assert(has_edge(adj, x, y));
                let j = choose|j: int| pair_at(es, j, x, y);
                assert(pair_at(es2, j, x, y));
            }
        }
    }
}

/// Removing an edge keeps the invariant of an undirected graph.
proof fn lemma_without_edge_inv(adj: Adjacency, vs: Set<Vertex>, es: Seq<Edge>, u: Vertex, v: Vertex)
    requires
        undirected_inv(adj, vs, es),
        has_edge(adj, u, v),
    ensures
        undirected_inv(without_edge(adj, u, v), without_edge(adj, u, v).dom(), edges_without(es, u, v)),
{
    let adj2 = without_edge(adj, u, v);
    let es2 = edges_without(es, u, v);
    let e = canonical(u, v, 0);
    let k = pair_index(es, e.0, e.1);
    assert(has_pair(es, e.0, e.1));
    assert(pair_at(es, k, e.0, e.1));
    assert forall|x: Vertex, y: Vertex| has_edge(adj2, x, y) <==> has_edge(adj, x, y)
        && !((x == u && y == v) || (x == v && y == u)) by {
        let a1 = detach(adj, u, v);
        if x == u {
            assert(adj[u].remove(v).contains_key(y) == (adj[u].contains_key(y) && y != v));
        }
        if has_edge(adj, x, y) && !((x == u && y == v) || (x == v && y == u)) {
            assert(has_edge(a1, x, y));
        }
    }
    assert forall|x: Vertex, y: Vertex| #[trigger] has_edge(adj2, x, y) implies adj2[x][y] == adj[x][y] by {}
    assert forall|x: Vertex, y: Vertex| #[trigger] has_edge(adj2, x, y) implies has_edge(adj2, y, x)
        && adj2[y][x] == adj2[x][y] by {
        assert(has_edge(adj, x, y));
        assert(has_edge(adj, y, x));
    }
    assert forall|i: int| #![trigger es2[i]] 0 <= i < es2.len() implies es2[i].0 <= es2[i].1
        && has_edge(adj2, es2[i].0, es2[i].1) && adj2[es2[i].0][es2[i].1] == es2[i].2 by {
        let j = if i < k { i } else { i + 1 };
        assert(es2[i] == es[j]);
        assert(j != k);
        assert(has_edge(adj, es[j].0, es[j].1));
    }
    assert forall|i: int, j: int| 0 <= i < es2.len() && 0 <= j < es2.len() && i != j implies
        (#[trigger] es2[i].0 != #[trigger] es2[j].0 || es2[i].1 != es2[j].1) by {
        let i2 = if i < k { i } else { i + 1 };
        let j2 = if j < k { j } else { j + 1 };
        assert(es2[i] == es[i2]);
        assert(es2[j] == es[j2]);
    }
    assert forall|x: Vertex, y: Vertex| #[trigger] has_edge(adj2, x, y) && x <= y implies has_pair(es2, x, y) by {
        assert(has_edge(adj, x, y));
        let j = choose|j: int| pair_at(es, j, x, y);
        assert(j != k);
        if j < k {
            assert(pair_at(es2, j, x, y));
        } else {
            assert(pair_at(es2, j - 1, x, y));
        }
    }
}

/// Orders the endpoints of an undirected edge.
fn canonical_edge(u: Vertex, v: Vertex, w: Weight) -> (r: Edge)
    ensures
        r == canonical(u, v, w),
{
    if u <= v {
        (u, v, w)
    } else {
        (v, u, w)
    }
}

/// Finds the edge between `a` and `b`, in this order.
fn find_pair(es: &Vec<Edge>, a: Vertex, b: Vertex) -> (r: Option<usize>)
    ensures
        match r {
            Some(i) => pair_at(es@, i as int, a, b),
            None => !has_pair(es@, a, b),
        },
{
    let mut i: usize = 0;
    while i < es.len()
        invariant
            i <= es.len(),
            forall|j: int| 0 <= j < i ==> !pair_at(es@, j, a, b),
        decreases es.len() - i,
    {
        if es[i].0 == a && es[i].1 == b {
            return Some(i);
        }
        i = i + 1;
    }
    None
}

/// An undirected weighted graph. Adding an edge between two vertices that already have one
/// replaces its weight; a vertex exists exactly as long as it has an edge.
pub struct UndirectedGraph {
    adj_matrix: HashMap<Vertex, HashMap<Vertex, Weight>>,
    vertices: HashSet<Vertex>,
    edges: Vec<Edge>,
}

impl UndirectedGraph {
    /// The weight of each edge, by its two endpoints.
    pub closed spec fn adjacency(&self) -> Adjacency {
        self.adj_matrix@.map_values(|r: HashMap<Vertex, Weight>| r@)
    }

    /// The vertex set.
    pub closed spec fn vertex_set(&self) -> Set<Vertex> {
        self.vertices@
    }

    /// Each edge once, in canonical form, in the order in which the edges were first added.
    pub closed spec fn edge_list(&self) -> Seq<Edge> {
        self.edges@
    }

    /// The adjacency is symmetric with no isolated vertex, the vertex set is its domain, and the
    /// edge list holds each edge once.
    pub open spec fn wf(&self) -> bool {
        undirected_inv(self.adjacency(), self.vertex_set(), self.edge_list())
    }

    /// The vertex set is finite.
    pub proof fn lemma_vertex_set_finite(&self)
        requires
            self.wf(),
        ensures
            self.vertex_set().finite(),
    {
        assert(self.adjacency().dom() =~= self.adj_matrix@.dom());
    }

    pub fn new() -> (g: UndirectedGraph)
        ensures
            g.wf(),
            g.adjacency() == Map::<Vertex, Map<Vertex, Weight>>::empty(),
            g.edge_list() == Seq::<Edge>::empty(),
    {
        let g = UndirectedGraph { adj_matrix: HashMap::new(), vertices: HashSet::new(), edges: Vec::new() };
        assert(g.adjacency() =~= Map::<Vertex, Map<Vertex, Weight>>::empty());
        g
    }

    /// Sets the weight from `x` to `y`, creating the row of `x` if needed.
    fn attach_row(&mut self, x: Vertex, y: Vertex, w: Weight)
        ensures
            final(self).adjacency() == attach(old(self).adjacency(), x, y, w),
            final(self).vertices == old(self).vertices,
            final(self).edges == old(self).edges,
    {
        let mut r = match self.adj_matrix.remove(&x) {
            Some(r) => r,
            None => HashMap::new(),
        };
        r.insert(y, w);
        self.adj_matrix.insert(x, r);
        assert(self.adjacency() =~= attach(old(self).adjacency(), x, y, w));
    }

    /// Removes `y` from the row of `x`, and `x` itself once its row is empty.
    fn detach_row(&mut self, x: Vertex, y: Vertex)
        ensures
            final(self).adjacency() == detach(old(self).adjacency(), x, y),
            final(self).vertices@ == if detach(old(self).adjacency(), x, y).contains_key(x) {
                old(self).vertices@
            } else {
                old(self).vertices@.remove(x)
            },
            final(self).edges == old(self).edges,
    {
        match self.adj_matrix.remove(&x) {
            Some(mut r) => {
                r.remove(&y);
                if r.is_empty() {
                    self.vertices.remove(&x);
                    assert(self.adjacency() =~= detach(old(self).adjacency(), x, y));
                } else {
                    self.adj_matrix.insert(x, r);
                    assert(self.adjacency() =~= detach(old(self).adjacency(), x, y));
                }
            },
            None => {
                self.vertices.remove(&x);
                assert(self.adjacency() =~= detach(old(self).adjacency(), x, y));
            },
        }
    }

    /// Adds the edge `(u, v, w)`, creating either endpoint if absent; an edge already between
    /// `u` and `v` takes the weight `w`.
    pub fn add_edge(&mut self, u: Vertex, v: Vertex, w: Weight)
        requires
            old(self).wf(),
        ensures
            final(self).wf(),
            final(self).adjacency() == with_edge(old(self).adjacency(), u, v, w),
            final(self).vertex_set() == old(self).vertex_set().insert(u).insert(v),
            final(self).edge_list() == edges_with(old(self).edge_list(), u, v, w),
    {
        proof {
            lemma_with_edge_inv(self.adjacency(), self.vertex_set(), self.edge_list(), u, v, w);
        }
        self.attach_row(u, v, w);
        self.attach_row(v, u, w);
        self.vertices.insert(u);
        self.vertices.insert(v);
        let e = canonical_edge(u, v, w);
        match find_pair(&self.edges, e.0, e.1) {
            Some(i) => {
                proof {
                    let k = pair_index(old(self).edge_list(), e.0, e.1);
                    assert(pair_at(old(self).edge_list(), k, e.0, e.1));
                }
                self.edges.set(i, e);
            },
            None => {
                self.edges.push(e);
            },
        }
    }

    /// Removes the edge between `u` and `v`, if there is one; an endpoint left without edges
    /// leaves the graph.
    pub fn delete_edge(&mut self, u: &Vertex, v: &Vertex)
        requires
            old(self).wf(),
        ensures
            final(self).wf(),
            has_edge(old(self).adjacency(), *u, *v) ==> final(self).adjacency() == without_edge(
                old(self).adjacency(),
                *u,
                *v,
            ) && final(self).edge_list() == edges_without(old(self).edge_list(), *u, *v),
            !has_edge(old(self).adjacency(), *u, *v) ==> final(self).adjacency() == old(self).adjacency()
                && final(self).edge_list() == old(self).edge_list(),
    {
        let (u, v) = (*u, *v);
        if self.get_weight(&u, &v).is_none() {
            return;
        }
        proof {
            lemma_without_edge_inv(self.adjacency(), self.vertex_set(), self.edge_list(), u, v);
        }
        self.detach_row(u, v);
        self.detach_row(v, u);
        let e = canonical_edge(u, v, 0);
        match find_pair(&self.edges, e.0, e.1) {
            Some(i) => {
                proof {
                    let k = pair_index(old(self).edge_list(), e.0, e.1);
                    assert(pair_at(old(self).edge_list(), k, e.0, e.1));
                }
                self.edges.remove(i);
            },
            None => {},
        }
        assert(self.vertex_set() =~= self.adjacency().dom());
    }

    /// The weight of the edge between `u` and `v`, if there is one.
    pub fn get_weight(&self, u: &Vertex, v: &Vertex) -> (r: Option<Weight>)
        ensures
            r == if has_edge(self.adjacency(), *u, *v) {
                Some(self.adjacency()[*u][*v])
            } else {
                None::<Weight>
            },
    {
        match self.adj_matrix.get(u) {
            Some(r) => match r.get(v) {
                Some(w) => Some(*w),
                None => None,
            },
            None => None,
        }
    }

    /// The neighbours of `v` with the weights of the edges to them; none when `v` is unknown.
    pub fn get_adj_list(&self, v: &Vertex) -> (r: Option<&HashMap<Vertex, Weight>>)
        ensures
            match r {
                Some(m) => self.adjacency().contains_key(*v) && m@ == self.adjacency()[*v],
                None => !self.adjacency().contains_key(*v),
            },
    {
        self.adj_matrix.get(v)
    }

    /// The number of vertices.
    pub fn get_size(&self) -> (r: usize)
        ensures
            r == self.vertex_set().len(),
    {
        self.vertices.len()
    }

    /// The vertex set.
    pub fn get_vertices(&self) -> (r: &HashSet<Vertex>)
        ensures
            r@ == self.vertex_set(),
    {
        &self.vertices
    }

    /// The edges, each once in canonical form, in the order in which they were first added.
    pub fn get_edges(&self) -> (r: &Vec<Edge>)
        ensures
            r@ == self.edge_list(),
    {
        &self.edges
    }
}

impl Graph for UndirectedGraph {
    open spec fn edge_weights(&self) -> Adjacency {
        self.adjacency()
    }

    open spec fn vertex_view(&self) -> Set<Vertex> {
        self.vertex_set()
    }

    open spec fn inv(&self) -> bool {
        self.wf()
    }

    fn add_edge(&mut self, u: Vertex, v: Vertex, w: Weight) {
        UndirectedGraph::add_edge(self, u, v, w);
    }

    fn get_size(&self) -> (r: usize) {
        UndirectedGraph::get_size(self)
    }

    fn get_adj_list(&self, v: &Vertex) -> (r: Option<&HashMap<Vertex, Weight>>) {
        UndirectedGraph::get_adj_list(self, v)
    }

    fn get_weight(&self, u: &Vertex, v: &Vertex) -> (r: Option<Weight>) {
        UndirectedGraph::get_weight(self, u, v)
    }

    fn get_vertices(&self) -> (r: &HashSet<Vertex>) {
        UndirectedGraph::get_vertices(self)
    }
}

} // verus!
