use std::collections::HashSet;
use vstd::prelude::*;

use crate::dfs::explore;
use crate::graph::Vertex;
use crate::reach::{avoids, closed, connects, lemma_connects_reverse};
use crate::undirected_graph::UndirectedGraph;

verus! {

broadcast use vstd::std_specs::hash::group_hash_axioms;

/// Whether a walk with at least one edge leads from `s` to `t`.
pub fn run(g: &UndirectedGraph, s: &Vertex, t: &Vertex) -> (r: bool)
    requires
        g.wf(),
    ensures
        r == connects(g.adjacency(), *s, *t),
{
    checking_connectivity(g, s, t)
}

/// Whether a walk with at least one edge leads from `s` to `t`.
pub fn checking_connectivity(g: &UndirectedGraph, s: &Vertex, t: &Vertex) -> (r: bool)
    requires
        g.wf(),
    ensures
        r == connects(g.adjacency(), *s, *t),
{
    let mut visited: HashSet<Vertex> = HashSet::new();
    dfs_checking_connectivity(g, &mut visited, s, t)
}

/// Depth-first search from `u` for an edge into `t`, past the vertices of `visited`, which
/// has no edge out of itself nor into `t`.
fn dfs_checking_connectivity(g: &UndirectedGraph, visited: &mut HashSet<Vertex>, u: &Vertex, t: &Vertex) -> (r: bool)
    requires
        g.wf(),
        closed(g.adjacency(), old(visited)@),
        avoids(g.adjacency(), old(visited)@, *t),
    ensures
        r == connects(g.adjacency(), *u, *t),
{
    explore(g, visited, *u, Some(*t))
}

/// In an undirected graph `s` is connected to `t` exactly when `t` is connected to `s`.
pub proof fn lemma_connectivity_symmetric(g: &UndirectedGraph, s: Vertex, t: Vertex)
    requires
        g.wf(),
    ensures
        connects(g.adjacency(), s, t) == connects(g.adjacency(), t, s),
{
    let adj = g.adjacency();
    if connects(adj, s, t) {
        lemma_connects_reverse(adj, s, t);
    }
    if connects(adj, t, s) {
        lemma_connects_reverse(adj, t, s);
    }
}

} // verus!
