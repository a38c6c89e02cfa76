//! Classical graph algorithms over undirected weighted graphs, with their data structures:
//! cycle detection, connected components, connectivity between two vertices, and minimum
//! spanning trees by Kruskal's rule (with cycle checks or with disjoint sets) and by Prim's
//! algorithm over an indexed binary heap.

pub mod checking_connectivity;
pub mod cli;
pub mod count_connected_components;
pub mod dfs;
pub mod directed_graph;
pub mod forest;
pub mod graph;
pub mod is_acyclic;
pub mod kruskal;
pub mod kruskal_naive;
pub mod kruskal_union_find;
pub mod prim;
pub mod priority_queue;
pub mod reach;
pub mod undirected_graph;
pub mod union_find;
