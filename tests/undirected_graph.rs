use std::collections::{HashMap, HashSet};

use algorithms_on_graphs::graph::{Edge, Vertex, Weight};
use algorithms_on_graphs::undirected_graph::UndirectedGraph;

#[test]
fn add_edge() {
    let mut g = UndirectedGraph::new();

    g.add_edge(0, 1, 2);
    g.add_edge(1, 4, 3);

    let expected_edges: Vec<Edge> = vec![(0, 1, 2), (1, 4, 3)];
    assert_eq!(g.get_edges(), &expected_edges);

    let expected_vertices: HashSet<Vertex> = HashSet::from([0, 1, 4]);
    assert_eq!(g.get_vertices(), &expected_vertices);

    let expected_adj_matrix: HashMap<Vertex, HashMap<Vertex, Weight>> = HashMap::from([
        (0, HashMap::from([(1, 2)])),
        (1, HashMap::from([(0, 2), (4, 3)])),
        (4, HashMap::from([(1, 3)])),
    ]);
    for (v, row) in expected_adj_matrix.iter() {
        assert_eq!(g.get_adj_list(v), Some(row));
    }
}

#[test]
fn get_size() {
    let mut g = UndirectedGraph::new();

    g.add_edge(0, 1, 2);
    g.add_edge(1, 4, 3);

    let current = 3;
    let expected = g.get_size();
    assert_eq!(expected, current);
}

#[test]
fn get_adj_list_existing_vertex() {
    let mut g = UndirectedGraph::new();

    g.add_edge(0, 1, 2);
    g.add_edge(1, 4, 3);

    let adj_list = HashMap::from([(0, 2), (4, 3)]);
    let expected = Some(&adj_list);
    let current = g.get_adj_list(&1);

    assert_eq!(expected, current);
}

#[test]
fn get_adj_list_non_existent_vertex() {
    let mut g = UndirectedGraph::new();

    g.add_edge(0, 1, 2);
    g.add_edge(1, 4, 3);

    let expected = None;
    let current = g.get_adj_list(&5);

    assert_eq!(expected, current);
}

#[test]
fn get_vertices() {
    let mut g = UndirectedGraph::new();

    g.add_edge(0, 1, 2);
    g.add_edge(1, 4, 3);

    let vertices = HashSet::from([0, 1, 4]);
    let expected: &HashSet<Vertex> = &vertices;
    let current = g.get_vertices();
    assert_eq!(expected, current);
}

#[test]
fn get_edges() {
    let mut g = UndirectedGraph::new();

    g.add_edge(0, 1, 2);
    g.add_edge(1, 4, 3);

    let edges: Vec<Edge> = vec![(0, 1, 2), (1, 4, 3)];
    let expected: &Vec<Edge> = &edges;
    let current = g.get_edges();
    assert_eq!(expected, current);
}

#[test]
fn get_weight_existing_edge() {
    let mut g = UndirectedGraph::new();

    g.add_edge(0, 1, 2);
    g.add_edge(1, 4, 3);

    let expected = Some(3);
    let current = g.get_weight(&1, &4);
    assert_eq!(expected, current);
}

#[test]
fn get_weight_non_existent_edge() {
    let mut g = UndirectedGraph::new();

    g.add_edge(0, 1, 2);
    g.add_edge(1, 4, 3);

    let expected = None;
    let current = g.get_weight(&1, &5);
    assert_eq!(expected, current);
}

#[test]
fn delete_edge_existing_edge() {
    let mut g = UndirectedGraph::new();

    g.add_edge(0, 1, 2);
    g.add_edge(1, 4, 3);

    g.delete_edge(&0, &1);

    let expected_edges: Vec<Edge> = vec![(1, 4, 3)];
    assert_eq!(g.get_edges(), &expected_edges);

    let expected_vertices: HashSet<Vertex> = HashSet::from([1, 4]);
    assert_eq!(g.get_vertices(), &expected_vertices);

    assert_eq!(g.get_adj_list(&0), None);
    assert_eq!(g.get_adj_list(&1), Some(&HashMap::from([(4, 3)])));
    assert_eq!(g.get_adj_list(&4), Some(&HashMap::from([(1, 3)])));
}

#[test]
fn add_edge_reversed_is_the_same_edge() {
    let mut g = UndirectedGraph::new();

    g.add_edge(4, 1, 3);
    g.add_edge(1, 4, 7);

    assert_eq!(g.get_edges(), &vec![(1, 4, 7)]);
    assert_eq!(g.get_weight(&4, &1), Some(7));
    assert_eq!(g.get_weight(&1, &4), Some(7));
}

#[test]
fn zero_weight_is_an_edge() {
    let mut g = UndirectedGraph::new();

    g.add_edge(2, 3, 0);

    assert_eq!(g.get_weight(&3, &2), Some(0));
}

#[test]
fn delete_missing_edge_changes_nothing() {
    let mut g = UndirectedGraph::new();

    g.add_edge(0, 1, 2);
    g.delete_edge(&0, &5);

    assert_eq!(g.get_edges(), &vec![(0, 1, 2)]);
    assert_eq!(g.get_size(), 2);
}

#[test]
fn delete_self_loop() {
    let mut g = UndirectedGraph::new();

    g.add_edge(3, 3, 1);
    assert_eq!(g.get_weight(&3, &3), Some(1));
    g.delete_edge(&3, &3);

    assert_eq!(g.get_size(), 0);
    assert!(g.get_edges().is_empty());
}
