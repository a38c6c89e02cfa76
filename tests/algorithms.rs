use std::collections::HashSet;

use algorithms_on_graphs::checking_connectivity::checking_connectivity;
use algorithms_on_graphs::count_connected_components::count_connected_components;
use algorithms_on_graphs::directed_graph::DirectedGraph;
use algorithms_on_graphs::is_acyclic::is_acyclic;
use algorithms_on_graphs::kruskal_naive::kruskal_naive;
use algorithms_on_graphs::kruskal_union_find::kruskal_union_find;
use algorithms_on_graphs::prim::prim;
use algorithms_on_graphs::undirected_graph::UndirectedGraph;

fn path_graph() -> UndirectedGraph {
    let mut g = UndirectedGraph::new();

    g.add_edge(1, 2, 4993);
    g.add_edge(2, 3, 1392);
    g.add_edge(3, 4, 8856);
    g.add_edge(4, 5, -433);
    g.add_edge(5, 6, 6590);
    g.add_edge(6, 7, -7462);
    g.add_edge(7, 8, 6658);
    g.add_edge(8, 9, -976);
    g.add_edge(9, 10, 9698);
    g
}

fn cyclic_graph() -> UndirectedGraph {
    let mut g = UndirectedGraph::new();

    g.add_edge(1, 2, 4993);
    g.add_edge(1, 5, 2432);
    g.add_edge(2, 3, 1392);
    g.add_edge(2, 4, 4687);
    g.add_edge(2, 6, -34);
    g.add_edge(3, 4, 8856);
    g.add_edge(3, 7, 844);
    g.add_edge(3, 8, -433);
    g.add_edge(5, 9, -432);
    g.add_edge(6, 9, -7462);
    g.add_edge(6, 7, 442);
    g.add_edge(8, 10, -976);
    g
}

fn full_connected_graph() -> UndirectedGraph {
    let mut g = UndirectedGraph::new();

    g.add_edge(1, 2, -544);
    g.add_edge(1, 3, 455);
    g.add_edge(1, 4, -12);
    g.add_edge(2, 3, 84);
    g.add_edge(2, 4, 27);
    g.add_edge(3, 4, -7);
    g
}

fn total(path: &[(usize, usize, i32)]) -> i64 {
    path.iter().map(|e| e.2 as i64).sum()
}

#[test]
fn count_connected_components_one_component() {
    let g = path_graph();

    let expected = 1;
    let current = count_connected_components(&g);

    assert_eq!(expected, current);
}

#[test]
fn count_connected_components_two_components() {
    let mut g = UndirectedGraph::new();

    g.add_edge(1, 2, 4993);
    g.add_edge(5, 6, 6590);
    g.add_edge(6, 7, -7462);
    g.add_edge(7, 8, 6658);
    g.add_edge(8, 9, -976);
    g.add_edge(9, 10, 9698);

    let expected = 2;
    let current = count_connected_components(&g);

    assert_eq!(expected, current);
}

#[test]
fn count_connected_components_several_components() {
    let mut g = UndirectedGraph::new();

    g.add_edge(1, 2, 4993);
    g.add_edge(3, 4, 8856);
    g.add_edge(5, 6, 6590);
    g.add_edge(7, 8, 6658);
    g.add_edge(9, 10, 9698);

    let expected = 5;
    let current = count_connected_components(&g);

    assert_eq!(expected, current);
}

#[test]
fn count_connected_components_empty_graph() {
    let g = UndirectedGraph::new();

    assert_eq!(count_connected_components(&g), 0);
}

#[test]
fn graph_without_cycle() {
    let mut g = UndirectedGraph::new();

    g.add_edge(0, 1, 1);
    g.add_edge(0, 2, 1);
    g.add_edge(0, 3, 1);
    g.add_edge(2, 4, 1);

    let expected = true;
    let current = is_acyclic(&g);
    assert_eq!(expected, current);
}

#[test]
fn graph_with_cycle() {
    let mut g = UndirectedGraph::new();

    g.add_edge(0, 1, 1);
    g.add_edge(0, 2, 1);
    g.add_edge(0, 3, 1);
    g.add_edge(1, 2, 1);
    g.add_edge(2, 3, 1);
    g.add_edge(2, 4, 1);

    let expected = false;
    let current = is_acyclic(&g);
    assert_eq!(expected, current);
}

#[test]
fn non_connected_graph_without_cycle() {
    let mut g = UndirectedGraph::new();

    g.add_edge(0, 1, 1);
    g.add_edge(0, 2, 1);
    g.add_edge(0, 3, 1);
    g.add_edge(2, 4, 1);
    g.add_edge(5, 6, 1);
    g.add_edge(6, 7, 1);

    let expected = true;
    let current = is_acyclic(&g);
    assert_eq!(expected, current);
}

#[test]
fn non_connected_graph_with_cycle() {
    let mut g = UndirectedGraph::new();

    g.add_edge(0, 1, 1);
    g.add_edge(0, 2, 1);
    g.add_edge(0, 3, 1);
    g.add_edge(2, 4, 1);
    g.add_edge(5, 6, 1);
    g.add_edge(6, 7, 1);
    g.add_edge(7, 5, 1);

    let expected = false;
    let current = is_acyclic(&g);
    assert_eq!(expected, current);
}

#[test]
fn closing_a_triangle_makes_a_cycle() {
    let mut g = UndirectedGraph::new();

    g.add_edge(5, 6, 3);
    g.add_edge(6, 7, 4);
    assert!(is_acyclic(&g));

    g.add_edge(7, 5, 9);
    assert!(!is_acyclic(&g));
}

#[test]
fn self_loop_is_a_cycle() {
    let mut g = UndirectedGraph::new();

    g.add_edge(1, 2, 3);
    g.add_edge(2, 2, 4);

    assert!(!is_acyclic(&g));
}

#[test]
fn path_graph_scenario() {
    let g = path_graph();
    let all = vec![
        (1, 2, 4993),
        (2, 3, 1392),
        (3, 4, 8856),
        (4, 5, -433),
        (5, 6, 6590),
        (6, 7, -7462),
        (7, 8, 6658),
        (8, 9, -976),
        (9, 10, 9698),
    ];

    let naive: HashSet<(usize, usize, i32)> = kruskal_naive(&g).into_iter().collect();
    let with_sets: HashSet<(usize, usize, i32)> = kruskal_union_find(&g).into_iter().collect();
    let expected: HashSet<(usize, usize, i32)> = all.iter().cloned().collect();
    assert_eq!(naive, expected);
    assert_eq!(with_sets, expected);
    assert_eq!(total(&kruskal_naive(&g)), total(&all));
    assert_eq!(total(&kruskal_naive(&g)), 4993 + 1392 + 8856 - 433 + 6590 - 7462 + 6658 - 976 + 9698);
    assert_eq!(total(&kruskal_union_find(&g)), 29316);
    assert_eq!(total(&prim(&g, &1)), 29316);
    assert!(is_acyclic(&g));
    assert_eq!(count_connected_components(&g), 1);
}

#[test]
fn kruskal_variants_agree() {
    for g in [path_graph(), cyclic_graph(), full_connected_graph()] {
        let naive = kruskal_naive(&g);
        let with_sets = kruskal_union_find(&g);
        assert_eq!(naive, with_sets);
        assert_eq!(total(&naive), total(&with_sets));
    }
}

#[test]
fn kruskal_keeps_input_order_on_equal_weights() {
    let mut g = UndirectedGraph::new();

    g.add_edge(3, 4, 1);
    g.add_edge(1, 2, 1);
    g.add_edge(2, 3, 1);
    g.add_edge(1, 4, 1);

    let expected = vec![(3, 4, 1), (1, 2, 1), (2, 3, 1)];
    assert_eq!(kruskal_naive(&g), expected);
    assert_eq!(kruskal_union_find(&g), expected);
}

#[test]
fn kruskal_naive_simple_graph() {
    let g = path_graph();

    let expected = vec![
        (6, 7, -7462),
        (8, 9, -976),
        (4, 5, -433),
        (2, 3, 1392),
        (1, 2, 4993),
        (5, 6, 6590),
        (7, 8, 6658),
        (3, 4, 8856),
        (9, 10, 9698),
    ];
    let current = kruskal_naive(&g);
    assert_eq!(expected, current);
}

#[test]
fn kruskal_naive_graph_with_cycle() {
    let g = cyclic_graph();

    let expected = vec![
        (6, 9, -7462),
        (8, 10, -976),
        (3, 8, -433),
        (5, 9, -432),
        (2, 6, -34),
        (6, 7, 442),
        (3, 7, 844),
        (1, 5, 2432),
        (2, 4, 4687),
    ];
    let current = kruskal_naive(&g);
    assert_eq!(expected, current);
}

#[test]
fn kruskal_naive_full_connected_graph() {
    let g = full_connected_graph();

    let expected = vec![(1, 2, -544), (1, 4, -12), (3, 4, -7)];
    let current = kruskal_naive(&g);
    assert_eq!(expected, current);
}

#[test]
fn kruskal_union_find_simple_graph() {
    let g = path_graph();

    let expected = vec![
        (6, 7, -7462),
        (8, 9, -976),
        (4, 5, -433),
        (2, 3, 1392),
        (1, 2, 4993),
        (5, 6, 6590),
        (7, 8, 6658),
        (3, 4, 8856),
        (9, 10, 9698),
    ];
    let current = kruskal_union_find(&g);
    assert_eq!(expected, current);
}

#[test]
fn kruskal_union_find_graph_with_cycle() {
    let g = cyclic_graph();

    let expected = vec![
        (6, 9, -7462),
        (8, 10, -976),
        (3, 8, -433),
        (5, 9, -432),
        (2, 6, -34),
        (6, 7, 442),
        (3, 7, 844),
        (1, 5, 2432),
        (2, 4, 4687),
    ];
    let current = kruskal_union_find(&g);
    assert_eq!(expected, current);
}

#[test]
fn kruskal_union_find_full_connected_graph() {
    let g = full_connected_graph();

    let expected = vec![(1, 2, -544), (1, 4, -12), (3, 4, -7)];
    let current = kruskal_union_find(&g);
    assert_eq!(expected, current);
}

#[test]
fn prim_simple_graph() {
    let g = path_graph();

    let expected = vec![
        (1, 2, 4993),
        (2, 3, 1392),
        (3, 4, 8856),
        (4, 5, -433),
        (5, 6, 6590),
        (6, 7, -7462),
        (7, 8, 6658),
        (8, 9, -976),
        (9, 10, 9698),
    ];
    let current = prim(&g, &1);

    assert_eq!(expected, current);
}

#[test]
fn prim_graph_with_cycle() {
    let g = cyclic_graph();

    let expected = vec![
        (1, 5, 2432),
        (5, 9, -432),
        (9, 6, -7462),
        (6, 2, -34),
        (6, 7, 442),
        (7, 3, 844),
        (3, 8, -433),
        (8, 10, -976),
        (2, 4, 4687),
    ];
    let current = prim(&g, &1);
    assert_eq!(expected, current);
}

#[test]
fn prim_full_connected_graph() {
    let g = full_connected_graph();

    let expected = vec![(1, 2, -544), (1, 4, -12), (4, 3, -7)];
    let current = prim(&g, &1);
    assert_eq!(expected, current);
}

#[test]
fn prim_skips_unreachable_vertices() {
    let mut g = UndirectedGraph::new();

    g.add_edge(1, 2, 5);
    g.add_edge(3, 4, 1);

    assert_eq!(prim(&g, &1), vec![(1, 2, 5)]);
    assert_eq!(prim(&g, &9), vec![]);
}

#[test]
fn prim_weighs_as_much_as_kruskal() {
    for g in [path_graph(), cyclic_graph(), full_connected_graph()] {
        assert_eq!(total(&prim(&g, &1)), total(&kruskal_union_find(&g)));
    }
}

#[test]
fn connectivity_follows_paths() {
    let mut g = UndirectedGraph::new();

    g.add_edge(1, 2, 5);
    g.add_edge(2, 3, 5);
    g.add_edge(7, 8, 1);

    assert!(checking_connectivity(&g, &1, &3));
    assert!(checking_connectivity(&g, &3, &1));
    assert!(!checking_connectivity(&g, &1, &7));
    assert!(!checking_connectivity(&g, &7, &1));
    assert!(checking_connectivity(&g, &1, &1));
    assert!(!checking_connectivity(&g, &5, &5));
    assert!(!checking_connectivity(&g, &5, &1));
}

#[test]
fn directed_graph_keeps_direction() {
    let mut g = DirectedGraph::new(3);

    g.add_edge(0, 1, 4);
    g.add_edge(1, 2, -1);
    g.add_edge(0, 1, 6);

    assert_eq!(g.get_weight(&0, &1), Some(6));
    assert_eq!(g.get_weight(&1, &0), None);
    assert_eq!(g.get_size(), 3);
    assert_eq!(g.get_vertices(), &HashSet::from([0, 1, 2]));
    assert_eq!(g.get_adj_list(&2), None);
    assert_eq!(g.get_adj_list(&1).map(|m| m.len()), Some(1));
}
