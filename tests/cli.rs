use algorithms_on_graphs::cli::{read_graph, run_cli, Algorithm, Args, CliError, Outcome};

const INPUT: &str = "10\n1 2 4993\n2 3 1392\n3 4 8856\n4 5 -433\n5 6 6590\n6 7 -7462\n7 8 6658\n8 9 -976\n9 10 9698\n";

fn args(algorithm: Algorithm, start: Option<usize>) -> Args {
    Args {
        algorithm,
        file: String::from("./dataset/input_random_01_10.txt"),
        start,
        target: None,
    }
}

#[test]
#[should_panic]
fn wrong_header() {
    let args = args(Algorithm::IsAcyclic, None);
    run_cli(&args, b"ten\n1 2 3\n").unwrap();
}

#[test]
#[should_panic]
fn wrong_first_vertex() {
    let args = args(Algorithm::IsAcyclic, None);
    run_cli(&args, b"3\nx 2 3\n").unwrap();
}

#[test]
#[should_panic]
fn wrong_second_vertex() {
    let args = args(Algorithm::IsAcyclic, None);
    run_cli(&args, b"3\n1 y 3\n").unwrap();
}

#[test]
#[should_panic]
fn wrong_weight() {
    let args = args(Algorithm::IsAcyclic, None);
    run_cli(&args, b"3\n1 2 z\n").unwrap();
}

#[test]
fn count_connected_components() {
    let args = args(Algorithm::CountConnectedComponents, None);
    let res = run_cli(&args, INPUT.as_bytes());

    assert_eq!(res, Ok(Outcome::Components(1)));
}

#[test]
fn is_acylic() {
    let args = args(Algorithm::IsAcyclic, None);
    let res = run_cli(&args, INPUT.as_bytes());

    assert_eq!(res, Ok(Outcome::Acyclic(true)));
}

#[test]
fn kruskal_naive() {
    let args = args(Algorithm::KruskalNaive, None);
    let res = run_cli(&args, INPUT.as_bytes());

    let expected_path = vec![
        (6, 7, -7462),
        (8, 9, -976),
        (4, 5, -433),
        (2, 3, 1392),
        (1, 2, 4993),
        (5, 6, 6590),
        (7, 8, 6658),
        (3, 4, 8856),
        (9, 10, 9698),
    ];
    assert_eq!(res, Ok(Outcome::Tree(expected_path)));
}

#[test]
fn kruskal_union_find() {
    let args = args(Algorithm::KruskalUnionFind, None);
    let res = run_cli(&args, INPUT.as_bytes());

    let expected_path = vec![
        (6, 7, -7462),
        (8, 9, -976),
        (4, 5, -433),
        (2, 3, 1392),
        (1, 2, 4993),
        (5, 6, 6590),
        (7, 8, 6658),
        (3, 4, 8856),
        (9, 10, 9698),
    ];
    assert_eq!(res, Ok(Outcome::Tree(expected_path)));
}

#[test]
fn prim() {
    let args = args(Algorithm::Prim, Some(1));
    let res = run_cli(&args, INPUT.as_bytes());

    let expected_path = vec![
        (1, 2, 4993),
        (2, 3, 1392),
        (3, 4, 8856),
        (4, 5, -433),
        (5, 6, 6590),
        (6, 7, -7462),
        (7, 8, 6658),
        (8, 9, -976),
        (9, 10, 9698),
    ];
    assert_eq!(res, Ok(Outcome::Tree(expected_path)));
}

#[test]
fn prim_without_start() {
    let args = args(Algorithm::Prim, None);

    assert_eq!(run_cli(&args, INPUT.as_bytes()), Err(CliError::MissingStartingVertex));
}

#[test]
fn connectivity_needs_both_vertices() {
    let mut a = args(Algorithm::CheckingConnectivity, None);
    assert_eq!(run_cli(&a, INPUT.as_bytes()), Err(CliError::MissingStartingVertex));
    a.start = Some(1);
    assert_eq!(run_cli(&a, INPUT.as_bytes()), Err(CliError::MissingTargetVertex));
    a.target = Some(10);
    assert_eq!(run_cli(&a, INPUT.as_bytes()), Ok(Outcome::Connected(true)));
    a.target = Some(11);
    assert_eq!(run_cli(&a, INPUT.as_bytes()), Ok(Outcome::Connected(false)));
}

#[test]
fn read_graph_accepts_signs_tabs_and_crlf() {
    let g = read_graph(b"  3 extra\r\n+1\t2 -5 ignored\r\n2 3 +7").unwrap();

    assert_eq!(g.get_edges(), &vec![(1, 2, -5), (2, 3, 7)]);
}

#[test]
fn read_graph_rejects_bad_text() {
    assert_eq!(read_graph(b"").err(), Some(CliError::InvalidFormat));
    assert_eq!(read_graph(b"\n1 2 3").err(), Some(CliError::InvalidFormat));
    assert_eq!(read_graph(b"3\n1 2").err(), Some(CliError::InvalidFormat));
    assert_eq!(read_graph(b"3\n1 2 3\n\n2 3 4").err(), Some(CliError::InvalidFormat));
    assert_eq!(read_graph(b"3\n1 2 2147483648").err(), Some(CliError::InvalidFormat));
    assert_eq!(read_graph(b"3\n-1 2 3").err(), Some(CliError::InvalidFormat));
    assert_eq!(read_graph(b"3\n1 2 +").err(), Some(CliError::InvalidFormat));
    assert!(read_graph(b"3\n1 2 -2147483648").is_ok());
    assert!(read_graph(b"0").is_ok());
}

#[test]
fn read_graph_accepts_unicode_whitespace() {
    let g = read_graph("3\u{2003}\n1\u{a0}2\u{3000}-5\u{85}9\n2\u{1680}3 4".as_bytes()).unwrap();

    assert_eq!(g.get_edges(), &vec![(1, 2, -5), (2, 3, 4)]);
}

#[test]
fn read_graph_rejects_other_unicode() {
    assert_eq!(read_graph("3\n1\u{e9}2 3".as_bytes()).err(), Some(CliError::InvalidFormat));
}
