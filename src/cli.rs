use vstd::prelude::*;

use crate::count_connected_components::{components, count_connected_components};
use crate::forest::{acyclic, spanning_forest};
use crate::graph::{Adjacency, Edge, Path, Vertex};
use crate::is_acyclic::is_acyclic;
use crate::kruskal::sorted_by_weight;
use crate::kruskal_naive::kruskal_naive;
use crate::kruskal_union_find::kruskal_union_find;
use crate::prim::{light_weights, prim, tree_from};
use crate::reach::{connects, reaches};
use crate::checking_connectivity::checking_connectivity;
use crate::undirected_graph::{edges_with, with_edge, UndirectedGraph};

verus! {

/// The algorithms that can be run on an edge-list file.
#[derive(Clone, Copy, Debug, PartialEq, Eq, Structural)]
pub enum Algorithm {
    IsAcyclic,
    KruskalNaive,
    KruskalUnionFind,
    Prim,
    CountConnectedComponents,
    CheckingConnectivity,
}

/// What to run: an algorithm, the path of the edge-list file, and the vertices that some
/// algorithms start from or look for.
#[derive(Debug)]
pub struct Args {
    pub algorithm: Algorithm,
    pub file: String,
    pub start: Option<Vertex>,
    pub target: Option<Vertex>,
}

/// The result of an algorithm.
#[derive(Debug, PartialEq, Eq)]
pub enum Outcome {
    Acyclic(bool),
    Tree(Path),
    Components(usize),
    Connected(bool),
}

/// Why an algorithm could not run.
#[derive(Clone, Copy, Debug, PartialEq, Eq, Structural)]
pub enum CliError {
    /// The text is not an edge list.
    InvalidFormat,
    /// The algorithm needs a starting vertex.
    MissingStartingVertex,
    /// The algorithm needs a vertex to look for.
    MissingTargetVertex,
}

/// An ASCII whitespace byte: a space, a tab, a line feed, a vertical tab, a form feed or a
/// carriage return.
pub open spec fn is_space(b: u8) -> bool {
    b == 32 || (9 <= b && b <= 13)
}

/// An ASCII decimal digit.
pub open spec fn is_digit(b: u8) -> bool {
    48 <= b && b <= 57
}

/// The first position from `i` that holds a line feed, or the length of `s`.
pub open spec fn line_end(s: Seq<u8>, i: int) -> int
    decreases s.len() - i,
{
    if i >= s.len() || s[i] == 10 {
        i
    } else {
        line_end(s, i + 1)
    }
}

/// The length in bytes of the whitespace character that starts at position `i` and ends by
/// `e`, or zero when none does. Whitespace is what `char::is_whitespace` accepts: the ASCII
/// whitespace bytes and, in UTF-8, U+0085, U+00A0, U+1680, U+2000 to U+200A, U+2028, U+2029,
/// U+202F, U+205F and U+3000.
pub open spec fn space_len(s: Seq<u8>, i: int, e: int) -> int {
    if 0 <= i < e && is_space(s[i]) {
        1
    } else if 0 <= i && i + 1 < e && s[i] == 0xC2 && (s[i + 1] == 0x85 || s[i + 1] == 0xA0) {
        2
    } else if 0 <= i && i + 2 < e && ((s[i] == 0xE1 && s[i + 1] == 0x9A && s[i + 2] == 0x80) || (s[i] == 0xE2
        && s[i + 1] == 0x80 && ((0x80 <= s[i + 2] && s[i + 2] <= 0x8A) || s[i + 2] == 0xA8 || s[i + 2] == 0xA9
        || s[i + 2] == 0xAF)) || (s[i] == 0xE2 && s[i + 1] == 0x81 && s[i + 2] == 0x9F) || (s[i] == 0xE3
        && s[i + 1] == 0x80 && s[i + 2] == 0x80)) {
        3
    } else {
        0
    }
}

/// The first position from `i` before `e` where no whitespace character starts, or `e`.
pub open spec fn skip_spaces(s: Seq<u8>, i: int, e: int) -> int
    decreases e - i,
{
    if i >= e || space_len(s, i, e) == 0 {
        i
    } else {
        skip_spaces(s, i + space_len(s, i, e), e)
    }
}

/// The first position from `i` before `e` where a whitespace character starts, or `e`.
pub open spec fn token_end(s: Seq<u8>, i: int, e: int) -> int
    decreases e - i,
{
    if i >= e || space_len(s, i, e) > 0 {
        i
    } else {
        token_end(s, i + 1, e)
    }
}

/// The number that the digits `s[a..b]` write in decimal.
pub open spec fn digits_value(s: Seq<u8>, a: int, b: int) -> int
    decreases b - a,
{
    if b <= a {
        0
    } else {
        digits_value(s, a, b - 1) * 10 + (s[b - 1] - 48)
    }
}

/// `s[a..b]` is one or more decimal digits.
pub open spec fn all_digits(s: Seq<u8>, a: int, b: int) -> bool {
    a < b && forall|k: int| a <= k < b ==> is_digit(#[trigger] s[k])
}

/// The unsigned integer written by `s[a..b]`: an optional `+` and decimal digits, with a value
/// that fits in `usize`.
pub open spec fn parse_usize(s: Seq<u8>, a: int, b: int) -> Option<usize> {
    let d = if a < b && s[a] == 43 { a + 1 } else { a };
    if all_digits(s, d, b) && digits_value(s, d, b) <= usize::MAX {
        Some(digits_value(s, d, b) as usize)
    } else {
        None
    }
}

/// The signed integer written by `s[a..b]`: an optional `+` or `-` and decimal digits, with a
/// value that fits in `i32`.
pub open spec fn parse_i32(s: Seq<u8>, a: int, b: int) -> Option<i32> {
    let neg = a < b && s[a] == 45;
    let d = if a < b && (s[a] == 43 || s[a] == 45) { a + 1 } else { a };
    let v = if neg { -digits_value(s, d, b) } else { digits_value(s, d, b) };
    if all_digits(s, d, b) && i32::MIN <= v && v <= i32::MAX {
        Some(v as i32)
    } else {
        None
    }
}

/// The edge that the line `s[a..e]` states: its first three whitespace-separated tokens are
/// two vertices and a weight; later tokens are ignored.
pub open spec fn parse_edge_line(s: Seq<u8>, a: int, e: int) -> Option<Edge> {
    let s0 = skip_spaces(s, a, e);
    let e0 = token_end(s, s0, e);
    let s1 = skip_spaces(s, e0, e);
    let e1 = token_end(s, s1, e);
    let s2 = skip_spaces(s, e1, e);
    let e2 = token_end(s, s2, e);
    match (parse_usize(s, s0, e0), parse_usize(s, s1, e1), parse_i32(s, s2, e2)) {
        (Some(u), Some(v), Some(w)) => Some((u, v, w)),
        _ => None,
    }
}

/// The edges that the lines of `s` from position `i` on state, one per line, when every line
/// states one.
pub open spec fn parse_edge_lines(s: Seq<u8>, i: int) -> Option<Seq<Edge>>
    decreases s.len() + 1 - i,
    via parse_edge_lines_decreases
{
    if i >= s.len() || i < 0 {
        Some(Seq::empty())
    } else {
        let j = line_end(s, i);
        match (parse_edge_line(s, i, j), parse_edge_lines(s, j + 1)) {
            (Some(e), Some(rest)) => Some(seq![e] + rest),
            _ => None,
        }
    }
}

#[via_fn]
proof fn parse_edge_lines_decreases(s: Seq<u8>, i: int) {
    if 0 <= i < s.len() {
        lemma_line_end_bounds(s, i);
    }
}

/// A line ends at or after its start, and within the text.
pub proof fn lemma_line_end_bounds(s: Seq<u8>, i: int)
    requires
        0 <= i <= s.len(),
    ensures
        i <= line_end(s, i) <= s.len(),
        line_end(s, i) < s.len() ==> s[line_end(s, i)] == 10,
    decreases s.len() - i,
{
    if i < s.len() && s[i] != 10 {
        lemma_line_end_bounds(s, i + 1);
    }
}

/// The edges of an edge-list text: a header line whose first token is a vertex count, then one
/// edge `u v w` per line. None when the text does not have this form.
pub open spec fn parse_edge_list(s: Seq<u8>) -> Option<Seq<Edge>> {
    let j = line_end(s, 0);
    let h0 = skip_spaces(s, 0, j);
    if s.len() > 0 && parse_usize(s, h0, token_end(s, h0, j)) is Some {
        parse_edge_lines(s, j + 1)
    } else {
        None
    }
}

/// The adjacency of the graph built by adding the edges of `es` in order.
pub open spec fn adjacency_of_edges(es: Seq<Edge>) -> Adjacency
    decreases es.len(),
{
    if es.len() == 0 {
        Map::empty()
    } else {
        let e = es.last();
        with_edge(adjacency_of_edges(es.drop_last()), e.0, e.1, e.2)
    }
}

/// The edge list of the graph built by adding the edges of `es` in order.
pub open spec fn edge_list_of_edges(es: Seq<Edge>) -> Seq<Edge>
    decreases es.len(),
{
    if es.len() == 0 {
        Seq::empty()
    } else {
        let e = es.last();
        edges_with(edge_list_of_edges(es.drop_last()), e.0, e.1, e.2)
    }
}

/// The first position from `i` that holds a line feed, or the length of `s`.
fn find_line_end(s: &[u8], i: usize) -> (r: usize)
    requires
        i <= s@.len(),
    ensures
        r == line_end(s@, i as int),
{
    let mut k = i;
    while k < s.len() && s[k] != 10
        invariant
            i <= k <= s@.len(),
            line_end(s@, i as int) == line_end(s@, k as int),
        decreases s@.len() - k,
    {
        k = k + 1;
    }
    k
}

/// The length of the whitespace character at position `i`, ending by `e`, or zero.
fn space_len_at(s: &[u8], i: usize, e: usize) -> (r: usize)
    requires
        i < e <= s@.len(),
    ensures
        r == space_len(s@, i as int, e as int),
        r <= e - i,
{
    let b = s[i];
    if b == 32 || (9 <= b && b <= 13) {
        1
    } else if e - i > 1 && b == 0xC2 && (s[i + 1] == 0x85 || s[i + 1] == 0xA0) {
        2
    } else if e - i > 2 && ((b == 0xE1 && s[i + 1] == 0x9A && s[i + 2] == 0x80) || (b == 0xE2 && s[i + 1]
        == 0x80 && ((0x80 <= s[i + 2] && s[i + 2] <= 0x8A) || s[i + 2] == 0xA8 || s[i + 2] == 0xA9 || s[i + 2]
        == 0xAF)) || (b == 0xE2 && s[i + 1] == 0x81 && s[i + 2] == 0x9F) || (b == 0xE3 && s[i + 1] == 0x80
        && s[i + 2] == 0x80)) {
        3
    } else {
        0
    }
}

/// The first position from `i` before `e` where no whitespace character starts, or `e`.
fn find_skip_spaces(s: &[u8], i: usize, e: usize) -> (r: usize)
    requires
        i <= e <= s@.len(),
    ensures
        r == skip_spaces(s@, i as int, e as int),
        i <= r <= e,
{
    let mut k = i;
    while k < e
        invariant
            i <= k <= e <= s@.len(),
            skip_spaces(s@, i as int, e as int) == skip_spaces(s@, k as int, e as int),
        decreases e - k,
    {
        let n = space_len_at(s, k, e);
        if n == 0 {
            return k;
        }
        k = k + n;
    }
    k
}

/// The first position from `i` before `e` where a whitespace character starts, or `e`.
fn find_token_end(s: &[u8], i: usize, e: usize) -> (r: usize)
    requires
        i <= e <= s@.len(),
    ensures
        r == token_end(s@, i as int, e as int),
        i <= r <= e,
{
    let mut k = i;
    while k < e
        invariant
            i <= k <= e <= s@.len(),
            token_end(s@, i as int, e as int) == token_end(s@, k as int, e as int),
        decreases e - k,
    {
        if space_len_at(s, k, e) > 0 {
            return k;
        }
        k = k + 1;
    }
    k
}

/// Digits write a number no smaller than any of their prefixes write.
proof fn lemma_digits_value_mono(s: Seq<u8>, a: int, k: int, b: int)
    requires
        a <= k <= b <= s.len(),
        forall|x: int| a <= x < b ==> is_digit(#[trigger] s[x]),
    ensures
        0 <= digits_value(s, a, k) <= digits_value(s, a, b),
    decreases b - a,
{
    if b > a {
        if k < b {
            lemma_digits_value_mono(s, a, k, b - 1);
        } else {
            lemma_digits_value_mono(s, a, k - 1, b - 1);
        }
    }
}

/// The number that the digits `s[d..b]` write, if they are one or more digits and it is at
/// most `bound`.
fn read_digits(s: &[u8], d: usize, b: usize, bound: u64) -> (r: Option<u64>)
    requires
        d <= b <= s@.len(),
        bound >= 9,
    ensures
        match r {
            Some(v) => all_digits(s@, d as int, b as int) && v == digits_value(s@, d as int, b as int) && v <= bound,
            None => !all_digits(s@, d as int, b as int) || digits_value(s@, d as int, b as int) > bound,
        },
{
    if d >= b {
        return None;
    }
    let mut v: u64 = 0;
    let mut k = d;
    while k < b
        invariant
            d <= k <= b <= s@.len(),
            d < b,
            forall|x: int| d <= x < k ==> is_digit(#[trigger] s@[x]),
            v == digits_value(s@, d as int, k as int),
            v <= bound,
            bound >= 9,
        decreases b - k,
    {
        let c = s[k];
        if !(48 <= c && c <= 57) {
            return None;
        }
        let dig = (c - 48) as u64;
        if v > (bound - dig) / 10 {
            proof {
                assert(v * 10 + dig > bound) by (nonlinear_arith)
                    requires
                        v > (bound - dig) / 10,
                        dig <= 9,
                        bound >= 0,
                ;
                assert(digits_value(s@, d as int, k + 1) == v * 10 + dig);
                if all_digits(s@, d as int, b as int) {
                    lemma_digits_value_mono(s@, d as int, k + 1, b as int);
                }
            }
            return None;
        }
        proof {
            assert(v * 10 + dig <= bound) by (nonlinear_arith)
                requires
                    v <= (bound - dig) / 10,
                    dig <= 9,
                    dig <= bound,
            ;
        }
        v = v * 10 + dig;
        k = k + 1;
    }
    Some(v)
}

/// The unsigned integer that `s[a..b]` writes, if it writes one.
fn read_usize(s: &[u8], a: usize, b: usize) -> (r: Option<usize>)
    requires
        a <= b <= s@.len(),
    ensures
        r == parse_usize(s@, a as int, b as int),
{
    let d = if a < b && s[a] == 43 {
        a + 1
    } else {
        a
    };
    match read_digits(s, d, b, usize::MAX as u64) {
        Some(v) => Some(v as usize),
        None => None,
    }
}

/// The signed integer that `s[a..b]` writes, if it writes one.
fn read_i32(s: &[u8], a: usize, b: usize) -> (r: Option<i32>)
    requires
        a <= b <= s@.len(),
    ensures
        r == parse_i32(s@, a as int, b as int),
{
    let neg = a < b && s[a] == 45;
    let d = if a < b && (s[a] == 43 || s[a] == 45) {
        a + 1
    } else {
        a
    };
    match read_digits(s, d, b, 2147483648) {
        Some(v) => {
            if neg {
                Some((0 - (v as i64)) as i32)
            } else if v <= 2147483647 {
                Some(v as i32)
            } else {
                None
            }
        },
        None => None,
    }
}

/// The edge that the line `s[a..e]` states, if it states one.
fn read_edge_line(s: &[u8], a: usize, e: usize) -> (r: Option<Edge>)
    requires
        a <= e <= s@.len(),
    ensures
        r == parse_edge_line(s@, a as int, e as int),
{
    let s0 = find_skip_spaces(s, a, e);
    let e0 = find_token_end(s, s0, e);
    let s1 = find_skip_spaces(s, e0, e);
    let e1 = find_token_end(s, s1, e);
    let s2 = find_skip_spaces(s, e1, e);
    let e2 = find_token_end(s, s2, e);
    match (read_usize(s, s0, e0), read_usize(s, s1, e1), read_i32(s, s2, e2)) {
        (Some(u), Some(v), Some(w)) => Some((u, v, w)),
        _ => None,
    }
}

/// The graph that an edge-list text describes, built by adding its edges in order.
pub fn read_graph(s: &[u8]) -> (r: Result<UndirectedGraph, CliError>)
    ensures
        match r {
            Ok(g) => parse_edge_list(s@) matches Some(es) && g.wf() && g.adjacency() == adjacency_of_edges(es)
                && g.edge_list() == edge_list_of_edges(es),
            Err(e) => parse_edge_list(s@) is None && e == CliError::InvalidFormat,
        },
{
    if s.len() == 0 {
        return Err(CliError::InvalidFormat);
    }
    let j = find_line_end(s, 0);
    proof {
        lemma_line_end_bounds(s@, 0);
    }
    let h0 = find_skip_spaces(s, 0, j);
    let h1 = find_token_end(s, h0, j);
    if read_usize(s, h0, h1).is_none() {
        return Err(CliError::InvalidFormat);
    }
    let mut g = UndirectedGraph::new();
    let ghost start = j + 1;
    let ghost mut acc: Seq<Edge> = Seq::empty();
    let mut i: usize = if j < s.len() {
        j + 1
    } else {
        j
    };
    while i < s.len()
        invariant
            i <= s@.len(),
            parse_edge_list(s@) == parse_edge_lines(s@, start),
            parse_edge_lines(s@, start) == match parse_edge_lines(s@, i as int) {
                Some(rest) => Some(acc + rest),
                None => None::<Seq<Edge>>,
            },
            g.wf(),
            g.adjacency() == adjacency_of_edges(acc),
            g.edge_list() == edge_list_of_edges(acc),
        decreases s@.len() - i,
    {
        let k = find_line_end(s, i);
        proof {
            lemma_line_end_bounds(s@, i as int);
        }
        match read_edge_line(s, i, k) {
            None => {
                return Err(CliError::InvalidFormat);
            },
            Some(e) => {
                g.add_edge(e.0, e.1, e.2);
                proof {
                    let next = if k < s@.len() { k + 1 } else { k as int };
                    assert(parse_edge_lines(s@, next) == parse_edge_lines(s@, k + 1));
                    if let Some(rest) = parse_edge_lines(s@, k + 1) {
                        assert(acc + (seq![e] + rest) =~= acc.push(e) + rest);
                    }
                    assert(acc.push(e).drop_last() =~= acc);
                    acc = acc.push(e);
                }
            },
        }
        i = if k < s.len() {
            k + 1
        } else {
            k
        };
    }
    proof {
        assert(acc + Seq::<Edge>::empty() =~= acc);
    }
    Ok(g)
}

/// Reads the graph of an edge-list text and runs the algorithm of `args` on it. Prim needs a
/// starting vertex; connectivity needs a starting vertex and a vertex to look for.
pub fn run_cli(args: &Args, input: &[u8]) -> (r: Result<Outcome, CliError>)
    ensures
        parse_edge_list(input@) is None ==> r == Err::<Outcome, CliError>(CliError::InvalidFormat),
        parse_edge_list(input@) matches Some(es) ==> {
            let adj = adjacency_of_edges(es);
            let el = edge_list_of_edges(es);
            match args.algorithm {
                Algorithm::IsAcyclic => r == Ok::<Outcome, CliError>(Outcome::Acyclic(acyclic(el))),
                Algorithm::KruskalNaive | Algorithm::KruskalUnionFind => r matches Ok(Outcome::Tree(p))
                    && p@ == spanning_forest(sorted_by_weight(el)),
                Algorithm::Prim => match args.start {
                    None => r == Err::<Outcome, CliError>(CliError::MissingStartingVertex),
                    Some(s) => r matches Ok(Outcome::Tree(p)) && tree_from(adj, s, p@) && (light_weights(adj)
                        && adj.dom().contains(s) ==> forall|v: Vertex|
                        #[trigger] reaches(adj, s, v) && v != s ==> exists|k: int| 0 <= k < p@.len() && p@[k].1 == v),
                },
                Algorithm::CountConnectedComponents => r == Ok::<Outcome, CliError>(
                    Outcome::Components(components(adj, adj.dom()).len() as usize),
                ),
                Algorithm::CheckingConnectivity => match (args.start, args.target) {
                    (Some(s), Some(t)) => r == Ok::<Outcome, CliError>(Outcome::Connected(connects(adj, s, t))),
                    (None, _) => r == Err::<Outcome, CliError>(CliError::MissingStartingVertex),
                    (Some(_), None) => r == Err::<Outcome, CliError>(CliError::MissingTargetVertex),
                },
            }
        },
{
    let g = match read_graph(input) {
        Ok(g) => g,
        Err(e) => {
            return Err(e);
        },
    };
    match args.algorithm {
        Algorithm::IsAcyclic => Ok(Outcome::Acyclic(is_acyclic(&g))),
        Algorithm::KruskalNaive => Ok(Outcome::Tree(kruskal_naive(&g))),
        Algorithm::KruskalUnionFind => Ok(Outcome::Tree(kruskal_union_find(&g))),
        Algorithm::Prim => match args.start {
            Some(s) => Ok(Outcome::Tree(prim(&g, &s))),
            None => Err(CliError::MissingStartingVertex),
        },
        Algorithm::CountConnectedComponents => Ok(Outcome::Components(count_connected_components(&g))),
        Algorithm::CheckingConnectivity => match (args.start, args.target) {
            (Some(s), Some(t)) => Ok(Outcome::Connected(checking_connectivity(&g, &s, &t))),
            (None, _) => Err(CliError::MissingStartingVertex),
            (Some(_), None) => Err(CliError::MissingTargetVertex),
        },
    }
}

} // verus!
