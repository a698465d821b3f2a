use diagv::generators;
use diagv::label::{print_decimal, print_signed_decimal};
use diagv::{Graph, Label};

fn names<T: Label>(graph: &Graph<T>) -> Vec<String> {
    graph.nodes().into_iter().map(|n| n.print()).collect()
}

fn successors<T: Label>(graph: &Graph<T>) -> Vec<(String, Vec<String>)> {
    graph
        .heads()
        .into_iter()
        .map(|(t, hs)| (t.print(), hs.into_iter().map(|h| h.print()).collect()))
        .collect()
}

fn predecessors<T: Label>(graph: &Graph<T>) -> Vec<(String, Vec<String>)> {
    graph
        .tails()
        .into_iter()
        .map(|(h, ts)| (h.print(), ts.into_iter().map(|t| t.print()).collect()))
        .collect()
}

fn entry(node: &str, others: &[&str]) -> (String, Vec<String>) {
    (
        node.to_string(),
        others.iter().map(|s| s.to_string()).collect(),
    )
}

#[test]
fn numbers_print_in_decimal() {
    assert_eq!(print_decimal(0), "0");
    assert_eq!(print_decimal(7), "7");
    assert_eq!(print_decimal(10), "10");
    assert_eq!(print_decimal(1234567890), "1234567890");
    assert_eq!(print_decimal(u64::MAX), "18446744073709551615");
    assert_eq!(print_signed_decimal(0), "0");
    assert_eq!(print_signed_decimal(-1), "-1");
    assert_eq!(print_signed_decimal(-2147483648), "-2147483648");
    assert_eq!(print_signed_decimal(305), "305");
}

#[test]
fn labels_print_as_they_display() {
    assert_eq!('d'.print(), 'd'.to_string());
    assert_eq!('é'.print(), "é");
    assert_eq!(42usize.print(), 42usize.to_string());
    assert_eq!(usize::MAX.print(), usize::MAX.to_string());
    assert_eq!((-17i32).print(), (-17i32).to_string());
    assert_eq!(i32::MIN.print(), i32::MIN.to_string());
    assert_eq!(i32::MAX.print(), i32::MAX.to_string());
    assert_eq!(String::from("x1").print(), "x1");
}

#[test]
fn labels_are_the_same_when_they_print_alike() {
    assert!('a'.same(&'a'));
    assert!(!'a'.same(&'b'));
    assert!(10usize.same(&10));
    assert!(!10usize.same(&1));
    assert!((-3i32).same(&-3));
    assert!(!(-3i32).same(&3));
    assert!(String::from("ab").same(&String::from("ab")));
    assert!(!String::from("ab").same(&String::from("ba")));
}

#[test]
fn diagv_has_its_five_nodes_and_five_edges() {
    let graph = generators::diagv();
    assert_eq!(graph.len(), 5);
    assert_eq!(names(&graph), vec!["d", "i", "a", "g", "v"]);
    assert_eq!(
        successors(&graph),
        vec![
            entry("d", &["a"]),
            entry("i", &["a", "g"]),
            entry("a", &["v"]),
            entry("g", &["v"]),
            entry("v", &[]),
        ]
    );
}

#[test]
fn diagv_predecessors() {
    let graph = generators::diagv();
    assert_eq!(
        predecessors(&graph),
        vec![
            entry("d", &[]),
            entry("i", &[]),
            entry("a", &["d", "i"]),
            entry("g", &["i"]),
            entry("v", &["a", "g"]),
        ]
    );
}

#[test]
fn cyclic_has_its_nine_nodes() {
    let graph = generators::cyclic();
    assert_eq!(
        names(&graph),
        vec!["0", "1", "2", "3", "4", "5", "6", "7", "8"]
    );
    assert_eq!(
        successors(&graph),
        vec![
            entry("0", &["1", "4"]),
            entry("1", &[]),
            entry("2", &["6"]),
            entry("3", &["4"]),
            entry("4", &["8"]),
            entry("5", &["4"]),
            entry("6", &["0"]),
            entry("7", &[]),
            entry("8", &["2", "7"]),
        ]
    );
}

#[test]
fn cycle_is_a_ring() {
    let graph = generators::cycle(4);
    assert_eq!(names(&graph), vec!["0", "1", "2", "3"]);
    assert_eq!(
        successors(&graph),
        vec![
            entry("0", &["1"]),
            entry("1", &["2"]),
            entry("2", &["3"]),
            entry("3", &["0"]),
        ]
    );
    let one = generators::cycle(1);
    assert_eq!(successors(&one), vec![entry("0", &["0"])]);
}

#[test]
fn sonic_of_one_is_empty() {
    let graph = generators::sonic(1);
    assert_eq!(graph.len(), 0);
    assert_eq!(graph.ascii().unwrap(), "");
}

#[test]
fn sonic_has_its_petals() {
    let graph = generators::sonic(4);
    assert_eq!(
        names(&graph),
        vec!["x1", "22", "32", "33", "42", "43", "44"]
    );
    assert_eq!(
        successors(&graph),
        vec![
            entry("x1", &["22", "32", "42"]),
            entry("22", &["x1"]),
            entry("32", &["33"]),
            entry("33", &["x1"]),
            entry("42", &["43"]),
            entry("43", &["44"]),
            entry("44", &["x1"]),
        ]
    );
    assert_eq!(generators::sonic(9).len(), 37);
}

#[test]
fn nodes_are_numbered_as_they_are_met() {
    // tails first, in the order of the list; then the heads, tail by tail
    let graph = Graph::from_heads(vec![
        ('b', vec!['c', 'a']),
        ('a', vec!['b']),
        ('b', vec!['d']),
    ]);
    assert_eq!(names(&graph), vec!["b", "a", "c", "d"]);
    assert_eq!(
        successors(&graph),
        vec![
            entry("b", &["a", "c", "d"]),
            entry("a", &["b"]),
            entry("c", &[]),
            entry("d", &[]),
        ]
    );
}

#[test]
fn heads_met_late_are_numbered_tail_by_tail() {
    let graph = Graph::from_edges(vec![('a', 'z'), ('b', 'y'), ('a', 'x')]);
    // the heads of a, z and x, come before the head of b
    assert_eq!(names(&graph), vec!["a", "b", "z", "x", "y"]);
    assert_eq!(
        successors(&graph),
        vec![
            entry("a", &["z", "x"]),
            entry("b", &["y"]),
            entry("z", &[]),
            entry("x", &[]),
            entry("y", &[]),
        ]
    );
}

#[test]
fn an_edge_given_twice_is_one_edge() {
    let graph = Graph::from_edges(vec![(1usize, 2usize), (1, 2), (2, 1), (1, 2)]);
    assert_eq!(names(&graph), vec!["1", "2"]);
    assert_eq!(
        successors(&graph),
        vec![entry("1", &["2"]), entry("2", &["1"])]
    );
    assert_eq!(
        predecessors(&graph),
        vec![entry("1", &["2"]), entry("2", &["1"])]
    );
}

#[test]
fn from_normalized_sorts_the_rows_and_drops_repeats() {
    let graph = Graph::from_normalized(
        vec!['a', 'b', 'c', 'd'],
        vec![vec![3, 1, 3, 2, 1], vec![], vec![0]],
    );
    assert_eq!(names(&graph), vec!["a", "b", "c", "d"]);
    assert_eq!(
        successors(&graph),
        vec![
            entry("a", &["b", "c", "d"]),
            entry("b", &[]),
            entry("c", &["a"]),
            entry("d", &[]),
        ]
    );
    assert_eq!(
        predecessors(&graph),
        vec![
            entry("a", &["c"]),
            entry("b", &["a"]),
            entry("c", &["a"]),
            entry("d", &["a"]),
        ]
    );
}

#[test]
fn a_node_is_found_by_its_label() {
    let graph = generators::diagv();
    assert_eq!(graph.find(&'d'), Some(0));
    assert_eq!(graph.find(&'g'), Some(3));
    assert_eq!(graph.find(&'v'), Some(4));
    assert_eq!(graph.find(&'x'), None);
}
