use diagv::generators;
use diagv::ordering::{comes_before, sorted_numbers, Keys, Order};
use diagv::Graph;

fn labels(nodes: Vec<&char>) -> String {
    nodes.into_iter().collect()
}

#[test]
fn texts_are_compared_byte_by_byte() {
    let text = |s: &str| s.as_bytes().to_vec();
    assert!(comes_before(&text("a"), &text("ab")));
    assert!(comes_before(&text("ab"), &text("b")));
    assert!(!comes_before(&text("b"), &text("ab")));
    assert!(!comes_before(&text("ab"), &text("ab")));
    assert!(comes_before(&text(""), &text("a")));
    assert!(!comes_before(&text(""), &text("")));
    assert!(comes_before(&text("Z"), &text("a")));
    assert!(comes_before(&text("10"), &text("9")));
    assert!(comes_before(&text("z"), &text("é")));
}

#[test]
fn numbers_are_sorted_by_their_keys_and_stay_in_order_where_keys_are_equal() {
    assert_eq!(sorted_numbers(&Keys::Numbers, 4), vec![0, 1, 2, 3]);
    assert_eq!(
        sorted_numbers(&Keys::Degrees(vec![2, 0, 2, 1, 0]), 5),
        vec![1, 4, 3, 0, 2]
    );
    let texts = vec![b"b".to_vec(), b"a".to_vec(), b"b".to_vec(), b"".to_vec()];
    assert_eq!(sorted_numbers(&Keys::Texts(texts), 4), vec![3, 1, 0, 2]);
    assert_eq!(sorted_numbers(&Keys::Degrees(vec![]), 0), Vec::<usize>::new());
}

#[test]
fn the_nodes_of_diagv_in_each_order() {
    let graph = generators::diagv();
    assert_eq!(labels(graph.nodes_in(Order::Original)), "diagv");
    assert_eq!(labels(graph.nodes_in(Order::Alphabetical)), "adgiv");
    // d and i have no predecessor, g has one, a and v have two
    assert_eq!(labels(graph.nodes_in(Order::Degree)), "digav");
}

#[test]
fn diagv_drawn_in_each_order() {
    let graph = generators::diagv();
    assert_eq!(
        graph.ascii_in(Order::Original).unwrap(),
        graph.ascii().unwrap()
    );
    assert_eq!(
        graph.ascii_in(Order::Alphabetical).unwrap(),
        "+-a-------------+\n+-----d         |\n|       +-g-----+\n+-------+-----i |\n                +-v"
    );
    assert_eq!(
        graph.ascii_in(Order::Degree).unwrap(),
        "d---------+\n    i-+---+\n      +-g-|---+\n          +-a-+\n              +-v"
    );
}

#[test]
fn numbers_are_ordered_as_texts() {
    let graph = Graph::from_edges(vec![(9usize, 10usize), (10, 100)]);
    let names: Vec<String> = graph
        .nodes_in(Order::Alphabetical)
        .into_iter()
        .map(|n| n.to_string())
        .collect();
    assert_eq!(names, vec!["10", "100", "9"]);
}

#[test]
fn an_error_is_the_same_in_every_order() {
    let graph = generators::cycle(1);
    for order in [Order::Original, Order::Alphabetical, Order::Degree] {
        assert!(graph.ascii_in(order).is_err());
    }
}
