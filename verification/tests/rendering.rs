use diagv::generators;
use diagv::rendering::formatted;
use diagv::{Graph, RenderError};

fn newlines(text: &str) -> usize {
    text.chars().filter(|c| *c == '\n').count()
}

fn count_of(text: &str, part: &str) -> usize {
    text.matches(part).count()
}

#[test]
fn a_diagram_of_n_nodes_has_n_minus_one_newlines() {
    assert_eq!(newlines(&generators::diagv().ascii().unwrap()), 4);
    assert_eq!(newlines(&generators::cyclic().ascii().unwrap()), 8);
    assert_eq!(newlines(&generators::sonic(3).ascii().unwrap()), 3);
    assert_eq!(newlines(&generators::cycle(2).ascii().unwrap()), 1);
}

#[test]
fn a_diagram_has_no_trailing_newline() {
    let text = generators::cyclic().ascii().unwrap();
    assert!(!text.ends_with('\n'));
    assert!(text.ends_with("+-8"));
}

#[test]
fn each_label_starts_where_its_diagonal_centre_starts() {
    let text = generators::diagv().ascii().unwrap();
    let lines: Vec<&str> = text.split('\n').collect();
    assert_eq!(lines.len(), 5);
    let places = [(0, 'd'), (4, 'i'), (8, 'a'), (12, 'g'), (16, 'v')];
    for (row, (at, label)) in places.iter().enumerate() {
        assert_eq!(lines[row].chars().nth(*at), Some(*label));
    }
}

#[test]
fn rendering_twice_gives_the_same_text() {
    let graph = generators::cyclic();
    let first = graph.ascii().unwrap();
    let second = graph.ascii().unwrap();
    assert_eq!(first, second);
    assert_eq!(first.as_bytes(), second.as_bytes());
    let again = generators::cyclic().ascii().unwrap();
    assert_eq!(first, again);
}

#[test]
fn swapping_two_isolated_neighbours_keeps_each_label_once() {
    let graph = Graph::from_heads(vec![
        ('a', vec!['b']),
        ('p', vec![]),
        ('q', vec![]),
    ]);
    // nodes are met as a, p, q, b
    let before = graph
        .ascii_with_order(&vec![&'a', &'b', &'p', &'q'])
        .unwrap();
    let after = graph
        .ascii_with_order(&vec![&'a', &'b', &'q', &'p'])
        .unwrap();
    assert_eq!(before, "a-+\n  +-b\n        p\n            q");
    assert_eq!(after, "a-+\n  +-b\n        q\n            p");
    assert_eq!(count_of(&after, "p"), 1);
    assert_eq!(count_of(&after, "q"), 1);
}

#[test]
fn a_self_loop_is_rejected_by_its_label() {
    let graph = Graph::from_edges(vec![('x', 'y'), ('y', 'y')]);
    assert_eq!(graph.ascii(), Err(RenderError::SelfLoop(String::from("y"))));
}

#[test]
fn cycle_of_one_node_is_a_self_loop() {
    let graph = generators::cycle(1);
    assert_eq!(graph.ascii(), Err(RenderError::SelfLoop(String::from("0"))));
}

#[test]
fn a_label_of_eleven_characters_is_too_wide() {
    let wide = String::from("abcdefghijk");
    let graph = Graph::from_heads(vec![(String::from("a"), vec![wide.clone()])]);
    assert_eq!(
        graph.ascii(),
        Err(RenderError::LabelTooWide(wide, 11))
    );
}

#[test]
fn a_label_of_ten_characters_fits() {
    let graph = Graph::from_edges(vec![(String::from("abcdefghij"), String::from("k"))]);
    assert_eq!(graph.ascii().unwrap(), "abcdefghij-+\n           +-k");
}

#[test]
fn the_first_offender_in_the_order_is_the_error() {
    let wide = String::from("abcdefghijkl");
    let graph = Graph::from_heads(vec![
        (wide.clone(), vec![]),
        (String::from("b"), vec![String::from("b")]),
        (String::from("c"), vec![]),
    ]);
    assert_eq!(
        graph.ascii(),
        Err(RenderError::LabelTooWide(wide.clone(), 12))
    );
    let b = String::from("b");
    let c = String::from("c");
    assert_eq!(
        graph.ascii_with_order(&vec![&c, &b, &wide]),
        Err(RenderError::SelfLoop(String::from("b")))
    );
}

#[test]
fn a_self_loop_comes_before_the_width_of_the_same_label() {
    let wide = String::from("abcdefghijk");
    let graph = Graph::from_edges(vec![(wide.clone(), wide.clone())]);
    assert_eq!(graph.ascii(), Err(RenderError::SelfLoop(wide)));
}

#[test]
fn the_width_of_a_label_is_counted_in_bytes() {
    let graph = Graph::from_heads(vec![
        (String::from("é"), vec![]),
        (String::from("b"), vec![]),
    ]);
    assert_eq!(graph.ascii().unwrap(), "é\n     b");
    let six = String::from("éééééé");
    let graph = Graph::from_heads(vec![(six.clone(), vec![])]);
    assert_eq!(graph.ascii(), Err(RenderError::LabelTooWide(six, 12)));
}

#[test]
fn errors_are_reported_in_words() {
    assert_eq!(
        RenderError::SelfLoop(String::from("x1")).message(),
        "self loop on x1"
    );
    assert_eq!(
        RenderError::LabelTooWide(String::from("abcdefghijk"), 11).message(),
        "label exceeds max column width"
    );
}

#[test]
fn the_order_inside_a_successor_list_does_not_matter() {
    let names: Vec<String> = ["n0", "n1", "n2", "n3"].iter().map(|s| s.to_string()).collect();
    let order = vec![0, 1, 2, 3];
    let one = formatted(&vec![vec![1, 3], vec![], vec![1], vec![0, 2]], &order, &names);
    let other = formatted(&vec![vec![3, 1], vec![], vec![1, 1], vec![2, 0, 2]], &order, &names);
    assert_eq!(one, other);
    assert_eq!(
        one.unwrap(),
        "+-n0-+---------+\n|    +-n1      |\n|    +----+-n2 |\n+---------+----+-n3"
    );
}

#[test]
fn the_order_of_the_entries_of_a_node_does_not_matter() {
    let one = Graph::from_heads(vec![('a', vec!['b', 'c']), ('b', vec![]), ('c', vec![])]);
    let other = Graph::from_heads(vec![('a', vec!['c', 'b']), ('b', vec![]), ('c', vec![])]);
    assert_eq!(one.ascii(), other.ascii());
    assert_eq!(one.ascii().unwrap(), "a-+---+\n  +-b |\n      +-c");
}

#[test]
fn the_empty_graph_renders_as_the_empty_text() {
    let graph: Graph<char> = Graph::from_edges(vec![]);
    assert_eq!(graph.ascii().unwrap(), "");
    assert_eq!(graph.ascii_with_order(&vec![]).unwrap(), "");
    assert_eq!(formatted(&vec![], &vec![], &vec![]).unwrap(), "");
}

#[test]
fn a_single_node_renders_as_its_label() {
    let graph = Graph::from_heads(vec![(String::from("solo"), vec![])]);
    assert_eq!(graph.ascii().unwrap(), "solo");
}

#[test]
fn diagv_in_reverse_order() {
    let graph = generators::diagv();
    let text = graph
        .ascii_with_order(&vec![&'v', &'g', &'a', &'i', &'d'])
        .unwrap();
    assert_eq!(
        text,
        "+-v\n+---+-g\n+---|---+-a\n    +---+-----i\n        +---------d"
    );
}

#[test]
fn a_ring_of_three() {
    assert_eq!(
        generators::cycle(3).ascii().unwrap(),
        "+-0-+\n|   +-1-+\n+-------+-2"
    );
}

#[test]
fn two_nodes_that_succeed_each_other() {
    let graph = Graph::from_edges(vec![
        (String::from("ab"), String::from("cde")),
        (String::from("cde"), String::from("ab")),
    ]);
    assert_eq!(graph.ascii().unwrap(), "+-ab-+\n+----+-cde");
}

#[test]
fn formatted_draws_the_nodes_in_the_given_order() {
    // node 0 -> 2, node 1 -> 0, node 2 -> 1, drawn as 2, 0, 1
    let tree = vec![vec![2], vec![0], vec![1]];
    let order = vec![2, 0, 1];
    let names: Vec<String> = ["two", "zero", "one"].iter().map(|s| s.to_string()).collect();
    let by_numbers = formatted(&tree, &order, &names).unwrap();
    let graph = Graph::from_normalized(
        vec![String::from("zero"), String::from("one"), String::from("two")],
        tree,
    );
    let two = String::from("two");
    let zero = String::from("zero");
    let one = String::from("one");
    let by_labels = graph.ascii_with_order(&vec![&two, &zero, &one]).unwrap();
    assert_eq!(by_numbers, by_labels);
    assert_eq!(by_numbers, "+-two--------+\n+-----+-zero |\n      +------+-one");
}

#[test]
fn a_node_without_a_row_has_no_successors() {
    let names: Vec<String> = ["a", "b", "c"].iter().map(|s| s.to_string()).collect();
    let text = formatted(&vec![vec![1]], &vec![0, 1, 2], &names).unwrap();
    assert_eq!(text, "a-+\n  +-b\n        c");
}
