use diagv::generators;
use std::collections::HashSet;

#[test]
fn nodes_contain_source() {
    let tree = generators::diagv();
    assert!(tree.nodes().contains(&&'d'));
}

#[test]
fn nodes_contain_sink() {
    let tree = generators::diagv();
    assert!(tree.nodes().contains(&&'v'));
}

#[test]
fn nodes_contains_exact() {
    let tree = generators::diagv();
    let actual_nodes: HashSet<_> = tree.nodes().into_iter().copied().collect();
    let expected_nodes: HashSet<_> = "diagv".chars().collect();
    assert_eq!(actual_nodes, expected_nodes);
}

#[test]
fn heads_maps_from_every_node() {
    let graph = generators::diagv();
    assert_eq!(
        5,
        graph
            .heads()
            .into_iter()
            .map(|(node, _)| node)
            .collect::<HashSet<_>>()
            .len()
    );
}

#[test]
fn tails_maps_from_every_node() {
    let graph = generators::diagv();
    assert_eq!(
        5,
        graph
            .tails()
            .into_iter()
            .map(|(node, _)| node)
            .collect::<HashSet<_>>()
            .len()
    );
}
