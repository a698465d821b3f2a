use diagv::dot::{heads, nodes_in_order, unquote, DotError, Mention};
use diagv::generators;
use diagv::Graph;

fn node(id: &str) -> Mention {
    Mention::Node {
        id: id.to_string(),
        port: false,
    }
}

fn tail(id: &str) -> Mention {
    Mention::Tail {
        id: id.to_string(),
        port: false,
    }
}

fn head(id: &str) -> Mention {
    Mention::Head {
        id: id.to_string(),
        port: false,
    }
}

fn texts(names: &[&str]) -> Vec<String> {
    names.iter().map(|s| s.to_string()).collect()
}

fn pairs(edges: &[(&str, &str)]) -> Vec<(String, String)> {
    edges
        .iter()
        .map(|(a, b)| (a.to_string(), b.to_string()))
        .collect()
}

#[test]
fn heads_of_edges_are_numbered_after_everything_else() {
    let mentions = vec![
        node("a"),
        tail("b"),
        head("c"),
        Mention::Attributes,
        tail("a"),
        head("b"),
        node("d"),
    ];
    assert_eq!(nodes_in_order(&mentions), Ok(texts(&["a", "b", "d", "c"])));
    assert_eq!(nodes_in_order(&vec![]), Ok(vec![]));
}

#[test]
fn a_port_on_a_node_is_an_error() {
    let with_port = Mention::Node {
        id: "a".to_string(),
        port: true,
    };
    assert_eq!(
        nodes_in_order(&vec![node("b"), with_port]),
        Err(DotError::NodeHasPort)
    );
    let tail_with_port = Mention::Tail {
        id: "a".to_string(),
        port: true,
    };
    assert_eq!(
        nodes_in_order(&vec![tail_with_port, head("b")]),
        Err(DotError::NodeHasPort)
    );
}

#[test]
fn the_port_of_a_head_is_found_last() {
    let head_with_port = Mention::Head {
        id: "b".to_string(),
        port: true,
    };
    assert_eq!(
        nodes_in_order(&vec![tail("a"), head_with_port, Mention::IdEq]),
        Err(DotError::IdEq)
    );
    let head_with_port = Mention::Head {
        id: "b".to_string(),
        port: true,
    };
    assert_eq!(
        nodes_in_order(&vec![tail("a"), head_with_port, node("c")]),
        Err(DotError::NodeHasPort)
    );
}

#[test]
fn what_is_not_supported_is_an_error() {
    assert_eq!(
        nodes_in_order(&vec![Mention::TailSubgraph, head("a")]),
        Err(DotError::EdgeFromSubgraph)
    );
    assert_eq!(
        nodes_in_order(&vec![tail("a"), Mention::HeadSubgraph]),
        Err(DotError::EdgeToSubgraph)
    );
    assert_eq!(
        nodes_in_order(&vec![node("a"), Mention::IdEq, Mention::Subgraph]),
        Err(DotError::IdEq)
    );
    assert_eq!(
        nodes_in_order(&vec![node("a"), Mention::Subgraph, Mention::IdEq]),
        Err(DotError::Subgraph)
    );
}

#[test]
fn dot_errors_in_words() {
    assert_eq!(DotError::NodeHasPort.message(), "Node has port");
    assert_eq!(
        DotError::EdgeFromSubgraph.message(),
        "Unsupported edge from Subgraph"
    );
    assert_eq!(
        DotError::EdgeToSubgraph.message(),
        "Unsupported edge to Subgraph"
    );
    assert_eq!(DotError::IdEq.message(), "Unsupported IDEq");
    assert_eq!(DotError::Subgraph.message(), "Unsupported Subgraph");
    assert_eq!(
        DotError::UnquotedId.message(),
        "Nodes must have double quoted id"
    );
    assert_eq!(DotError::StrayEdge.message(), "Edge between unknown nodes");
    assert_eq!(
        DotError::RepeatedId.message(),
        "Nodes must have different ids"
    );
}

#[test]
fn edges_are_looked_up_among_the_nodes() {
    let nodes = texts(&["a", "b", "c"]);
    let edges = pairs(&[("a", "c"), ("c", "a"), ("a", "b"), ("a", "c")]);
    assert_eq!(heads(&nodes, &edges), Ok(vec![vec![2, 1, 2], vec![], vec![0]]));
    assert_eq!(
        heads(&nodes, &pairs(&[("a", "b"), ("a", "x")])),
        Err(DotError::StrayEdge)
    );
    assert_eq!(
        heads(&nodes, &pairs(&[("x", "a")])),
        Err(DotError::StrayEdge)
    );
}

#[test]
fn quotes_are_taken_off_both_ends() {
    assert_eq!(unquote(&"\"abc\"".to_string()), "abc");
    assert_eq!(unquote(&"\"\"x\"".to_string()), "x");
    assert_eq!(unquote(&"\"\"\"".to_string()), "");
    assert_eq!(unquote(&"a\"b".to_string()), "a\"b");
    assert_eq!(unquote(&"\"é\"".to_string()), "é");
    assert_eq!(unquote(&"plain".to_string()), "plain");
    assert_eq!(unquote(&"".to_string()), "");
    assert_eq!(unquote(&"end\"".to_string()), "end");
}

fn diagv_mentions() -> (Vec<Mention>, Vec<(String, String)>) {
    let edges = pairs(&[
        ("\"d\"", "\"a\""),
        ("\"i\"", "\"a\""),
        ("\"i\"", "\"g\""),
        ("\"a\"", "\"v\""),
        ("\"g\"", "\"v\""),
    ]);
    let mut mentions = Vec::new();
    for (from, to) in edges.iter() {
        mentions.push(tail(from));
        mentions.push(head(to));
    }
    (mentions, edges)
}

#[test]
fn the_graph_of_a_dot_text() {
    let (mentions, edges) = diagv_mentions();
    let graph = Graph::from_dot(&mentions, &edges).unwrap();
    let labels: Vec<String> = graph.nodes().into_iter().cloned().collect();
    assert_eq!(labels, texts(&["d", "i", "a", "g", "v"]));
    assert_eq!(
        graph.ascii().unwrap(),
        generators::diagv().ascii().unwrap()
    );
}

#[test]
fn a_dot_text_with_an_unquoted_id_gives_no_graph() {
    let mentions = vec![tail("\"a\""), head("b")];
    let edges = pairs(&[("\"a\"", "b")]);
    assert_eq!(
        Graph::from_dot(&mentions, &edges).err(),
        Some(DotError::UnquotedId)
    );
}

#[test]
fn a_dot_text_with_a_stray_edge_gives_no_graph() {
    let mentions = vec![tail("\"a\""), head("\"b\"")];
    let edges = pairs(&[("\"a\"", "\"c\"")]);
    assert_eq!(
        Graph::from_dot(&mentions, &edges).err(),
        Some(DotError::StrayEdge)
    );
}

#[test]
fn a_dot_text_with_ids_that_differ_in_quotes_only_gives_no_graph() {
    let mentions = vec![node("\"a\""), node("\"\"a\"\"")];
    assert_eq!(
        Graph::from_dot(&mentions, &vec![]).err(),
        Some(DotError::RepeatedId)
    );
}

#[test]
fn the_first_error_of_a_dot_text_wins() {
    let mentions = vec![node("a"), Mention::Subgraph];
    let edges = pairs(&[("x", "y")]);
    assert_eq!(
        Graph::from_dot(&mentions, &edges).err(),
        Some(DotError::Subgraph)
    );
    let mentions = vec![node("a")];
    assert_eq!(
        Graph::from_dot(&mentions, &edges).err(),
        Some(DotError::StrayEdge)
    );
}

#[test]
fn a_graph_is_written_as_a_dot_text() {
    assert_eq!(
        generators::diagv().to_dot(),
        "digraph {\n  \"d\" -> \"a\";\n  \"i\" -> \"a\";\n  \"i\" -> \"g\";\n  \"a\" -> \"v\";\n  \"g\" -> \"v\";\n}\n"
    );
    let empty: Graph<char> = Graph::from_edges(vec![]);
    assert_eq!(empty.to_dot(), "digraph {\n}\n");
    let lonely = Graph::from_heads(vec![('a', vec![])]);
    assert_eq!(lonely.to_dot(), "digraph {\n}\n");
    assert_eq!(
        generators::cycle(2).to_dot(),
        "digraph {\n  \"0\" -> \"1\";\n  \"1\" -> \"0\";\n}\n"
    );
}
