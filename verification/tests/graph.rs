use undirected_graph::{NodeNotInGraph, UndirectedGraph};

fn triple(a: &str, b: &str, w: i32) -> (String, String, i32) {
    (String::from(a), String::from(b), w)
}

fn count_of(edges: &Vec<(String, String, i32)>, t: &(String, String, i32)) -> usize {
    edges.iter().filter(|e| *e == t).count()
}

#[test]
fn test_add_edge() {
    let mut graph = UndirectedGraph::new();
    graph.add_edge(("a", "b", 5));
    graph.add_edge(("b", "c", 10));
    graph.add_edge(("c", "a", 7));

    let expected_edges = [
        triple("a", "b", 5),
        triple("b", "a", 5),
        triple("c", "a", 7),
        triple("a", "c", 7),
        triple("b", "c", 10),
        triple("c", "b", 10),
    ];

    for edge in expected_edges.iter() {
        assert!(graph.edges().contains(edge), "Edge {:?} not found", edge);
    }
}

#[test]
fn test_add_node() {
    let mut graph = UndirectedGraph::new();
    assert!(graph.add_node("a"));
    assert!(!graph.add_node("a")); // Should return false as "a" already exists
}

#[test]
fn test_graph_contains() {
    let mut graph = UndirectedGraph::new();
    graph.add_edge(("a", "b", 5));
    assert!(graph.contains("a"));
    assert!(graph.contains("b"));
    assert!(!graph.contains("c")); // "c" does not exist
}

#[test]
fn test_graph_nodes() {
    let mut graph = UndirectedGraph::new();
    graph.add_edge(("a", "b", 5));
    graph.add_edge(("b", "c", 10));
    let nodes: Vec<String> = graph.nodes();
    assert!(nodes.contains(&"a".to_string()));
    assert!(nodes.contains(&"b".to_string()));
    assert!(nodes.contains(&"c".to_string()));
}

#[test]
fn test_empty_graph_contains_nothing() {
    let graph = UndirectedGraph::new();
    assert!(!graph.contains("z"));
    assert!(graph.nodes().is_empty());
    assert!(graph.edges().is_empty());
}

#[test]
fn test_nodes_exact_set() {
    let mut graph = UndirectedGraph::new();
    graph.add_edge(("a", "b", 5));
    graph.add_edge(("b", "c", 10));
    graph.add_edge(("c", "a", 7));
    let nodes = graph.nodes();
    assert_eq!(nodes.len(), 3);
    assert!(nodes.contains(&"a".to_string()));
    assert!(nodes.contains(&"b".to_string()));
    assert!(nodes.contains(&"c".to_string()));
}

#[test]
fn test_edge_listing_exact() {
    let mut graph = UndirectedGraph::new();
    graph.add_edge(("a", "b", 5));
    graph.add_edge(("b", "c", 10));
    graph.add_edge(("c", "a", 7));
    let edges = graph.edges();
    assert_eq!(edges.len(), 6);
    let expected = [
        triple("a", "b", 5),
        triple("b", "a", 5),
        triple("b", "c", 10),
        triple("c", "b", 10),
        triple("c", "a", 7),
        triple("a", "c", 7),
    ];
    for t in expected.iter() {
        assert_eq!(count_of(&edges, t), 1, "triple {:?} not listed exactly once", t);
    }
}

#[test]
fn test_edges_symmetric() {
    let mut graph = UndirectedGraph::new();
    graph.add_edge(("a", "b", 5));
    graph.add_edge(("a", "b", 5));
    graph.add_edge(("b", "c", 10));
    graph.add_edge(("d", "d", 2));
    let edges = graph.edges();
    for (x, y, w) in edges.iter() {
        let mirror = (y.clone(), x.clone(), *w);
        let forward = (x.clone(), y.clone(), *w);
        assert_eq!(
            count_of(&edges, &forward),
            count_of(&edges, &mirror),
            "triple {:?} and its mirror occur unequally",
            forward
        );
    }
}

#[test]
fn test_duplicate_parallel_edges() {
    let mut graph = UndirectedGraph::new();
    graph.add_edge(("a", "b", 5));
    graph.add_edge(("a", "b", 5));
    let edges = graph.edges();
    assert_eq!(edges.len(), 4);
    assert_eq!(count_of(&edges, &triple("a", "b", 5)), 2);
    assert_eq!(count_of(&edges, &triple("b", "a", 5)), 2);
}

#[test]
fn test_self_loop() {
    let mut graph = UndirectedGraph::new();
    graph.add_edge(("a", "a", 3));
    assert!(graph.contains("a"));
    assert_eq!(graph.nodes().len(), 1);
    let edges = graph.edges();
    assert_eq!(edges.len(), 2);
    assert_eq!(count_of(&edges, &triple("a", "a", 3)), 2);
}

#[test]
fn test_add_node_false_path_changes_nothing() {
    let mut graph = UndirectedGraph::new();
    graph.add_edge(("a", "b", 5));
    let edges_before = graph.edges();
    let nodes_before = graph.nodes();
    assert!(!graph.add_node("a"));
    assert_eq!(graph.edges(), edges_before);
    assert_eq!(graph.nodes(), nodes_before);
}

#[test]
fn test_error_message() {
    let err = NodeNotInGraph;
    assert_eq!(err.message(), "accessing a node that is not in the graph");
}
