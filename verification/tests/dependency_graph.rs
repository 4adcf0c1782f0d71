use cadagent::incremental::{DependencyGraph, DependencyGraphError};

#[test]
fn test_graph_creation() {
    let graph = DependencyGraph::new();
    assert!(graph.is_empty());
    assert_eq!(graph.node_count(), 0);
    assert_eq!(graph.edge_count(), 0);
}

#[test]
fn test_add_node() {
    let mut graph = DependencyGraph::new();
    graph.add_node("node1");

    assert!(!graph.is_empty());
    assert_eq!(graph.node_count(), 1);
    assert!(graph.has_node("node1"));
}

#[test]
fn test_add_dependency() {
    let mut graph = DependencyGraph::new();
    graph.add_dependency("B", "A").unwrap();

    assert!(graph.has_edge("B", "A"));
    assert!(graph.has_node("A"));
    assert!(graph.has_node("B"));
}

#[test]
fn test_get_dependencies() {
    let mut graph = DependencyGraph::new();
    graph.add_dependency("B", "A").unwrap();
    graph.add_dependency("B", "C").unwrap();

    let deps = graph.get_dependencies("B");
    assert_eq!(deps.len(), 2);
    assert!(deps.contains(&&"A".to_string()));
    assert!(deps.contains(&&"C".to_string()));
}

#[test]
fn test_get_dependents() {
    let mut graph = DependencyGraph::new();
    graph.add_dependency("B", "A").unwrap();
    graph.add_dependency("C", "A").unwrap();

    let dependents = graph.get_dependents("A");
    assert_eq!(dependents.len(), 2);
    assert!(dependents.contains(&&"B".to_string()));
    assert!(dependents.contains(&&"C".to_string()));
}

#[test]
fn test_get_all_dependents() {
    let mut graph = DependencyGraph::new();
    graph.add_dependency("B", "A").unwrap();
    graph.add_dependency("C", "B").unwrap();

    let all_dependents = graph.get_all_dependents("A");
    assert!(all_dependents.contains(&"B".to_string()));
    assert!(all_dependents.contains(&"C".to_string()));
}

#[test]
fn test_get_all_dependencies() {
    let mut graph = DependencyGraph::new();
    graph.add_dependency("C", "B").unwrap();
    graph.add_dependency("B", "A").unwrap();

    let all_deps = graph.get_all_dependencies("C");
    assert!(all_deps.contains(&"B".to_string()));
    assert!(all_deps.contains(&"A".to_string()));
}

#[test]
fn test_circular_dependency_detection() {
    let mut graph = DependencyGraph::new();
    graph.add_dependency("B", "A").unwrap();
    graph.add_dependency("C", "B").unwrap();

    let result = graph.add_dependency("A", "C");
    assert!(matches!(
        result,
        Err(DependencyGraphError::CircularDependency(_))
    ));
    assert_eq!(
        result,
        Err(DependencyGraphError::CircularDependency(vec![
            "A".to_string(),
            "C".to_string(),
            "B".to_string(),
            "A".to_string()
        ]))
    );
    assert!(!graph.has_edge("A", "C"));
}

#[test]
fn test_topological_sort() {
    let mut graph = DependencyGraph::new();
    graph.add_dependency("B", "A").unwrap();
    graph.add_dependency("C", "B").unwrap();
    graph.add_dependency("D", "A").unwrap();

    let sorted = graph.topological_sort().unwrap();

    let a_idx = sorted.iter().position(|x| x == "A").unwrap();
    let b_idx = sorted.iter().position(|x| x == "B").unwrap();
    let c_idx = sorted.iter().position(|x| x == "C").unwrap();
    let d_idx = sorted.iter().position(|x| x == "D").unwrap();

    assert!(a_idx < b_idx);
    assert!(b_idx < c_idx);
    assert!(a_idx < d_idx);
}

#[test]
fn test_remove_node() {
    let mut graph = DependencyGraph::new();
    graph.add_dependency("B", "A").unwrap();
    graph.add_dependency("C", "B").unwrap();

    let removed = graph.remove_node("B");

    assert!(!graph.has_node("B"));
    assert!(!graph.has_edge("B", "A"));
    assert!(!graph.has_edge("C", "B"));
    assert_eq!(removed.len(), 2);
}

#[test]
fn graph_remove_node_recomputes_roots_and_leaves() {
    let mut graph = DependencyGraph::new();
    graph.add_dependency("B", "A").unwrap();
    graph.add_dependency("C", "B").unwrap();
    let removed = graph.remove_node("B");
    assert_eq!(removed.len(), 2);
    let mut roots = graph.roots().clone();
    roots.sort();
    let mut leaves = graph.leaves().clone();
    leaves.sort();
    assert_eq!(roots, vec!["A".to_string(), "C".to_string()]);
    assert_eq!(leaves, vec!["A".to_string(), "C".to_string()]);
}

#[test]
fn test_roots_and_leaves() {
    let mut graph = DependencyGraph::new();
    graph.add_dependency("B", "A").unwrap();
    graph.add_dependency("C", "B").unwrap();

    assert!(graph.roots().contains(&"A".to_string()));
    assert!(graph.leaves().contains(&"C".to_string()));
}

#[test]
fn test_to_dot() {
    let mut graph = DependencyGraph::new();
    graph.add_dependency("B", "A").unwrap();

    let dot = graph.to_dot();
    assert!(dot.contains("digraph"));
    assert!(dot.contains("\"B\" -> \"A\""));
}

#[test]
fn test_clear() {
    let mut graph = DependencyGraph::new();
    graph.add_dependency("B", "A").unwrap();

    graph.clear();

    assert!(graph.is_empty());
    assert_eq!(graph.node_count(), 0);
}

#[test]
fn graph_doc_example_sketch_extrude_fillet() {
    let mut graph = DependencyGraph::new();
    graph.add_dependency("extrude_1", "sketch_1").unwrap();
    graph.add_dependency("fillet_1", "extrude_1").unwrap();

    let dependents = graph.get_all_dependents("sketch_1");
    assert!(dependents.contains(&"extrude_1".to_string()));
    assert!(dependents.contains(&"fillet_1".to_string()));
    assert_eq!(dependents.len(), 2);
}

#[test]
fn graph_self_dependency_refused_with_path() {
    let mut graph = DependencyGraph::new();
    let result = graph.add_dependency("A", "A");
    assert_eq!(
        result,
        Err(DependencyGraphError::CircularDependency(vec![
            "A".to_string(),
            "A".to_string()
        ]))
    );
    assert!(graph.has_node("A"));
    assert_eq!(graph.edge_count(), 0);
}

#[test]
fn graph_cycle_refusal_reports_cycle_and_keeps_nodes() {
    let mut graph = DependencyGraph::new();
    graph.add_dependency("B", "A").unwrap();
    let result = graph.add_dependency("A", "B");
    assert_eq!(
        result,
        Err(DependencyGraphError::CircularDependency(vec![
            "A".to_string(),
            "B".to_string(),
            "A".to_string()
        ]))
    );
    assert_eq!(graph.edge_count(), 1);
    assert!(!graph.has_edge("A", "B"));
}

#[test]
fn graph_topological_sort_lists_every_node_once() {
    let mut graph = DependencyGraph::new();
    graph.add_node("lonely");
    graph.add_dependency("C", "B").unwrap();
    graph.add_dependency("B", "A").unwrap();
    graph.add_dependency("C", "A").unwrap();
    let sorted = graph.topological_sort().unwrap();
    assert_eq!(sorted.len(), 4);
    for name in ["lonely", "A", "B", "C"] {
        assert_eq!(sorted.iter().filter(|x| *x == name).count(), 1);
    }
    let pos = |n: &str| sorted.iter().position(|x| x == n).unwrap();
    assert!(pos("A") < pos("B"));
    assert!(pos("B") < pos("C"));
}

#[test]
fn graph_remove_node_returns_dependencies_then_dependents() {
    let mut graph = DependencyGraph::new();
    graph.add_dependency("B", "A").unwrap();
    graph.add_dependency("C", "B").unwrap();
    graph.add_dependency("D", "B").unwrap();
    let removed = graph.remove_node("B");
    assert_eq!(
        removed,
        vec!["A".to_string(), "C".to_string(), "D".to_string()]
    );
    assert_eq!(graph.edge_count(), 0);
    assert!(graph.get_dependents("A").is_empty());
    assert!(graph.remove_node("missing").is_empty());
}

#[test]
fn graph_to_dot_exact_text() {
    let mut graph = DependencyGraph::new();
    graph.add_dependency("B", "A").unwrap();
    graph.add_dependency("B", "C").unwrap();
    assert_eq!(
        graph.to_dot(),
        "digraph DependencyGraph {\n  \"B\" -> \"A\";\n  \"B\" -> \"C\";\n}"
    );
}

#[test]
fn graph_roots_and_leaves_follow_edges() {
    let mut graph = DependencyGraph::new();
    graph.add_dependency("B", "A").unwrap();
    assert_eq!(graph.roots(), &vec!["A".to_string()]);
    assert_eq!(graph.leaves(), &vec!["B".to_string()]);
    assert_eq!(graph.nodes(), &vec!["B".to_string(), "A".to_string()]);
}

#[test]
fn graph_transitive_queries_on_unknown_node_are_empty() {
    let graph = DependencyGraph::default();
    assert!(graph.get_all_dependencies("x").is_empty());
    assert!(graph.get_all_dependents("x").is_empty());
    assert!(graph.get_dependencies("x").is_empty());
    assert!(!graph.has_edge("x", "y"));
}
