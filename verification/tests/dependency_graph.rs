use agent_hud::dependency_graph::{DependencyGraph, DependencyGraphError, DependencyNodeId};

fn id(scope: &str, value: &str) -> DependencyNodeId {
    DependencyNodeId::new(scope, value)
}

fn graph() -> DependencyGraph {
    let mut graph = DependencyGraph::default();
    for (scope, value, resolved) in [
        ("repo-a", "build", false),
        ("repo-a", "test", false),
        ("repo-a", "lint", true),
        ("repo-b", "build", true),
    ] {
        graph
            .add_node(id(scope, value), format!("{scope}/{value}"), resolved)
            .unwrap();
    }
    graph
}

#[test]
fn queries_are_sorted_and_edges_have_explicit_direction() {
    let mut graph = graph();
    graph
        .add_dependency(&id("repo-a", "lint"), &id("repo-a", "test"))
        .unwrap();
    graph
        .add_dependency(&id("repo-a", "build"), &id("repo-a", "test"))
        .unwrap();
    assert_eq!(
        graph.direct_prerequisites(&id("repo-a", "test")).unwrap(),
        vec![id("repo-a", "build"), id("repo-a", "lint")]
    );
    assert_eq!(
        graph.direct_dependents(&id("repo-a", "build")).unwrap(),
        vec![id("repo-a", "test")]
    );
    assert_eq!(
        graph.edges(),
        vec![
            (id("repo-a", "build"), id("repo-a", "test")),
            (id("repo-a", "lint"), id("repo-a", "test")),
        ]
    );
}

#[test]
fn rejects_duplicate_and_self_edges() {
    let mut graph = graph();
    graph
        .add_dependency(&id("repo-a", "build"), &id("repo-a", "test"))
        .unwrap();
    assert!(matches!(
        graph.add_dependency(&id("repo-a", "build"), &id("repo-a", "test")),
        Err(DependencyGraphError::DuplicateEdge { .. })
    ));
    assert_eq!(
        graph.add_dependency(&id("repo-a", "test"), &id("repo-a", "test")),
        Err(DependencyGraphError::SelfDependency(id("repo-a", "test")))
    );
}

#[test]
fn scoped_ids_keep_repositories_isolated() {
    let mut graph = graph();
    graph
        .add_dependency(&id("repo-a", "build"), &id("repo-a", "test"))
        .unwrap();
    assert!(graph
        .direct_dependents(&id("repo-b", "build"))
        .unwrap()
        .is_empty());
    assert!(!graph.is_blocked(&id("repo-b", "build")).unwrap());
}

#[test]
fn blocked_queries_follow_resolved_prerequisites() {
    let mut graph = graph();
    graph
        .add_dependency(&id("repo-a", "build"), &id("repo-a", "test"))
        .unwrap();
    assert!(graph.is_blocked(&id("repo-a", "test")).unwrap());
    graph.set_resolved(&id("repo-a", "build"), true).unwrap();
    assert!(!graph.is_blocked(&id("repo-a", "test")).unwrap());
}

#[test]
fn cycles_are_reported_deterministically_without_repair() {
    let mut graph = graph();
    graph
        .add_dependency(&id("repo-a", "build"), &id("repo-a", "test"))
        .unwrap();
    graph
        .add_dependency(&id("repo-a", "test"), &id("repo-a", "lint"))
        .unwrap();
    graph
        .add_dependency(&id("repo-a", "lint"), &id("repo-a", "build"))
        .unwrap();
    assert!(!graph.is_acyclic());
    assert_eq!(
        graph.validation().cycles,
        vec![vec![
            id("repo-a", "build"),
            id("repo-a", "lint"),
            id("repo-a", "test"),
        ]]
    );
}

#[test]
fn duplicate_nodes_and_unknown_endpoints_are_refused() {
    let mut graph = graph();
    assert_eq!(
        graph.add_node(id("repo-a", "build"), "again".to_string(), true),
        Err(DependencyGraphError::DuplicateNode(id("repo-a", "build")))
    );
    assert_eq!(
        graph.add_dependency(&id("repo-c", "x"), &id("repo-a", "build")),
        Err(DependencyGraphError::UnknownNode(id("repo-c", "x")))
    );
    assert_eq!(
        graph.add_dependency(&id("repo-a", "build"), &id("repo-c", "y")),
        Err(DependencyGraphError::UnknownNode(id("repo-c", "y")))
    );
    assert_eq!(
        graph.set_resolved(&id("repo-c", "x"), true),
        Err(DependencyGraphError::UnknownNode(id("repo-c", "x")))
    );
    assert_eq!(
        graph.is_blocked(&id("repo-c", "x")),
        Err(DependencyGraphError::UnknownNode(id("repo-c", "x")))
    );
    assert_eq!(
        graph.direct_prerequisites(&id("repo-c", "x")),
        Err(DependencyGraphError::UnknownNode(id("repo-c", "x")))
    );
}

#[test]
fn removing_a_node_drops_its_edges() {
    let mut graph = graph();
    graph
        .add_dependency(&id("repo-a", "build"), &id("repo-a", "test"))
        .unwrap();
    graph
        .add_dependency(&id("repo-a", "lint"), &id("repo-a", "test"))
        .unwrap();
    let removed = graph.remove_node(&id("repo-a", "build")).unwrap();
    assert_eq!(removed.label, "repo-a/build");
    assert_eq!(
        graph.edges(),
        vec![(id("repo-a", "lint"), id("repo-a", "test"))]
    );
    assert!(graph.remove_node(&id("repo-a", "build")).is_none());
    assert_eq!(
        graph
            .nodes()
            .iter()
            .map(|node| node.label.as_str())
            .collect::<Vec<_>>(),
        ["repo-a/lint", "repo-a/test", "repo-b/build"]
    );
}

#[test]
fn two_separate_cycles_are_ordered_by_first_node_and_acyclic_graph_has_none() {
    let mut graph = graph();
    assert!(graph.is_acyclic());
    graph.add_node(id("repo-b", "test"), "repo-b/test".to_string(), false).unwrap();
    graph
        .add_dependency(&id("repo-b", "build"), &id("repo-b", "test"))
        .unwrap();
    graph
        .add_dependency(&id("repo-b", "test"), &id("repo-b", "build"))
        .unwrap();
    graph
        .add_dependency(&id("repo-a", "test"), &id("repo-a", "lint"))
        .unwrap();
    graph
        .add_dependency(&id("repo-a", "lint"), &id("repo-a", "test"))
        .unwrap();
    graph
        .add_dependency(&id("repo-a", "build"), &id("repo-a", "test"))
        .unwrap();
    assert_eq!(
        graph.cycles(),
        vec![
            vec![id("repo-a", "lint"), id("repo-a", "test")],
            vec![id("repo-b", "build"), id("repo-b", "test")],
        ]
    );
}
