use roost::edge::UnitEdge;
use roost::path::Path;
use roost::traversal::Traverseable;
use roost::{node, Graph, GraphError, SparseGraph};

fn ring_with_tail() -> SparseGraph<&'static str, UnitEdge> {
    let mut graph: SparseGraph<&str, UnitEdge> = SparseGraph::new();
    graph.add_edge("a", "b", UnitEdge);
    graph.add_edge("b", "c", UnitEdge);
    graph.add_edge("c", "a", UnitEdge);
    graph.add_edge("c", "d", UnitEdge);
    graph.add_edge("y", "z", UnitEdge);
    graph
}

#[test]
fn traversal_from_failed_root_gives_the_failure_back() {
    let graph = ring_with_tail();
    assert_eq!(
        graph.breadth_first_visit(node(&"q", &graph)).err(),
        Some(GraphError::NodeNotFound)
    );
    assert_eq!(
        graph.depth_first_visit(Err(GraphError::Unreachable)).err(),
        Some(GraphError::Unreachable)
    );
}

#[test]
fn traversal_from_index_out_of_range_is_refused() {
    let graph = ring_with_tail();
    assert_eq!(graph.breadth_first_visit(Ok(6)).err(), Some(GraphError::OutOfRange));
    assert_eq!(graph.depth_first_visit(Ok(usize::MAX)).err(), Some(GraphError::OutOfRange));
    assert!(graph.breadth_first_visit(Ok(5)).is_ok());
}

#[test]
fn has_path_is_membership_among_breadth_first_targets() {
    let graph = ring_with_tail();
    for source in graph.nodes() {
        let targets: Vec<usize> = graph
            .breadth_first_visit(Ok(source))
            .unwrap()
            .collect()
            .into_iter()
            .map(|(_, to)| to)
            .collect();
        for target in graph.nodes() {
            assert_eq!(graph.has_path(Ok(source), Ok(target)), targets.contains(&target));
        }
    }
}

#[test]
fn has_path_needs_an_edge() {
    let graph = ring_with_tail();
    // On a cycle a node has a path to itself; elsewhere it has none.
    assert!(graph.has_path(node(&"a", &graph), node(&"a", &graph)));
    assert!(!graph.has_path(node(&"d", &graph), node(&"d", &graph)));
    assert!(graph.has_path(node(&"y", &graph), node(&"z", &graph)));
    assert!(!graph.has_path(node(&"z", &graph), node(&"y", &graph)));
    assert!(!graph.has_path(node(&"d", &graph), node(&"a", &graph)));
}

#[test]
fn has_path_is_false_for_failed_nodes() {
    let graph = ring_with_tail();
    assert!(!graph.has_path(node(&"q", &graph), node(&"a", &graph)));
    assert!(!graph.has_path(node(&"a", &graph), node(&"q", &graph)));
    assert!(!graph.has_path(Ok(17), Ok(0)));
    assert!(!graph.has_path(Ok(0), Ok(17)));
}

#[test]
fn shortest_path_of_failed_nodes_gives_the_failure_back() {
    let graph = ring_with_tail();
    assert_eq!(
        graph.dijkstra_shortest_path(node(&"q", &graph), node(&"a", &graph)),
        Err(GraphError::NodeNotFound)
    );
    assert_eq!(
        graph.dijkstra_shortest_path(node(&"a", &graph), Err(GraphError::OutOfRange)),
        Err(GraphError::OutOfRange)
    );
    assert_eq!(
        graph.dijkstra_shortest_path(Err(GraphError::Unreachable), Err(GraphError::OutOfRange)),
        Err(GraphError::Unreachable)
    );
    assert_eq!(graph.dijkstra_shortest_path(Ok(0), Ok(6)), Err(GraphError::OutOfRange));
    assert_eq!(graph.dijkstra_shortest_path(Ok(6), Ok(0)), Err(GraphError::OutOfRange));
}

#[test]
fn shortest_path_to_isolated_component_is_unreachable() {
    let graph = ring_with_tail();
    assert_eq!(
        graph.dijkstra_shortest_path(node(&"a", &graph), node(&"z", &graph)),
        Err(GraphError::Unreachable)
    );
    assert_eq!(
        graph.dijkstra_shortest_path(node(&"d", &graph), node(&"a", &graph)),
        Err(GraphError::Unreachable)
    );
}

#[test]
fn shortest_path_by_unit_edges_counts_edges() {
    let graph = ring_with_tail();
    assert_eq!(
        graph.dijkstra_shortest_path(node(&"b", &graph), node(&"d", &graph)),
        Ok(vec![Ok(1), Ok(2), Ok(3)])
    );
    assert_eq!(
        graph.dijkstra_shortest_path(node(&"c", &graph), node(&"c", &graph)),
        Ok(vec![Ok(2)])
    );
}
