use roost::{node, Graph, GraphError, SparseGraph};

fn letters() -> SparseGraph<&'static str, u32> {
    let mut graph: SparseGraph<&str, u32> = SparseGraph::new();
    graph.add_edge("a", "b", 1);
    graph.add_edge("a", "c", 2);
    graph.add_edge("b", "c", 3);
    graph.add_edge("c", "a", 4);
    graph
}

#[test]
fn empty_graph_has_no_nodes() {
    let graph: SparseGraph<u8, u8> = SparseGraph::new();
    assert_eq!(graph.nodes(), Vec::<usize>::new());
    assert_eq!(graph.index_of(&1), None);
    assert_eq!(graph.node_of(0), None);
    assert_eq!(graph.out_nodes(0), Vec::<usize>::new());
    assert_eq!(graph.in_edges(0), Vec::<(usize, usize)>::new());
    assert_eq!(graph.out_edges(0), Vec::<(usize, usize)>::new());
    assert_eq!(graph.get_edge(0, 0), None);
    assert!(!graph.contains_edge(&1, &2));
}

#[test]
fn node_count_is_number_of_distinct_values() {
    let mut graph: SparseGraph<&str, u32> = SparseGraph::new();
    assert_eq!(graph.nodes().len(), 0);
    graph.add_edge("a", "b", 1);
    assert_eq!(graph.nodes().len(), 2);
    graph.add_edge("b", "a", 1);
    assert_eq!(graph.nodes().len(), 2);
    graph.add_edge("a", "c", 1);
    assert_eq!(graph.nodes().len(), 3);
    graph.add_edge("d", "d", 1);
    assert_eq!(graph.nodes().len(), 4);
    graph.add_edge("e", "f", 1);
    assert_eq!(graph.nodes().len(), 6);
    assert_eq!(graph.nodes(), vec![0, 1, 2, 3, 4, 5]);
}

#[test]
fn add_edge_grows_by_zero_one_or_two_nodes() {
    let mut graph: SparseGraph<i32, ()> = SparseGraph::new();
    graph.add_edge(1, 2, ());
    assert_eq!(graph.nodes().len(), 2);
    graph.add_edge(2, 3, ());
    assert_eq!(graph.nodes().len(), 3);
    graph.add_edge(3, 1, ());
    assert_eq!(graph.nodes().len(), 3);
}

#[test]
fn indices_follow_insertion_order() {
    let graph = letters();
    assert_eq!(graph.index_of(&"a"), Some(0));
    assert_eq!(graph.index_of(&"b"), Some(1));
    assert_eq!(graph.index_of(&"c"), Some(2));
    assert_eq!(graph.node_of(0), Some("a"));
    assert_eq!(graph.index_to_node(2), Some("c"));
    assert_eq!(graph.node_of(3), None);
    assert_eq!(graph.index_to_node(usize::MAX), None);
}

#[test]
fn last_payload_is_stored() {
    let mut graph = letters();
    let a = graph.index_of(&"a").unwrap();
    let b = graph.index_of(&"b").unwrap();
    assert_eq!(graph.get_edge(a, b), Some(1));
    graph.add_edge("a", "b", 17);
    assert_eq!(graph.get_edge(a, b), Some(17));
    assert_eq!(graph.get_edge(b, a), None);
}

#[test]
fn replacing_an_edge_keeps_one_adjacency_entry() {
    let mut graph = letters();
    let a = graph.index_of(&"a").unwrap();
    assert_eq!(graph.out_nodes(a), vec![1, 2]);
    graph.add_edge("a", "b", 8);
    graph.add_edge("a", "c", 9);
    graph.add_edge("a", "b", 10);
    assert_eq!(graph.out_nodes(a), vec![1, 2]);
    assert_eq!(graph.out_edges(a), vec![(0, 1), (0, 2)]);
    assert_eq!(graph.nodes().len(), 3);
}

#[test]
fn self_loop_is_one_edge() {
    let mut graph: SparseGraph<&str, u32> = SparseGraph::new();
    graph.add_edge("x", "x", 5);
    assert_eq!(graph.nodes(), vec![0]);
    assert_eq!(graph.out_nodes(0), vec![0]);
    assert_eq!(graph.in_edges(0), vec![(0, 0)]);
    assert_eq!(graph.get_edge(0, 0), Some(5));
    assert!(graph.contains_edge(&"x", &"x"));
}

#[test]
fn in_edges_come_by_ascending_source() {
    let graph = letters();
    let c = graph.index_of(&"c").unwrap();
    assert_eq!(graph.in_edges(c), vec![(0, 2), (1, 2)]);
    assert_eq!(graph.in_edges(0), vec![(2, 0)]);
    assert_eq!(graph.in_edges(7), Vec::<(usize, usize)>::new());
}

#[test]
fn out_of_range_reads_are_empty() {
    let graph = letters();
    assert_eq!(graph.out_nodes(3), Vec::<usize>::new());
    assert_eq!(graph.out_edges(3), Vec::<(usize, usize)>::new());
    assert_eq!(graph.get_edge(3, 0), None);
    assert_eq!(graph.get_edge(0, 3), None);
}

#[test]
fn missing_value_is_not_found() {
    let graph = letters();
    assert_eq!(graph.node_to_index(&"z"), Err(GraphError::NodeNotFound));
    assert_eq!(node(&"z", &graph), Err(GraphError::NodeNotFound));
    assert_eq!(node(&"b", &graph), Ok(1));
    assert_eq!(graph.index_of(&"z"), None);
    assert!(!graph.contains_node(&"z"));
    assert!(!graph.contains_edge(&"a", &"z"));
    assert!(!graph.contains_edge(&"z", &"a"));
}

#[test]
fn resolving_twice_gives_one_index() {
    let graph = letters();
    let first = graph.index_of(&"b");
    let _ = graph.nodes();
    let _ = graph.out_nodes(0);
    let _ = graph.in_edges(2);
    let _ = graph.get_edge(0, 1);
    let _ = graph.contains_node(&"c");
    let second = graph.index_of(&"b");
    assert_eq!(first, second);
    assert_eq!(graph.node_to_index(&"b"), graph.node_to_index(&"b"));
}

#[test]
fn indices_stay_when_the_graph_grows() {
    let mut graph = letters();
    let before = graph.index_of(&"c");
    graph.add_edge("x", "y", 0);
    graph.add_edge("c", "x", 0);
    assert_eq!(graph.index_of(&"c"), before);
}

#[test]
fn insert_node_returns_the_new_index() {
    let mut graph = letters();
    assert!(!graph.contains_node(&"q"));
    assert_eq!(graph.insert_node("q"), 3);
    assert_eq!(graph.index_of(&"q"), Some(3));
    assert_eq!(graph.out_nodes(3), Vec::<usize>::new());
    assert_eq!(graph.nodes().len(), 4);
}

#[test]
fn from_iter_inserts_in_order() {
    let graph: SparseGraph<u8, char> =
        SparseGraph::from_iter(vec![(3, 1, 'x'), (1, 2, 'y'), (3, 1, 'z'), (3, 2, 'w')]);
    assert_eq!(graph.index_of(&3), Some(0));
    assert_eq!(graph.index_of(&1), Some(1));
    assert_eq!(graph.index_of(&2), Some(2));
    assert_eq!(graph.get_edge(0, 1), Some('z'));
    assert_eq!(graph.out_nodes(0), vec![1, 2]);
}

#[test]
fn error_messages_differ() {
    assert_eq!(GraphError::NodeNotFound.message(), "node not found");
    assert_eq!(GraphError::OutOfRange.message(), "index out of range");
    assert_eq!(GraphError::Unreachable.message(), "target unreachable");
}
