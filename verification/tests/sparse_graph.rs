use roost::{AdjList, Graph, SparseGraph};
use roost::edge::UnitEdge;

#[test]
fn graph_with_str_nodes() {
    #[derive(Clone)]
    struct Edge {
        #[allow(dead_code)]
        weight: f64,
        #[allow(dead_code)]
        cost: i64,
    }
    let edges = vec![
        ("A", "B", Edge { weight: 1.1, cost: 3 }),
        ("A", "C", Edge { weight: 1.2, cost: 5 }),
        ("B", "C", Edge { weight: 1.3, cost: 5 }),
        ("C", "D", Edge { weight: 1.4, cost: 5 }),
    ];
    let gp: SparseGraph<&str, Edge> = SparseGraph::from_iter(edges);
    assert!(gp.contains_node(&"A"));
    assert!(gp.contains_node(&"B"));
    assert!(gp.contains_node(&"C"));
    assert!(gp.contains_node(&"D"));
    assert!(!gp.contains_node(&"E"));

    assert!(gp.contains_edge(&"A", &"B"));
    assert!(!gp.contains_edge(&"A", &"D"));

    let a_idx = gp.node_to_index(&"A").unwrap();
    let b_idx = gp.node_to_index(&"B").unwrap();
    let c_idx = gp.node_to_index(&"C").unwrap();
    assert_eq!(gp.out_nodes(a_idx), vec![b_idx, c_idx]);

    let mut gp_mut = gp;
    assert!(!gp_mut.contains_node(&"E"));
    gp_mut.add_node("E");
    assert!(gp_mut.contains_node(&"E"));
}

#[test]
fn graph_with_int_nodes() {
    let edges = vec![
        (1i64, 2i64, "Edge 1"),
        (1i64, 3i64, "Edge 2"),
        (2i64, 3i64, "Edge 3"),
        (3i64, 4i64, "Edge 4"),
    ];
    let gp: SparseGraph<i64, &str> = SparseGraph::from_iter(edges);
    assert!(gp.contains_node(&1i64));
    assert!(gp.contains_node(&2i64));
    assert!(gp.contains_node(&3i64));
    assert!(gp.contains_node(&4));
    assert!(!gp.contains_node(&5));

    assert!(gp.contains_edge(&1i64, &2));
    assert!(!gp.contains_edge(&1, &4));
}

#[test]
fn new_graph_with_int_nodes() {
    let mut gp: SparseGraph<i64, UnitEdge> = SparseGraph::new();
    gp.add_node(1);
    gp.add_node(2);
    gp.add_node(3);
    assert!(gp.contains_node(&1));
    assert!(gp.contains_node(&2));
    assert!(gp.contains_node(&3));
    assert!(!gp.contains_node(&4));
}

#[test]
fn new_graph_with_str_nodes() {
    let mut gp: SparseGraph<&str, UnitEdge> = SparseGraph::new();
    gp.add_node("node a");
    gp.add_node("node b");
    gp.add_node("node c");
    assert!(gp.contains_node(&"node a"));
    assert!(gp.contains_node(&"node b"));
    assert!(gp.contains_node(&"node c"));
    assert!(!gp.contains_node(&"node z"));
}

#[test]
fn graph_with_struct_nodes() {
    #[derive(Eq, PartialEq, Clone)]
    struct Point(i64, i64);
    let point_a = Point(1, 3);
    let point_b = Point(4, -1);
    let point_c = Point(90, 22);
    let point_d = Point(3, 3);
    let point_e = Point(5, 2);
    let mut graph: AdjList<Point, i64> = AdjList::new();
    graph.add_edge(point_a.clone(), point_b.clone(), 3);
    graph.add_edge(point_a.clone(), point_c.clone(), 1);
    graph.add_edge(point_b.clone(), point_c.clone(), 2);
    graph.add_edge(point_c.clone(), point_d.clone(), 6);
    assert!(graph.contains_node(&point_a));
    assert!(graph.contains_node(&point_b));
    assert!(graph.contains_node(&point_c));
    assert!(graph.contains_node(&point_d));
    assert!(!graph.contains_node(&point_e));
}
