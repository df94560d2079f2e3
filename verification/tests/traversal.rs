use roost::traversal::Traverseable;
use roost::{node, Graph, SparseGraph};

#[test]
fn traversal_breadth_first_search() {
    let mut gp: SparseGraph<i64, i64> = SparseGraph::new();
    gp.add_edge(1, 2, 1);
    gp.add_edge(1, 3, 2);
    gp.add_edge(1, 4, 1);
    gp.add_edge(4, 5, 4);
    gp.add_edge(4, 6, 6);
    gp.add_edge(5, 7, 7);
    let bfs: Vec<(i64, i64)> = gp
        .breadth_first_visit(node(&1, &gp))
        .unwrap()
        .collect()
        .into_iter()
        .map(|(x, y)| (gp.index_to_node(x).unwrap(), gp.index_to_node(y).unwrap()))
        .collect();
    assert_eq!(bfs, vec![(1, 2), (1, 3), (1, 4), (4, 5), (4, 6), (5, 7)]);
}

#[test]
fn traversal_depth_first_search() {
    let mut gp: SparseGraph<i64, i64> = SparseGraph::new();
    gp.add_edge(1, 2, 1);
    gp.add_edge(1, 3, 2);
    gp.add_edge(2, 3, 4);
    gp.add_edge(1, 4, 1);
    gp.add_edge(3, 5, 4);
    gp.add_edge(3, 6, 6);
    gp.add_edge(5, 7, 7);
    let dfs: Vec<(i64, i64)> = gp
        .depth_first_visit(node(&1, &gp))
        .unwrap()
        .collect()
        .into_iter()
        .map(|(x, y)| (gp.index_to_node(x).unwrap(), gp.index_to_node(y).unwrap()))
        .collect();
    assert_eq!(dfs, vec![(1, 2), (2, 3), (3, 5), (5, 7), (3, 6), (1, 4)]);
}
