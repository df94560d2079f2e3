use roost::search::Searchable;
use roost::{Graph, GraphError, SparseGraph};

fn diamond() -> SparseGraph<u32, ()> {
    // 0 -> 1 -> 3 -> 4, 0 -> 2 -> 3, 4 -> 0, 2 -> 1
    let mut graph: SparseGraph<u32, ()> = SparseGraph::new();
    graph.add_edge(0, 1, ());
    graph.add_edge(0, 2, ());
    graph.add_edge(1, 3, ());
    graph.add_edge(2, 3, ());
    graph.add_edge(3, 4, ());
    graph.add_edge(4, 0, ());
    graph.add_edge(2, 1, ());
    graph
}

fn reference_preorder(
    graph: &SparseGraph<u32, ()>,
    at: usize,
    visited: &mut Vec<bool>,
    out: &mut Vec<(usize, usize)>,
) {
    for child in graph.out_nodes(at) {
        if !visited[child] {
            visited[child] = true;
            out.push((at, child));
            reference_preorder(graph, child, visited, out);
        }
    }
}

fn hops(graph: &SparseGraph<u32, ()>, root: usize) -> Vec<Option<usize>> {
    let count = graph.nodes().len();
    let mut best: Vec<Option<usize>> = vec![None; count];
    best[root] = Some(0);
    for _ in 0..count {
        for from in 0..count {
            if let Some(d) = best[from] {
                for to in graph.out_nodes(from) {
                    if best[to].map_or(true, |known| d + 1 < known) {
                        best[to] = Some(d + 1);
                    }
                }
            }
        }
    }
    best
}

#[test]
fn breadth_first_yields_every_edge_of_reached_nodes_once() {
    let graph = diamond();
    let edges = graph.breadth_first_visit(&0).unwrap().collect();
    assert_eq!(edges, vec![(0, 1), (0, 2), (1, 3), (2, 3), (2, 1), (3, 4), (4, 0)]);
}

#[test]
fn breadth_first_sources_never_get_nearer() {
    let graph = diamond();
    for root in 0..5usize {
        let far = hops(&graph, root);
        let edges = graph
            .breadth_first_visit(&graph.node_of(root).unwrap())
            .unwrap()
            .collect();
        for pair in edges.windows(2) {
            assert!(far[pair[0].0].unwrap() <= far[pair[1].0].unwrap());
        }
    }
}

#[test]
fn breadth_first_first_visits_never_get_nearer() {
    let graph = diamond();
    let far = hops(&graph, 0);
    let mut visit = graph.breadth_first_visit(&0).unwrap();
    let mut seen = vec![false; 5];
    seen[0] = true;
    let mut order: Vec<usize> = Vec::new();
    while let Some((_, to)) = visit.next() {
        if !seen[to] {
            seen[to] = true;
            order.push(to);
        }
    }
    assert_eq!(order, vec![1, 2, 3, 4]);
    for pair in order.windows(2) {
        assert!(far[pair[0]].unwrap() <= far[pair[1]].unwrap());
    }
}

#[test]
fn depth_first_is_recursive_preorder() {
    let graph = diamond();
    for root in 0..5usize {
        let mut visited = vec![false; 5];
        visited[root] = true;
        let mut expected = Vec::new();
        reference_preorder(&graph, root, &mut visited, &mut expected);
        let edges = graph
            .depth_first_visit(&graph.node_of(root).unwrap())
            .unwrap()
            .collect();
        assert_eq!(edges, expected);
    }
}

#[test]
fn depth_first_skips_edges_to_visited_nodes() {
    let graph = diamond();
    let edges = graph.depth_first_visit(&0).unwrap().collect();
    assert_eq!(edges, vec![(0, 1), (1, 3), (3, 4), (0, 2)]);
}

#[test]
fn next_yields_one_edge_at_a_time() {
    let graph = diamond();
    let mut visit = graph.depth_first_visit(&2).unwrap();
    assert_eq!(visit.next(), Some((2, 3)));
    assert_eq!(visit.next(), Some((3, 4)));
    assert_eq!(visit.next(), Some((4, 0)));
    assert_eq!(visit.next(), Some((0, 1)));
    assert_eq!(visit.next(), None);
    assert_eq!(visit.next(), None);
    let mut visit = graph.breadth_first_visit(&3).unwrap();
    assert_eq!(visit.next(), Some((3, 4)));
    assert_eq!(visit.next(), Some((4, 0)));
}

#[test]
fn isolated_root_yields_nothing() {
    let mut graph: SparseGraph<u32, ()> = SparseGraph::new();
    graph.add_edge(1, 2, ());
    graph.insert_node(9);
    assert_eq!(graph.breadth_first_visit(&9).unwrap().collect(), vec![]);
    assert_eq!(graph.depth_first_visit(&9).unwrap().collect(), vec![]);
    assert_eq!(graph.breadth_first_visit(&2).unwrap().collect(), vec![]);
}

#[test]
fn missing_root_is_refused() {
    let graph = diamond();
    assert_eq!(graph.breadth_first_visit(&77).err(), Some(GraphError::NodeNotFound));
    assert_eq!(graph.depth_first_visit(&77).err(), Some(GraphError::NodeNotFound));
}

#[test]
fn cycles_end() {
    let mut graph: SparseGraph<u32, ()> = SparseGraph::new();
    graph.add_edge(1, 2, ());
    graph.add_edge(2, 1, ());
    graph.add_edge(1, 1, ());
    assert_eq!(graph.breadth_first_visit(&1).unwrap().collect(), vec![(0, 1), (0, 0), (1, 0)]);
    assert_eq!(graph.depth_first_visit(&1).unwrap().collect(), vec![(0, 1)]);
}
