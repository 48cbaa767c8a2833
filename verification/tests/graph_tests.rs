use std::collections::HashSet;

use sparsegraph::constants::{NUM_EDGES_PADDED, NUM_VERTICES};
use sparsegraph::graph::{new_static_graph, new_static_graph_open, StaticGraph};

#[test]
pub fn new_graph() {
    let _zero_graph: StaticGraph = StaticGraph::new_zeroed();
    let _static_graph = new_static_graph();
}

#[test]
fn new_dfs_iterator() {
    let graph = new_static_graph();
    let _ = graph.dfs_iter();
}

#[test]
fn test_connected_dfs() {
    let mut node_set = HashSet::with_capacity(NUM_VERTICES);
    let mut graph = new_static_graph_open();
    graph.edge_data = vec![0u16; NUM_EDGES_PADDED]; // No logic
    let mut dfs_iter = graph.dfs_iter();
    for _ in 1..=NUM_VERTICES {
        let next_node = dfs_iter.next();
        assert!(next_node.is_some());
        node_set.insert(next_node.unwrap());
    }
    assert_eq!(node_set.len(), NUM_VERTICES);
    assert_eq!(None, dfs_iter.next());
}

#[test]
fn test_connected_bfs() {
    let mut node_set = HashSet::with_capacity(NUM_VERTICES);
    let mut graph = new_static_graph_open();
    graph.edge_data = vec![0u16; NUM_EDGES_PADDED]; // No logic
    let mut bfs_iter = graph.bfs_iter();
    for _ in 1..=NUM_VERTICES {
        let next_node = bfs_iter.next();
        assert!(next_node.is_some());
        node_set.insert(next_node.unwrap());
    }
    assert_eq!(node_set.len(), NUM_VERTICES);
    assert_eq!(None, bfs_iter.next());
}

#[test]
fn empty_neighbor_slice_for_sentinel_and_leaf() {
    let graph = new_static_graph();
    // the sentinel vertex has no neighbors
    let (slice, _) = graph.get_neighbors_out(None);
    assert!(slice.is_empty());
    assert_eq!(graph.terminal(), 0);
    // the highest-indexed real vertex owns no edges: the terminal offset
    // makes its slice empty too
    let (slice, _) = graph.get_neighbors_out(Some(NUM_VERTICES as u16));
    assert!(slice.is_empty());
    // padding vertices beyond the real range are empty as well
    let (slice, _) = graph.get_neighbors_out(Some(u16::MAX));
    assert!(slice.is_empty());
    // an interior chain vertex has exactly its successor
    let (slice, offset) = graph.get_neighbors_out(Some(1));
    assert_eq!(slice, &[2u16]);
    assert_eq!(offset, 1);
}

#[test]
fn zeroed_graph_has_no_edges_anywhere() {
    let graph = StaticGraph::new_zeroed();
    for v in [0u16, 1, 2, 100, 20000, u16::MAX] {
        let (slice, _) = graph.get_neighbors_out(Some(v));
        assert!(slice.is_empty());
    }
}
