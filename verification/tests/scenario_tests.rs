use sparsegraph::constants::{NUM_EDGES_PADDED, NUM_VERTICES_PADDED};
use sparsegraph::graph::{NodeData, StaticGraph};
use sparsegraph::logic::{req_container, CollectionState};

/// Build a validated graph from short per-vertex adjacency lists, padding the
/// arrays out to their fixed capacities. `adjacency[v - 1]` lists the
/// `(target, requirement_root)` pairs of vertex `v`, in edge order.
fn graph_from_adjacency(adjacency: &[Vec<(u16, u16)>]) -> StaticGraph {
    let mut node_pointers = vec![1u16; NUM_VERTICES_PADDED];
    let mut edge_pointers = vec![1u16; NUM_EDGES_PADDED];
    let mut edge_data = vec![0u16; NUM_EDGES_PADDED];
    let mut node_data = Vec::with_capacity(NUM_VERTICES_PADDED);
    for _ in 0..NUM_VERTICES_PADDED {
        node_data.push(NodeData::default());
    }
    let mut next_edge: u16 = 1;
    for (v0, edges) in adjacency.iter().enumerate() {
        node_pointers[v0 + 1] = next_edge;
        for &(target, requirement) in edges {
            edge_pointers[next_edge as usize] = target;
            edge_data[next_edge as usize] = requirement;
            next_edge += 1;
        }
    }
    for v in (adjacency.len() + 1)..NUM_VERTICES_PADDED {
        node_pointers[v] = next_edge;
    }
    StaticGraph::try_new(node_pointers, node_data, edge_pointers, edge_data)
        .expect("adjacency lists form a valid graph")
}

fn diamond_graph() -> StaticGraph {
    // vertex 1 -> {2,3,4}; 2 -> {5}; 3 -> {5}; 4 -> {}; all edges Open
    graph_from_adjacency(&[
        vec![(2, 0), (3, 0), (4, 0)],
        vec![(5, 0)],
        vec![(5, 0)],
        vec![],
        vec![],
    ])
}

#[test]
fn diamond_dfs_drain_visits_each_vertex_once() {
    let graph = diamond_graph();
    let mut dfs = graph.dfs_iter();
    assert!(dfs.search(5));

    let mut dfs = graph.dfs_iter();
    let mut produced = Vec::new();
    while let Some(v) = dfs.next() {
        produced.push(v);
    }
    let mut sorted = produced.clone();
    sorted.sort();
    assert_eq!(sorted, vec![1, 2, 3, 4, 5]);
    assert_eq!(None, dfs.next());
}

#[test]
fn diamond_bfs_drains_same_set_in_hop_order() {
    let graph = diamond_graph();
    let mut bfs = graph.bfs_iter();
    assert!(bfs.search(5));

    let mut bfs = graph.bfs_iter();
    let mut produced = Vec::new();
    while let Some(v) = bfs.next() {
        produced.push(v);
    }
    let mut sorted = produced.clone();
    sorted.sort();
    assert_eq!(sorted, vec![1, 2, 3, 4, 5]);
    // vertex 5 is discovered no earlier than vertices 2, 3 and 4
    let position = |x: u16| produced.iter().position(|&v| v == x).unwrap();
    assert!(position(5) > position(2));
    assert!(position(5) > position(3));
    assert!(position(5) > position(4));
}

#[test]
fn hammer_gated_edge_follows_collection_state() {
    // edge 1 -> 2 gated by the Hammer requirement (root index 3)
    let graph = graph_from_adjacency(&[vec![(2, 3)], vec![]]);
    let no_hammer = CollectionState { boots: true, hammer: false, gloves: true, flute: true };
    let mut dfs = graph
        .dfs_iter_with(1, req_container(), no_hammer)
        .expect("root 1 is a vertex");
    assert!(!dfs.search(2));
    // while the hammer is missing the answer stays false
    assert!(!dfs.search(2));

    let with_hammer = CollectionState { boots: true, hammer: true, gloves: true, flute: true };
    let mut dfs = graph
        .dfs_iter_with(1, req_container(), with_hammer)
        .expect("root 1 is a vertex");
    assert!(dfs.search(2));

    let mut bfs = graph
        .bfs_iter_with(1, req_container(), with_hammer)
        .expect("root 1 is a vertex");
    assert!(bfs.search(2));
}

#[test]
fn combined_requirements_evaluate_by_short_circuit() {
    let reqs = req_container();
    // "Boots or Hammer" (root 2) with Boots absent but Hammer held
    let state = CollectionState { boots: false, hammer: true, gloves: false, flute: false };
    assert!(reqs.eval(&state, 2));
    // "Gloves and Hammer" (root 5) with Gloves held but Hammer absent
    let state = CollectionState { boots: false, hammer: false, gloves: true, flute: false };
    assert!(!reqs.eval(&state, 5));
    // the reserved leaves: Open always holds, Locked never does
    assert!(reqs.eval(&state, 0));
    assert!(!reqs.eval(&state, 1));
    // a root index outside the table never holds
    assert!(!reqs.eval(&state, 7));
}

#[test]
fn root_is_reachable_under_any_access_configuration() {
    // every edge of the chain locked: the root alone remains reachable
    let graph = graph_from_adjacency(&[vec![(2, 1)], vec![(3, 1)], vec![]]);
    let mut dfs = graph.dfs_iter();
    assert!(dfs.search(1));
    assert!(!dfs.search(2));
    assert!(!dfs.search(3));
    let mut bfs = graph.bfs_iter();
    assert!(bfs.search(1));
    assert!(!bfs.search(2));
}

#[test]
fn repeated_queries_are_stable_and_monotonic() {
    let graph = diamond_graph();
    let mut dfs = graph.dfs_iter();
    // once true, a verdict stays true across later queries
    assert!(dfs.search(5));
    assert!(dfs.search(2));
    assert!(dfs.search(5));
    assert!(!dfs.search(6));
    assert!(!dfs.search(6));
    assert!(dfs.search(5));
}

#[test]
fn bfs_clear_resets_traversal_progress() {
    let graph = diamond_graph();
    let mut bfs = graph.bfs_iter();
    let mut first = Vec::new();
    while let Some(v) = bfs.next() {
        first.push(v);
    }
    assert_eq!(None, bfs.next());
    bfs.clear();
    let mut second = Vec::new();
    while let Some(v) = bfs.next() {
        second.push(v);
    }
    assert_eq!(first, second);
}

#[test]
fn engine_helpers_expose_compiled_access() {
    let graph = graph_from_adjacency(&[vec![(2, 3)], vec![]]);
    let no_hammer = CollectionState { boots: false, hammer: false, gloves: false, flute: false };
    let dfs = graph
        .dfs_iter_with(1, req_container(), no_hammer)
        .expect("root 1 is a vertex");
    // edge slot 1 carries the Hammer requirement, not yet satisfied
    assert!(!dfs.check_access(1));
    assert!(!dfs.eval_logic_tree(3));
    assert!(dfs.eval_logic_tree(0));
    assert!(dfs.check_visited(1));
    assert!(!dfs.check_visited(2));

    let with_hammer = CollectionState { boots: false, hammer: true, gloves: false, flute: false };
    let dfs = graph
        .dfs_iter_with(1, req_container(), with_hammer)
        .expect("root 1 is a vertex");
    assert!(dfs.check_access(1));

    let bfs = graph
        .bfs_iter_with(1, req_container(), with_hammer)
        .expect("root 1 is a vertex");
    assert!(bfs.eval_logic_tree(3));
    assert!(!bfs.eval_logic_tree(1));
}

#[test]
fn sentinel_root_is_rejected() {
    let graph = diamond_graph();
    let state = CollectionState::default();
    assert!(graph.dfs_iter_with(0, req_container(), state).is_none());
    assert!(graph.bfs_iter_with(0, req_container(), state).is_none());
    assert!(graph.dfs_iter_with(3, req_container(), state).is_some());
}
