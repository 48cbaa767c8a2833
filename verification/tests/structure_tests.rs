use sparsegraph::bfs_iter::BfsQueue;
use sparsegraph::constants::{NUM_EDGES_PADDED, NUM_VERTICES_PADDED};
use sparsegraph::dfs_iter::DfsStack;
use sparsegraph::graph::{new_static_graph, AccessCache, NodeData, NodeType, StaticGraph, VisitedCache};
use sparsegraph::logic::{CollectionState, ReqArray, Requirement, RequirementNode};

#[test]
fn stack_is_last_in_first_out() {
    let mut stack = DfsStack::new();
    assert_eq!(stack.pop(), None);
    stack.push(3);
    stack.push(7);
    stack.push(11);
    assert_eq!(stack.pop(), Some(11));
    assert_eq!(stack.pop(), Some(7));
    stack.push(2);
    assert_eq!(stack.pop(), Some(2));
    assert_eq!(stack.pop(), Some(3));
    assert_eq!(stack.pop(), None);
}

#[test]
fn stack_clear_discards_pending_entries() {
    let mut stack = DfsStack::new();
    stack.push(4);
    stack.push(5);
    stack.clear();
    assert_eq!(stack.pop(), None);
    stack.push(9);
    assert_eq!(stack.pop(), Some(9));
}

#[test]
fn queue_is_first_in_first_out() {
    let mut queue = BfsQueue::new();
    assert_eq!(queue.pop_front(), None);
    queue.push_back(3);
    queue.push_back(7);
    queue.push_back(11);
    assert_eq!(queue.pop_front(), Some(3));
    queue.push_back(2);
    assert_eq!(queue.pop_front(), Some(7));
    assert_eq!(queue.pop_front(), Some(11));
    assert_eq!(queue.pop_front(), Some(2));
    assert_eq!(queue.pop_front(), None);
}

#[test]
fn queue_clear_discards_pending_entries() {
    let mut queue = BfsQueue::new();
    queue.push_back(4);
    queue.push_back(5);
    queue.clear();
    assert_eq!(queue.pop_front(), None);
    queue.push_back(9);
    assert_eq!(queue.pop_front(), Some(9));
}

#[test]
fn visited_cache_marks_and_tests_bits() {
    let mut cache = VisitedCache::new();
    assert!(!cache.check_visited(5));
    assert!(!cache.check_visited(0));
    cache.mark_visited(5);
    assert!(cache.check_visited(5));
    assert!(!cache.check_visited(4));
    assert!(!cache.check_visited(6));
    // a second mark reports the earlier visit
    assert!(cache.test_set_visited(5));
    assert!(!cache.test_set_visited(65535));
    assert!(cache.check_visited(65535));
    // bits of neighboring words stay untouched
    assert!(!cache.check_visited(64));
    cache.mark_visited(64);
    assert!(cache.check_visited(64));
    assert!(!cache.check_visited(63));
    assert!(!cache.check_visited(65));
}

#[test]
fn access_cache_starts_all_clear() {
    let cache = AccessCache::new();
    assert!(!cache.check_access(0));
    assert!(!cache.check_access(1));
    assert!(!cache.check_access(65535));
}

#[test]
fn graph_validation_rejects_malformed_arrays() {
    let good_np = vec![1u16; NUM_VERTICES_PADDED];
    let good_ep = vec![1u16; NUM_EDGES_PADDED];
    let good_ed = vec![0u16; NUM_EDGES_PADDED];
    let node_data = || {
        let mut d = Vec::with_capacity(NUM_VERTICES_PADDED);
        for _ in 0..NUM_VERTICES_PADDED {
            d.push(NodeData::default());
        }
        d
    };

    // valid arrays are accepted
    assert!(
        StaticGraph::try_new(good_np.clone(), node_data(), good_ep.clone(), good_ed.clone())
            .is_some()
    );
    // short arrays are refused
    assert!(StaticGraph::try_new(vec![1u16; 10], node_data(), good_ep.clone(), good_ed.clone())
        .is_none());
    // decreasing offsets are refused
    let mut bad_np = good_np.clone();
    bad_np[5] = 9;
    bad_np[6] = 8;
    assert!(StaticGraph::try_new(bad_np, node_data(), good_ep.clone(), good_ed.clone()).is_none());
    // the sentinel vertex must own an empty slice
    let mut bad_np = good_np.clone();
    bad_np[0] = 0;
    assert!(StaticGraph::try_new(bad_np, node_data(), good_ep.clone(), good_ed.clone()).is_none());
    // no edge may target the sentinel
    let mut bad_ep = good_ep.clone();
    bad_ep[7] = 0;
    assert!(StaticGraph::try_new(good_np.clone(), node_data(), bad_ep, good_ed.clone()).is_none());
}

fn leaf(req: Requirement) -> RequirementNode {
    RequirementNode { req, and: None, or: None }
}

#[test]
fn table_validation_accepts_dags_and_rejects_cycles() {
    // the canonical shape: leaves plus shared combined expressions
    let nodes = vec![
        leaf(Requirement::Open),
        leaf(Requirement::Locked),
        RequirementNode { req: Requirement::Boots, and: None, or: Some(3) },
        leaf(Requirement::Hammer),
        leaf(Requirement::Gloves),
        RequirementNode { req: Requirement::Gloves, and: Some(3), or: None },
        leaf(Requirement::Flute),
    ];
    assert!(ReqArray::try_new(nodes).is_some());

    // the empty table is valid
    assert!(ReqArray::try_new(Vec::new()).is_some());

    // a two-node cycle is refused
    let nodes = vec![
        leaf(Requirement::Open),
        RequirementNode { req: Requirement::Boots, and: Some(2), or: None },
        RequirementNode { req: Requirement::Hammer, and: Some(1), or: None },
    ];
    assert!(ReqArray::try_new(nodes).is_none());

    // a self-loop is refused
    let nodes = vec![
        leaf(Requirement::Open),
        RequirementNode { req: Requirement::Boots, and: None, or: Some(1) },
    ];
    assert!(ReqArray::try_new(nodes).is_none());

    // an out-of-range child is refused
    let nodes = vec![
        leaf(Requirement::Open),
        RequirementNode { req: Requirement::Boots, and: Some(9), or: None },
    ];
    assert!(ReqArray::try_new(nodes).is_none());

    // a child link to the reserved slot 0 is refused
    let nodes = vec![
        leaf(Requirement::Open),
        RequirementNode { req: Requirement::Boots, and: Some(0), or: None },
    ];
    assert!(ReqArray::try_new(nodes).is_none());
}

#[test]
fn default_values_match_the_demonstration_setup() {
    let state = CollectionState::default();
    assert!(state.boots);
    assert!(!state.gloves);
    assert!(state.hammer);
    assert!(state.flute);
    assert!(state.satisfies(Requirement::Open));
    assert!(!state.satisfies(Requirement::Locked));
    assert!(state.satisfies(Requirement::Boots));
    assert!(!state.satisfies(Requirement::Gloves));

    let data = NodeData::default();
    assert!(matches!(data.node_type, NodeType::Place));
    assert_eq!(data.data_index, 0);
}

#[test]
fn engine_leaf_evaluation_reads_the_engine_state() {
    let graph = new_static_graph();
    let dfs = graph.dfs_iter();
    assert!(dfs.eval_requirement(Requirement::Open));
    assert!(!dfs.eval_requirement(Requirement::Locked));
    assert!(dfs.eval_requirement(Requirement::Hammer));
    assert!(!dfs.eval_requirement(Requirement::Gloves));
    let bfs = graph.bfs_iter();
    assert!(bfs.eval_requirement(Requirement::Flute));
    assert!(!bfs.eval_requirement(Requirement::Gloves));
}
