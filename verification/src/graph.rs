use vstd::prelude::*;
use vstd::pervasive::VecAdditionalExecFns;
use crate::constants::{
    ACCESS_BITFIELD_LEN, HI_BIT, NUM_EDGES_PADDED, NUM_VERTICES, NUM_VERTICES_PADDED,
    VISITED_BITFIELD_LEN,
};
use crate::bfs_iter::{BfsIter, BfsQueue};
use crate::dfs_iter::{DfsIter, DfsStack};
use crate::logic::{
    canonical_req_nodes, canonical_req_ranks, req_container, CollectionState, ReqArray,
};
use crate::reach::lemma_reaches_root;

verus! {

// ---------------------------------------------------------------------------
// Dense bitsets over a u16 index space, one bit per vertex or edge.
// ---------------------------------------------------------------------------

/// The word of a bitset that carries index `idx`.
pub open spec fn word_index(idx: u16) -> int {
    (idx >> 6) as int
}

/// The single-bit mask for index `idx` inside its word: bit order is
/// most-significant-bit-first.
pub open spec fn bit_mask(idx: u16) -> u64 {
    HI_BIT >> ((idx & 63) as u64)
}

/// Whether bit `idx` is set in a bitset of 64-bit words.
pub open spec fn bit_set(words: Seq<u64>, idx: u16) -> bool {
    words[word_index(idx)] & bit_mask(idx) != 0
}

/// Two indices agree exactly when their word positions and bit offsets agree.
proof fn lemma_index_split(a: u16, b: u16)
    ensures
        (a == b) <==> (a >> 6 == b >> 6 && (a & 63) == (b & 63)),
{
    assert((a == b) <==> (a >> 6 == b >> 6 && (a & 63) == (b & 63))) by (bit_vector);
}

/// The word and bit offset of an index are in range.
proof fn lemma_index_bounds(a: u16)
    ensures
        0 <= (a >> 6) < 1024,
        (a & 63) < 64,
{
    assert(a >> 6 < 1024 && (a & 63) < 64) by (bit_vector);
}

/// Setting one bit of a word by `or` leaves a bit readable exactly when it
/// was readable before or is the bit just set.
proof fn lemma_or_bit(w: u64, i: u64, j: u64)
    requires
        i < 64,
        j < 64,
    ensures
        ((w | (HI_BIT >> i)) & (HI_BIT >> j) != 0) <==> (i == j || (w & (HI_BIT >> j) != 0)),
{
    assert(((w | (0x8000_0000_0000_0000u64 >> i)) & (0x8000_0000_0000_0000u64 >> j) != 0) <==> (i
        == j || (w & (0x8000_0000_0000_0000u64 >> j) != 0))) by (bit_vector)
        requires
            i < 64,
            j < 64,
    ;
}

/// No bit of a zero word is set.
proof fn lemma_zero_word(j: u64)
    requires
        j < 64,
    ensures
        0u64 & (HI_BIT >> j) == 0,
{
    assert(0u64 & (0x8000_0000_0000_0000u64 >> j) == 0) by (bit_vector);
}

/// A vector of `len` copies of `value`.
pub(crate) fn filled_u64(len: usize, value: u64) -> (r: Vec<u64>)
    ensures
        r@.len() == len,
        forall|k: int| 0 <= k < len ==> r@[k] == value,
{
    let mut r: Vec<u64> = Vec::new();
    while r.len() < len
        invariant
            r@.len() <= len,
            forall|k: int| 0 <= k < r@.len() ==> r@[k] == value,
        decreases len - r@.len(),
    {
        r.push(value);
    }
    r
}

/// A vector of `len` copies of `value`.
pub(crate) fn filled_u16(len: usize, value: u16) -> (r: Vec<u16>)
    ensures
        r@.len() == len,
        forall|k: int| 0 <= k < len ==> r@[k] == value,
{
    let mut r: Vec<u16> = Vec::new();
    while r.len() < len
        invariant
            r@.len() <= len,
            forall|k: int| 0 <= k < r@.len() ==> r@[k] == value,
        decreases len - r@.len(),
    {
        r.push(value);
    }
    r
}

/// Read bit `idx` of a 1024-word bitset.
fn bits_check(words: &Vec<u64>, idx: u16) -> (r: bool)
    requires
        words@.len() == 1024,
    ensures
        r == bit_set(words@, idx),
{
    proof {
        lemma_index_bounds(idx);
    }
    let bit_index: u16 = idx & 0x003F;
    let bitfield_index: usize = (idx >> 6) as usize;
    let bitmask: u64 = HI_BIT >> (bit_index as u64);
    (words[bitfield_index] & bitmask) != 0
}

/// Set bit `idx` of a 1024-word bitset, leaving every other bit unchanged.
fn bits_mark(words: &mut Vec<u64>, idx: u16)
    requires
        old(words)@.len() == 1024,
    ensures
        final(words)@.len() == 1024,
        forall|j: u16| bit_set(final(words)@, j) == (bit_set(old(words)@, j) || j == idx),
{
    proof {
        lemma_index_bounds(idx);
    }
    let bit_index: u16 = idx & 0x003F;
    let bitfield_index: usize = (idx >> 6) as usize;
    let bitmask: u64 = HI_BIT >> (bit_index as u64);
    let w: u64 = words[bitfield_index];
    words.set(bitfield_index, w | bitmask);
    proof {
        assert forall|j: u16|
            bit_set(words@, j) == (bit_set(old(words)@, j) || j == idx) by {
            lemma_index_bounds(j);
            lemma_index_split(idx, j);
            if j >> 6 == idx >> 6 {
                lemma_or_bit(w, (idx & 63) as u64, (j & 63) as u64);
            }
        }
    }
}

/// Fixed-length bit-packed cache of per-edge accessibility, compiled once
/// from the requirement table and a collection state.
pub struct AccessCache {
    pub words: Vec<u64>,
}

impl AccessCache {
    /// The backing array has its fixed length.
    pub open spec fn wf(self) -> bool {
        self.words@.len() == ACCESS_BITFIELD_LEN
    }

    /// Whether edge `idx` is currently accessible.
    pub open spec fn bit(self, idx: u16) -> bool {
        bit_set(self.words@, idx)
    }

    /// An all-clear cache: no edge accessible yet.
    pub fn new() -> (r: AccessCache)
        ensures
            r.wf(),
            forall|e: u16| !r.bit(e),
    {
        let r = AccessCache { words: filled_u64(ACCESS_BITFIELD_LEN, 0) };
        proof {
            assert forall|e: u16| !r.bit(e) by {
                lemma_index_bounds(e);
                lemma_zero_word((e & 63) as u64);
            }
        }
        r
    }

    /// Read the accessibility bit of edge `idx`.
    pub fn check_access(&self, idx: u16) -> (r: bool)
        requires
            self.wf(),
        ensures
            r == self.bit(idx),
    {
        bits_check(&self.words, idx)
    }

    /// Record edge `idx` as accessible.
    pub(crate) fn set_access(&mut self, idx: u16)
        requires
            old(self).wf(),
        ensures
            final(self).wf(),
            forall|j: u16| final(self).bit(j) == (old(self).bit(j) || j == idx),
    {
        bits_mark(&mut self.words, idx)
    }
}

/// Fixed-length bit-packed cache of per-vertex visited marks, owned by one
/// traversal engine and only ever extended.
pub struct VisitedCache {
    pub words: Vec<u64>,
}

impl VisitedCache {
    /// The backing array has its fixed length.
    pub open spec fn wf(self) -> bool {
        self.words@.len() == VISITED_BITFIELD_LEN
    }

    /// Whether vertex `idx` has been discovered.
    pub open spec fn bit(self, idx: u16) -> bool {
        bit_set(self.words@, idx)
    }

    /// An all-clear cache: nothing visited yet.
    pub fn new() -> (r: VisitedCache)
        ensures
            r.wf(),
            forall|v: u16| !r.bit(v),
    {
        let r = VisitedCache { words: filled_u64(VISITED_BITFIELD_LEN, 0) };
        proof {
            assert forall|v: u16| !r.bit(v) by {
                lemma_index_bounds(v);
                lemma_zero_word((v & 63) as u64);
            }
        }
        r
    }

    /// Read the visited bit of vertex `idx`.
    pub fn check_visited(&self, idx: u16) -> (r: bool)
        requires
            self.wf(),
        ensures
            r == self.bit(idx),
    {
        bits_check(&self.words, idx)
    }

    /// Mark vertex `idx` visited.
    pub fn mark_visited(&mut self, idx: u16)
        requires
            old(self).wf(),
        ensures
            final(self).wf(),
            forall|j: u16| final(self).bit(j) == (old(self).bit(j) || j == idx),
    {
        bits_mark(&mut self.words, idx)
    }

    /// Mark vertex `idx` visited and report whether it already was.
    pub fn test_set_visited(&mut self, idx: u16) -> (r: bool)
        requires
            old(self).wf(),
        ensures
            final(self).wf(),
            r == old(self).bit(idx),
            forall|j: u16| final(self).bit(j) == (old(self).bit(j) || j == idx),
    {
        let previously_visited = bits_check(&self.words, idx);
        bits_mark(&mut self.words, idx);
        previously_visited
    }
}

// ---------------------------------------------------------------------------
// The static graph: a structure-of-arrays representation with padded,
// fixed-size backing arrays validated once at construction.
// ---------------------------------------------------------------------------

/// Auxiliary per-vertex metadata, carried for downstream consumers and not
/// read by the traversal engines.
pub struct NodeData {
    pub node_type: NodeType,
    pub data_index: u16,
}

impl NodeData {
    /// A plain place with no secondary data.
    pub fn default() -> (r: NodeData)
        ensures
            r == (NodeData { node_type: NodeType::Place, data_index: 0u16 }),
    {
        NodeData { node_type: NodeType::Place, data_index: 0u16 }
    }
}

/// The kind of an entity a vertex stands for.
pub enum NodeType {
    Place,
    Item,
    Door,
}

/// The invariants a set of backing arrays must satisfy: padded lengths,
/// non-decreasing vertex offsets, an empty slice at the sentinel vertex 0,
/// and no edge targeting the sentinel.
pub open spec fn graph_arrays_ok(
    np: Seq<u16>,
    nd: Seq<NodeData>,
    ep: Seq<u16>,
    ed: Seq<u16>,
) -> bool {
    &&& np.len() == NUM_VERTICES_PADDED
    &&& nd.len() == NUM_VERTICES_PADDED
    &&& ep.len() == NUM_EDGES_PADDED
    &&& ed.len() == NUM_EDGES_PADDED
    &&& forall|i: int| 0 <= i < NUM_VERTICES_PADDED - 1 ==> #[trigger] np[i] <= np[i + 1]
    &&& np[0] == np[1]
    &&& forall|e: int| 0 <= e < NUM_EDGES_PADDED ==> #[trigger] ep[e] != 0
}

/// The main graph representation. `node_pointers[v]` is the index into
/// `edge_pointers` of vertex `v`'s first outgoing edge; together with
/// `node_pointers[v + 1]` it delimits `v`'s neighbor slice. `edge_pointers`
/// holds the destination vertex of each edge, laid out contiguously by source
/// vertex, and `edge_data` the index of each edge's requirement expression
/// root. Vertex index 0 is a sentinel whose neighbor slice is always empty.
pub struct StaticGraph {
    pub node_pointers: Vec<u16>,
    pub node_data: Vec<NodeData>,
    pub edge_pointers: Vec<u16>,
    pub edge_data: Vec<u16>,
}

/// The vertex a neighbor query names: the sentinel 0 when absent.
pub open spec fn neighbor_source(n: Option<u16>) -> u16 {
    match n {
        Some(v) => v,
        None => 0u16,
    }
}

impl StaticGraph {
    /// The backing arrays satisfy the construction-time invariants.
    pub open spec fn wf(self) -> bool {
        graph_arrays_ok(self.node_pointers@, self.node_data@, self.edge_pointers@, self.edge_data@)
    }

    /// Index into `edge_pointers` of vertex `v`'s first outgoing edge.
    pub open spec fn edge_start(self, v: u16) -> int {
        self.node_pointers@[v as int] as int
    }

    /// Index into `edge_pointers` one past vertex `v`'s last outgoing edge.
    /// The highest vertex index has no successor offset and owns no edges.
    pub open spec fn edge_end(self, v: u16) -> int {
        if v == 0xFFFF {
            self.edge_start(v)
        } else {
            self.node_pointers@[v as int + 1] as int
        }
    }

    /// Validate externally supplied backing arrays and assemble a graph.
    /// Returns the graph exactly when the arrays satisfy the invariants of
    /// `graph_arrays_ok`; a malformed input is a configuration error reported
    /// here, once, never at traversal time.
    pub fn try_new(
        node_pointers: Vec<u16>,
        node_data: Vec<NodeData>,
        edge_pointers: Vec<u16>,
        edge_data: Vec<u16>,
    ) -> (r: Option<StaticGraph>)
        ensures
            match r {
                Some(g) => {
                    &&& graph_arrays_ok(node_pointers@, node_data@, edge_pointers@, edge_data@)
                    &&& g.wf()
                    &&& g.node_pointers@ == node_pointers@
                    &&& g.node_data@ == node_data@
                    &&& g.edge_pointers@ == edge_pointers@
                    &&& g.edge_data@ == edge_data@
                },
                None => !graph_arrays_ok(node_pointers@, node_data@, edge_pointers@, edge_data@),
            },
    {
        if node_pointers.len() != NUM_VERTICES_PADDED || node_data.len() != NUM_VERTICES_PADDED
            || edge_pointers.len() != NUM_EDGES_PADDED || edge_data.len() != NUM_EDGES_PADDED {
            return None;
        }
        if node_pointers[0] != node_pointers[1] {
            return None;
        }
        let mut i: usize = 0;
        while i < NUM_VERTICES_PADDED - 1
            invariant
                node_pointers@.len() == NUM_VERTICES_PADDED,
                i <= NUM_VERTICES_PADDED - 1,
                forall|k: int| 0 <= k < i ==> #[trigger] node_pointers@[k] <= node_pointers@[k + 1],
            decreases NUM_VERTICES_PADDED - i,
        {
            if node_pointers[i] > node_pointers[i + 1] {
                return None;
            }
            i = i + 1;
        }
        let mut e: usize = 0;
        while e < NUM_EDGES_PADDED
            invariant
                edge_pointers@.len() == NUM_EDGES_PADDED,
                e <= NUM_EDGES_PADDED,
                forall|k: int| 0 <= k < e ==> #[trigger] edge_pointers@[k] != 0,
            decreases NUM_EDGES_PADDED - e,
        {
            if edge_pointers[e] == 0 {
                return None;
            }
            e = e + 1;
        }
        Some(StaticGraph { node_pointers, node_data, edge_pointers, edge_data })
    }

    /// An all-sentinel graph: every offset is 1, so every vertex's neighbor
    /// slice is empty. Usable as a blank slate for tests.
    pub fn new_zeroed() -> (r: StaticGraph)
        ensures
            r.wf(),
            forall|v: u16| #[trigger] r.edge_start(v) == r.edge_end(v),
            forall|i: int| 0 <= i < NUM_VERTICES_PADDED ==> r.node_pointers@[i] == 1,
            forall|e: int| 0 <= e < NUM_EDGES_PADDED ==> r.edge_pointers@[e] == 1,
            forall|e: int| 0 <= e < NUM_EDGES_PADDED ==> r.edge_data@[e] == 0,
    {
        let g = StaticGraph {
            node_pointers: filled_u16(NUM_VERTICES_PADDED, 1),
            node_data: filled_node_data(NUM_VERTICES_PADDED),
            edge_pointers: filled_u16(NUM_EDGES_PADDED, 1),
            edge_data: filled_u16(NUM_EDGES_PADDED, 0),
        };
        g
    }

    /// Slice of a vertex's outgoing neighbors, with the index of its first
    /// edge. Two offset lookups, no scanning; the sentinel (absent) vertex
    /// yields the empty slice.
    pub fn get_neighbors_out<'graph>(&'graph self, n: Option<u16>) -> (r: (&'graph [u16], u16))
        requires
            self.wf(),
        ensures
            r.1 as int == self.edge_start(neighbor_source(n)),
            r.0@ == self.edge_pointers@.subrange(
                self.edge_start(neighbor_source(n)),
                self.edge_end(neighbor_source(n)),
            ),
    {
        let node_index: u16 = match n {
            Some(v) => v,
            None => 0u16,
        };
        let start: u16 = self.node_pointers[node_index as usize];
        let end: u16 = if node_index == 0xFFFF {
            start
        } else {
            self.node_pointers[node_index as usize + 1]
        };
        proof {
            if node_index != 0xFFFF {
                assert(self.node_pointers@[node_index as int]
                    <= self.node_pointers@[node_index as int + 1]);
            }
        }
        (vstd::slice::slice_subrange(self.edge_pointers.as_slice(), start as usize, end as usize),
            start,
        )
    }

    /// The sentinel vertex index: a vertex with no outgoing neighbors.
    pub fn terminal(&self) -> (r: u16)
        ensures
            r == 0,
    {
        0
    }

    /// A depth-first engine over this graph: rooted at `root`, its access
    /// bitset compiled once from `reqs` and `collection_state`, the root
    /// already discovered and pending. The sentinel 0 names no vertex, so it
    /// is refused as a root.
    pub fn dfs_iter_with<'graph>(
        &'graph self,
        root: u16,
        reqs: ReqArray,
        collection_state: CollectionState,
    ) -> (r: Option<DfsIter<'graph>>)
        requires
            self.wf(),
            reqs.wf(),
        ensures
            match r {
                Some(it) => {
                    &&& root != 0
                    &&& it.wf()
                    &&& it.graph == self
                    &&& it.root == root
                    &&& it.collection_state == collection_state
                    &&& it.reqs == reqs
                    &&& it.produced@ == Seq::<u16>::empty()
                    &&& (forall|w: u16| #[trigger] it.visited.bit(w) <==> w == root)
                    &&& it.search_stack.contents() == seq![root]
                },
                None => root == 0,
            },
    {
        if root == 0 {
            return None;
        }
        let mut it = DfsIter {
            graph: self,
            root,
            search_stack: DfsStack::new(),
            collection_state,
            visited: VisitedCache::new(),
            edge_access: AccessCache::new(),
            reqs,
            produced: Ghost(Seq::empty()),
        };
        it.evaluate_logical_access();
        it.search_stack.push(root);
        it.visited.mark_visited(root);
        proof {
            lemma_reaches_root(*it.graph, it.reqs, it.collection_state, it.root);
            assert(it.search_stack.contents() =~= seq![root]);
            assert forall|w: u16| #[trigger]
                it.search_stack.contents().contains(w) == (w == root) by {
                if it.search_stack.contents().contains(w) {
                    let k = choose|k: int|
                        0 <= k < it.search_stack.contents().len() && it.search_stack.contents()[k]
                            == w;
                    assert(k == 0);
                }
                if w == root {
                    assert(it.search_stack.contents()[0] == w);
                }
            }
            assert forall|w: u16| #[trigger] it.visited.bit(w) implies it.reachable(w) by {
                assert(w == root);
            }
        }
        Some(it)
    }

    /// A breadth-first engine over this graph: rooted at `root`, its access
    /// bitset compiled once from `reqs` and `collection_state`, the root
    /// already discovered and pending. The sentinel 0 names no vertex, so it
    /// is refused as a root.
    pub fn bfs_iter_with<'graph>(
        &'graph self,
        root: u16,
        reqs: ReqArray,
        collection_state: CollectionState,
    ) -> (r: Option<BfsIter<'graph>>)
        requires
            self.wf(),
            reqs.wf(),
        ensures
            match r {
                Some(it) => {
                    &&& root != 0
                    &&& it.wf()
                    &&& it.graph == self
                    &&& it.root == root
                    &&& it.collection_state == collection_state
                    &&& it.reqs == reqs
                    &&& it.produced@ == Seq::<u16>::empty()
                    &&& (forall|w: u16| #[trigger] it.visited.bit(w) <==> w == root)
                    &&& it.search_queue.contents() == seq![root]
                },
                None => root == 0,
            },
    {
        if root == 0 {
            return None;
        }
        let mut it = BfsIter {
            graph: self,
            root,
            search_queue: BfsQueue::new(),
            collection_state,
            visited: VisitedCache::new(),
            edge_access: AccessCache::new(),
            reqs,
            produced: Ghost(Seq::empty()),
        };
        it.evaluate_logical_access();
        it.search_queue.push_back(root);
        it.visited.mark_visited(root);
        proof {
            lemma_reaches_root(*it.graph, it.reqs, it.collection_state, it.root);
            assert(it.search_queue.contents() =~= seq![root]);
            assert forall|w: u16| #[trigger]
                it.search_queue.contents().contains(w) == (w == root) by {
                if it.search_queue.contents().contains(w) {
                    let k = choose|k: int|
                        0 <= k < it.search_queue.contents().len() && it.search_queue.contents()[k]
                            == w;
                    assert(k == 0);
                }
                if w == root {
                    assert(it.search_queue.contents()[0] == w);
                }
            }
            assert forall|w: u16| #[trigger] it.visited.bit(w) implies it.reachable(w) by {
                assert(w == root);
            }
        }
        Some(it)
    }

    /// A breadth-first engine rooted at vertex 1, with the canonical
    /// requirement container and the demonstration collection state.
    pub fn bfs_iter<'graph>(&'graph self) -> (it: BfsIter<'graph>)
        requires
            self.wf(),
        ensures
            it.wf(),
            it.graph == self,
            it.root == 1u16,
            it.collection_state == (CollectionState {
                boots: true,
                gloves: false,
                hammer: true,
                flute: true,
            }),
            it.reqs.nodes@ == canonical_req_nodes(),
            it.reqs.rank@ == canonical_req_ranks(),
            it.produced@ == Seq::<u16>::empty(),
            forall|w: u16| #[trigger] it.visited.bit(w) <==> w == 1u16,
            it.search_queue.contents() == seq![1u16],
    {
        let r = self.bfs_iter_with(1, req_container(), CollectionState::default());
        match r {
            Some(it) => it,
            None => vstd::pervasive::unreached(),
        }
    }

    /// A depth-first engine rooted at vertex 1, with the canonical
    /// requirement container and the demonstration collection state.
    pub fn dfs_iter<'graph>(&'graph self) -> (it: DfsIter<'graph>)
        requires
            self.wf(),
        ensures
            it.wf(),
            it.graph == self,
            it.root == 1u16,
            it.collection_state == (CollectionState {
                boots: true,
                gloves: false,
                hammer: true,
                flute: true,
            }),
            it.reqs.nodes@ == canonical_req_nodes(),
            it.reqs.rank@ == canonical_req_ranks(),
            it.produced@ == Seq::<u16>::empty(),
            forall|w: u16| #[trigger] it.visited.bit(w) <==> w == 1u16,
            it.search_stack.contents() == seq![1u16],
    {
        let r = self.dfs_iter_with(1, req_container(), CollectionState::default());
        match r {
            Some(it) => it,
            None => vstd::pervasive::unreached(),
        }
    }
}

/// A vector of `len` default node metadata entries.
pub(crate) fn filled_node_data(len: usize) -> (r: Vec<NodeData>)
    ensures
        r@.len() == len,
{
    let mut r: Vec<NodeData> = Vec::new();
    while r.len() < len
        invariant
            r@.len() <= len,
        decreases len - r@.len(),
    {
        r.push(NodeData::default());
    }
    r
}

// ---------------------------------------------------------------------------
// The demonstration world graph: a chain over the real vertices, so that
// every vertex is connected, with requirement roots cycling through the
// canonical container.
// ---------------------------------------------------------------------------

/// Offset of vertex `i` in the demonstration graph: vertex `v` of the chain
/// owns the single edge slot `v`, the last real vertex and all padding own
/// none.
pub open spec fn demo_offset(i: int) -> u16 {
    if i == 0 {
        1u16
    } else if i <= NUM_VERTICES {
        i as u16
    } else {
        NUM_VERTICES as u16
    }
}

/// Target of edge slot `e` in the demonstration graph: the chain successor.
pub open spec fn demo_target(e: int) -> u16 {
    if 1 <= e < NUM_VERTICES {
        (e + 1) as u16
    } else {
        1u16
    }
}

/// Requirement root of edge slot `e` in the demonstration graph, cycling
/// through Open, "Boots or Hammer", Hammer and Flute.
pub open spec fn demo_requirement(e: int) -> u16 {
    if 1 <= e < NUM_VERTICES {
        if e % 4 == 0 {
            0u16
        } else if e % 4 == 1 {
            2u16
        } else if e % 4 == 2 {
            3u16
        } else {
            6u16
        }
    } else {
        0u16
    }
}

/// Build the demonstration vertex offsets.
fn build_demo_offsets() -> (r: Vec<u16>)
    ensures
        r@.len() == NUM_VERTICES_PADDED,
        forall|i: int| 0 <= i < NUM_VERTICES_PADDED ==> r@[i] == demo_offset(i),
{
    let mut r: Vec<u16> = Vec::new();
    while r.len() < NUM_VERTICES_PADDED
        invariant
            r@.len() <= NUM_VERTICES_PADDED,
            forall|i: int| 0 <= i < r@.len() ==> r@[i] == demo_offset(i),
        decreases NUM_VERTICES_PADDED - r@.len(),
    {
        let i = r.len();
        let val: u16 = if i == 0 {
            1
        } else if i <= NUM_VERTICES {
            i as u16
        } else {
            NUM_VERTICES as u16
        };
        r.push(val);
    }
    r
}

/// Build the demonstration edge targets.
fn build_demo_targets() -> (r: Vec<u16>)
    ensures
        r@.len() == NUM_EDGES_PADDED,
        forall|e: int| 0 <= e < NUM_EDGES_PADDED ==> r@[e] == demo_target(e),
{
    let mut r: Vec<u16> = Vec::new();
    while r.len() < NUM_EDGES_PADDED
        invariant
            r@.len() <= NUM_EDGES_PADDED,
            forall|e: int| 0 <= e < r@.len() ==> r@[e] == demo_target(e),
        decreases NUM_EDGES_PADDED - r@.len(),
    {
        let e = r.len();
        let val: u16 = if 1 <= e && e < NUM_VERTICES {
            (e + 1) as u16
        } else {
            1
        };
        r.push(val);
    }
    r
}

/// Build the demonstration edge requirement roots.
fn build_demo_requirements() -> (r: Vec<u16>)
    ensures
        r@.len() == NUM_EDGES_PADDED,
        forall|e: int| 0 <= e < NUM_EDGES_PADDED ==> r@[e] == demo_requirement(e),
{
    let mut r: Vec<u16> = Vec::new();
    while r.len() < NUM_EDGES_PADDED
        invariant
            r@.len() <= NUM_EDGES_PADDED,
            forall|e: int| 0 <= e < r@.len() ==> r@[e] == demo_requirement(e),
        decreases NUM_EDGES_PADDED - r@.len(),
    {
        let e = r.len();
        let val: u16 = if 1 <= e && e < NUM_VERTICES {
            let m = e % 4;
            if m == 0 {
                0
            } else if m == 1 {
                2
            } else if m == 2 {
                3
            } else {
                6
            }
        } else {
            0
        };
        r.push(val);
    }
    r
}

/// The demonstration graph invariants follow from the pointwise description.
proof fn lemma_demo_arrays_ok(np: Seq<u16>, nd: Seq<NodeData>, ep: Seq<u16>, ed: Seq<u16>)
    requires
        np.len() == NUM_VERTICES_PADDED,
        nd.len() == NUM_VERTICES_PADDED,
        ep.len() == NUM_EDGES_PADDED,
        ed.len() == NUM_EDGES_PADDED,
        forall|i: int| 0 <= i < NUM_VERTICES_PADDED ==> np[i] == demo_offset(i),
        forall|e: int| 0 <= e < NUM_EDGES_PADDED ==> #[trigger] ep[e] != 0,
    ensures
        graph_arrays_ok(np, nd, ep, ed),
{
    assert forall|i: int| 0 <= i < NUM_VERTICES_PADDED - 1 implies #[trigger] np[i] <= np[i + 1] by {
        assert(np[i] == demo_offset(i));
        assert(np[i + 1] == demo_offset(i + 1));
    }
    assert(np[0] == demo_offset(0));
    assert(np[1] == demo_offset(1));
}

/// A fully-connected demonstration graph: a chain over the real vertices,
/// its edges gated by requirement roots that cycle through the canonical
/// container.
pub fn new_static_graph() -> (r: StaticGraph)
    ensures
        r.wf(),
        forall|i: int| 0 <= i < NUM_VERTICES_PADDED ==> r.node_pointers@[i] == demo_offset(i),
        forall|e: int| 0 <= e < NUM_EDGES_PADDED ==> r.edge_pointers@[e] == demo_target(e),
        forall|e: int| 0 <= e < NUM_EDGES_PADDED ==> r.edge_data@[e] == demo_requirement(e),
{
    let g = StaticGraph {
        node_pointers: build_demo_offsets(),
        node_data: filled_node_data(NUM_VERTICES_PADDED),
        edge_pointers: build_demo_targets(),
        edge_data: build_demo_requirements(),
    };
    proof {
        assert forall|e: int| 0 <= e < NUM_EDGES_PADDED implies #[trigger] g.edge_pointers@[e]
            != 0 by {
            assert(g.edge_pointers@[e] == demo_target(e));
        }
        lemma_demo_arrays_ok(g.node_pointers@, g.node_data@, g.edge_pointers@, g.edge_data@);
    }
    g
}

/// The demonstration graph with no logical constraints: every edge carries
/// requirement root 0, the `Open` leaf.
pub fn new_static_graph_open() -> (r: StaticGraph)
    ensures
        r.wf(),
        forall|i: int| 0 <= i < NUM_VERTICES_PADDED ==> r.node_pointers@[i] == demo_offset(i),
        forall|e: int| 0 <= e < NUM_EDGES_PADDED ==> r.edge_pointers@[e] == demo_target(e),
        forall|e: int| 0 <= e < NUM_EDGES_PADDED ==> r.edge_data@[e] == 0,
{
    let g = StaticGraph {
        node_pointers: build_demo_offsets(),
        node_data: filled_node_data(NUM_VERTICES_PADDED),
        edge_pointers: build_demo_targets(),
        edge_data: filled_u16(NUM_EDGES_PADDED, 0),
    };
    proof {
        assert forall|e: int| 0 <= e < NUM_EDGES_PADDED implies #[trigger] g.edge_pointers@[e]
            != 0 by {
            assert(g.edge_pointers@[e] == demo_target(e));
        }
        lemma_demo_arrays_ok(g.node_pointers@, g.node_data@, g.edge_pointers@, g.edge_data@);
    }
    g
}

} // verus!
