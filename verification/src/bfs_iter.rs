use vstd::prelude::*;
use crate::constants::{NUM_EDGES_PADDED, SEARCH_QUEUE_SIZE};
use crate::dfs_iter::{lemma_dfs_drain_complete, DfsIter};
use crate::graph::{filled_u16, neighbor_source, AccessCache, StaticGraph, VisitedCache};
use crate::logic::{eval_from, eval_req, CollectionState, ReqArray, Requirement};
use crate::reach::{
    all_open, edge_ok, lemma_all_open_same_reaches, lemma_contains_drop_first, lemma_contains_push,
    lemma_distinct_vertex_seq_len, lemma_reachable_in_closed, lemma_reaches_root,
    lemma_reaches_step, lemma_step_upto_end, lemma_step_upto_extend, reaches, step, step_upto,
};

verus! {

/// A number below twice the queue capacity, reduced modulo the capacity:
/// either itself or itself less one capacity.
proof fn lemma_wrap_index(x: int)
    requires
        0 <= x < 2 * 65536,
    ensures
        x % 65536 == (if x < 65536 {
            x
        } else {
            x - 65536
        }),
{
    if x < 65536 {
        vstd::arithmetic::div_mod::lemma_small_mod(x as nat, 65536nat);
    } else {
        vstd::arithmetic::div_mod::lemma_mod_sub_multiples_vanish(x, 65536);
        vstd::arithmetic::div_mod::lemma_small_mod((x - 65536) as nat, 65536nat);
    }
}

/// A fixed-capacity, array-backed circular FIFO frontier: a power-of-two
/// buffer, a head cursor masked on advance, and a live-entry count.
pub struct BfsQueue {
    pub buf: Vec<u16>,
    pub ptr: usize,
    pub len: usize,
}

impl BfsQueue {
    /// The buffer has its fixed capacity, the head cursor is in range, and
    /// the live entries fit.
    pub open spec fn wf(self) -> bool {
        &&& self.buf@.len() == SEARCH_QUEUE_SIZE
        &&& self.ptr < SEARCH_QUEUE_SIZE
        &&& self.len < SEARCH_QUEUE_SIZE
    }

    /// The pending entries, front of the queue first.
    pub open spec fn contents(self) -> Seq<u16> {
        Seq::new(self.len as nat, |k: int| self.buf@[(self.ptr + k) % 65536])
    }

    /// An empty queue.
    pub fn new() -> (r: BfsQueue)
        ensures
            r.wf(),
            r.contents() == Seq::<u16>::empty(),
    {
        let r = BfsQueue { buf: filled_u16(SEARCH_QUEUE_SIZE, 0), ptr: 0, len: 0 };
        proof {
            assert(r.contents() =~= Seq::<u16>::empty());
        }
        r
    }

    /// Append one entry in O(1). As with the stack, the capacity check is a
    /// `requires` that the traversal engines discharge: a vertex enters the
    /// frontier at most once.
    pub fn push_back(&mut self, n: u16)
        requires
            old(self).wf(),
            old(self).contents().len() < SEARCH_QUEUE_SIZE - 1,
        ensures
            final(self).wf(),
            final(self).contents() == old(self).contents().push(n),
    {
        let sum: usize = self.ptr + self.len;
        let offset: usize = sum & (SEARCH_QUEUE_SIZE - 1);
        proof {
            let q = sum;
            assert(q & 65535 == q % 65536) by (bit_vector);
            lemma_wrap_index(q as int);
        }
        self.buf.set(offset, n);
        self.len = self.len + 1;
        proof {
            let p = old(self).ptr as int;
            let l = old(self).len as int;
            assert forall|k: int| 0 <= k < self.contents().len() implies self.contents()[k] == old(
                self,
            ).contents().push(n)[k] by {
                lemma_wrap_index(p + k);
                lemma_wrap_index(p + l);
            }
            assert(self.contents() =~= old(self).contents().push(n));
        }
    }

    /// Remove and return the front entry in O(1), or report emptiness.
    pub fn pop_front(&mut self) -> (r: Option<u16>)
        requires
            old(self).wf(),
        ensures
            final(self).wf(),
            match r {
                None => old(self).contents().len() == 0 && *final(self) == *old(self),
                Some(v) => {
                    &&& old(self).contents().len() > 0
                    &&& v == old(self).contents()[0]
                    &&& final(self).contents() == old(self).contents().drop_first()
                },
            },
    {
        if self.len == 0 {
            return None;
        }
        let v = self.buf[self.ptr];
        let advanced: usize = self.ptr + 1;
        proof {
            let q = advanced;
            assert(q & 65535 == q % 65536) by (bit_vector);
            lemma_wrap_index(q as int);
        }
        self.ptr = advanced & (SEARCH_QUEUE_SIZE - 1);
        self.len = self.len - 1;
        proof {
            let p = old(self).ptr as int;
            lemma_wrap_index(p);
            lemma_wrap_index(p + 1);
            assert forall|k: int| 0 <= k < self.contents().len() implies self.contents()[k] == old(
                self,
            ).contents().drop_first()[k] by {
                lemma_wrap_index(p + 1 + k);
                if p + 1 == 65536 {
                    vstd::arithmetic::div_mod::lemma_small_mod(k as nat, 65536nat);
                    vstd::arithmetic::div_mod::lemma_mod_add_multiples_vanish(k, 65536);
                }
            }
            assert(self.contents() =~= old(self).contents().drop_first());
        }
        Some(v)
    }

    /// Forget all pending entries in O(1), without deallocating.
    pub fn clear(&mut self)
        requires
            old(self).wf(),
        ensures
            final(self).wf(),
            final(self).contents() == Seq::<u16>::empty(),
    {
        self.ptr = 0;
        self.len = 0;
        proof {
            assert(self.contents() =~= Seq::<u16>::empty());
        }
    }
}

/// The breadth-first traversal engine: the same contract and resumability
/// guarantee as the depth-first engine, but backed by a FIFO frontier, so
/// vertices come out in non-decreasing hop-distance order from the root.
pub struct BfsIter<'graph> {
    pub graph: &'graph StaticGraph,
    pub root: u16,
    pub search_queue: BfsQueue,
    pub collection_state: CollectionState,
    pub visited: VisitedCache,
    pub edge_access: AccessCache,
    pub reqs: ReqArray,
    pub produced: Ghost<Seq<u16>>,
}

impl<'graph> BfsIter<'graph> {
    /// Shapes of the parts: a valid graph and table, fixed-size bitsets, an
    /// in-range frontier and a nonzero root.
    pub open spec fn cfg_wf(self) -> bool {
        &&& self.graph.wf()
        &&& self.reqs.wf()
        &&& self.root != 0
        &&& self.visited.wf()
        &&& self.edge_access.wf()
        &&& self.search_queue.wf()
    }

    /// The access bitset holds exactly the compiled value of every edge's
    /// requirement expression under the engine's collection state.
    pub open spec fn access_ok(self) -> bool {
        forall|e: u16| #[trigger]
            self.edge_access.bit(e) == edge_ok(
                *self.graph,
                self.reqs,
                self.collection_state,
                e as int,
            )
    }

    /// Whether vertex `v` is reachable from the engine's root under its
    /// access configuration.
    pub open spec fn reachable(self, v: u16) -> bool {
        reaches(*self.graph, self.reqs, self.collection_state, self.root, v)
    }

    /// The search bookkeeping invariant, exactly as for the depth-first
    /// engine: visited is produced plus frontier, visited vertices are
    /// reachable, and produced vertices are fully expanded.
    pub open spec fn search_inv(self) -> bool {
        &&& self.visited.bit(self.root)
        &&& self.produced@.no_duplicates()
        &&& self.search_queue.contents().no_duplicates()
        &&& forall|k: int|
            0 <= k < self.search_queue.contents().len() ==> #[trigger] self.search_queue.contents()[k]
                != 0
        &&& forall|k: int| 0 <= k < self.produced@.len() ==> #[trigger] self.produced@[k] != 0
        &&& forall|v: u16| #[trigger]
            self.produced@.contains(v) ==> !self.search_queue.contents().contains(v)
        &&& forall|v: u16| #[trigger]
            self.visited.bit(v) <==> (self.produced@.contains(v)
                || self.search_queue.contents().contains(v))
        &&& forall|v: u16| #[trigger] self.visited.bit(v) ==> self.reachable(v)
        &&& forall|u: u16, v: u16|
            self.produced@.contains(u) && #[trigger] step(
                *self.graph,
                self.reqs,
                self.collection_state,
                u,
                v,
            ) ==> self.visited.bit(v)
    }

    /// Everything the engine's contracts rely on.
    pub open spec fn wf(self) -> bool {
        &&& self.cfg_wf()
        &&& self.access_ok()
        &&& self.search_inv()
    }

    /// The frontier is empty: the traversal can produce nothing more.
    pub open spec fn exhausted(self) -> bool {
        self.search_queue.contents().len() == 0
    }

    /// The two engines share the fixed configuration that reachability is a
    /// function of.
    pub open spec fn same_config(self, other: BfsIter) -> bool {
        &&& other.graph == self.graph
        &&& other.root == self.root
        &&& other.collection_state == self.collection_state
        &&& other.reqs == self.reqs
    }

    /// Evaluate the requirement expression rooted at `req_index` against the
    /// engine's collection state.
    pub fn eval_logic_tree(&self, req_index: u16) -> (r: bool)
        requires
            self.reqs.wf(),
        ensures
            r == eval_from(self.reqs, self.collection_state, req_index as int),
    {
        self.reqs.eval(&self.collection_state, req_index)
    }

    /// Evaluate one leaf requirement against the engine's collection state.
    pub fn eval_requirement(&self, req: Requirement) -> (r: bool)
        ensures
            r == eval_req(req, self.collection_state),
    {
        self.collection_state.satisfies(req)
    }

    /// Recompile the access bitset from the requirement table and the
    /// collection state, one bit per edge, in a single full pass.
    #[verifier::loop_isolation(false)]
    pub fn evaluate_logical_access(&mut self)
        requires
            old(self).graph.wf(),
            old(self).reqs.wf(),
        ensures
            final(self).edge_access.wf(),
            final(self).access_ok(),
            final(self).graph == old(self).graph,
            final(self).root == old(self).root,
            final(self).search_queue == old(self).search_queue,
            final(self).collection_state == old(self).collection_state,
            final(self).visited == old(self).visited,
            final(self).reqs == old(self).reqs,
            final(self).produced == old(self).produced,
    {
        let mut cache = AccessCache::new();
        let mut e: usize = 0;
        while e < NUM_EDGES_PADDED
            invariant
                e <= NUM_EDGES_PADDED,
                cache.wf(),
                forall|j: u16|
                    (j as int) < e ==> #[trigger] cache.bit(j) == edge_ok(
                        *self.graph,
                        self.reqs,
                        self.collection_state,
                        j as int,
                    ),
                forall|j: u16| (j as int) >= e ==> !(#[trigger] cache.bit(j)),
            decreases NUM_EDGES_PADDED - e,
        {
            let req_idx: u16 = self.graph.edge_data[e];
            if self.reqs.eval(&self.collection_state, req_idx) {
                cache.set_access(e as u16);
            }
            e = e + 1;
        }
        self.edge_access = cache;
    }

    /// Visit a vertex's outgoing neighbors: every one whose connecting edge
    /// is accessible is marked visited, and those that were not yet visited
    /// join the back of the queue. The sentinel (absent) vertex has no
    /// neighbors, so it leaves the engine unchanged.
    #[verifier::loop_isolation(false)]
    #[verifier::rlimit(30)]
    pub fn visit_neighbors_out(&mut self, node: Option<u16>)
        requires
            old(self).cfg_wf(),
            old(self).access_ok(),
            old(self).search_queue.contents().no_duplicates(),
            forall|k: int|
                0 <= k < old(self).search_queue.contents().len() ==> #[trigger] old(self).search_queue.contents()[k]
                    != 0,
            forall|w: u16|
                old(self).search_queue.contents().contains(w) ==> old(self).visited.bit(w),
        ensures
            final(self).cfg_wf(),
            final(self).access_ok(),
            final(self).graph == old(self).graph,
            final(self).root == old(self).root,
            final(self).collection_state == old(self).collection_state,
            final(self).reqs == old(self).reqs,
            final(self).edge_access == old(self).edge_access,
            final(self).produced == old(self).produced,
            final(self).search_queue.contents().no_duplicates(),
            old(self).search_queue.contents().is_prefix_of(final(self).search_queue.contents()),
            forall|k: int|
                0 <= k < final(self).search_queue.contents().len() ==> #[trigger] final(self).search_queue.contents()[k]
                    != 0,
            forall|w: u16| #[trigger]
                final(self).visited.bit(w) == (old(self).visited.bit(w) || step(
                    *old(self).graph,
                    old(self).reqs,
                    old(self).collection_state,
                    neighbor_source(node),
                    w,
                )),
            forall|w: u16| #[trigger]
                final(self).search_queue.contents().contains(w) == (old(self).search_queue.contents().contains(
                    w,
                ) || (step(
                    *old(self).graph,
                    old(self).reqs,
                    old(self).collection_state,
                    neighbor_source(node),
                    w,
                ) && !old(self).visited.bit(w))),
            forall|w: u16|
                final(self).search_queue.contents().contains(w) ==> final(self).visited.bit(w),
    {
        let g: &'graph StaticGraph = self.graph;
        let (targets, edge_offset) = g.get_neighbors_out(node);
        let ghost src: u16 = neighbor_source(node);
        let ghost start: int = g.edge_start(src);
        let ghost endv: int = g.edge_end(src);
        let mut i: usize = 0;
        while i < targets.len()
            invariant
                i <= targets@.len(),
                self.graph == old(self).graph,
                self.root == old(self).root,
                self.collection_state == old(self).collection_state,
                self.reqs == old(self).reqs,
                self.edge_access == old(self).edge_access,
                self.produced == old(self).produced,
                self.visited.wf(),
                self.search_queue.wf(),
                self.search_queue.contents().no_duplicates(),
                old(self).search_queue.contents().is_prefix_of(self.search_queue.contents()),
                forall|k: int|
                    0 <= k < self.search_queue.contents().len() ==> #[trigger] self.search_queue.contents()[k]
                        != 0,
                forall|w: u16| #[trigger]
                    self.visited.bit(w) == (old(self).visited.bit(w) || step_upto(
                        *old(self).graph,
                        old(self).reqs,
                        old(self).collection_state,
                        src,
                        w,
                        start + i,
                    )),
                forall|w: u16| #[trigger]
                    self.search_queue.contents().contains(w) == (old(self).search_queue.contents().contains(
                        w,
                    ) || (step_upto(
                        *old(self).graph,
                        old(self).reqs,
                        old(self).collection_state,
                        src,
                        w,
                        start + i,
                    ) && !old(self).visited.bit(w))),
                forall|w: u16|
                    self.search_queue.contents().contains(w) ==> self.visited.bit(w),
            decreases targets@.len() - i,
        {
            let w: u16 = *vstd::slice::slice_index_get(targets, i);
            let edge_index: u16 = edge_offset + (i as u16);
            proof {
                assert(targets@[i as int] == g.edge_pointers@[start + i]);
                assert(g.edge_pointers@[start + i] != 0);
                assert(edge_index as int == start + i);
            }
            let accessible = self.edge_access.check_access(edge_index);
            let ghost pre = *self;
            if accessible {
                let previously_visited = self.visited.test_set_visited(w);
                if !previously_visited {
                    proof {
                        assert(!pre.search_queue.contents().contains(w));
                        assert(pre.search_queue.contents().push(w).no_duplicates());
                        assert forall|k: int|
                            0 <= k < pre.search_queue.contents().push(w).len() implies #[trigger] pre.search_queue.contents().push(
                            w,
                        )[k] != 0 by {
                            if k < pre.search_queue.contents().len() {
                                assert(pre.search_queue.contents()[k] != 0);
                            }
                        }
                        lemma_distinct_vertex_seq_len(pre.search_queue.contents().push(w));
                    }
                    self.search_queue.push_back(w);
                }
            }
            proof {
                assert forall|x: u16| #[trigger]
                    self.visited.bit(x) == (old(self).visited.bit(x) || step_upto(
                        *old(self).graph,
                        old(self).reqs,
                        old(self).collection_state,
                        src,
                        x,
                        start + i + 1,
                    )) by {
                    lemma_step_upto_extend(
                        *old(self).graph,
                        old(self).reqs,
                        old(self).collection_state,
                        src,
                        x,
                        start + i,
                    );
                }
                assert forall|x: u16| #[trigger]
                    self.search_queue.contents().contains(x) == (old(self).search_queue.contents().contains(
                        x,
                    ) || (step_upto(
                        *old(self).graph,
                        old(self).reqs,
                        old(self).collection_state,
                        src,
                        x,
                        start + i + 1,
                    ) && !old(self).visited.bit(x))) by {
                    lemma_step_upto_extend(
                        *old(self).graph,
                        old(self).reqs,
                        old(self).collection_state,
                        src,
                        x,
                        start + i,
                    );
                    lemma_contains_push(pre.search_queue.contents(), w, x);
                }
            }
            i = i + 1;
        }
        proof {
            assert(start + i == endv);
            assert forall|w: u16| #[trigger]
                self.visited.bit(w) == (old(self).visited.bit(w) || step(
                    *old(self).graph,
                    old(self).reqs,
                    old(self).collection_state,
                    src,
                    w,
                )) by {
                lemma_step_upto_end(
                    *old(self).graph,
                    old(self).reqs,
                    old(self).collection_state,
                    src,
                    w,
                );
            }
            assert forall|w: u16| #[trigger]
                self.search_queue.contents().contains(w) == (old(self).search_queue.contents().contains(
                    w,
                ) || (step(
                    *old(self).graph,
                    old(self).reqs,
                    old(self).collection_state,
                    src,
                    w,
                ) && !old(self).visited.bit(w))) by {
                lemma_step_upto_end(
                    *old(self).graph,
                    old(self).reqs,
                    old(self).collection_state,
                    src,
                    w,
                );
            }
        }
    }

    /// Produce the next vertex of the breadth-first traversal: take the
    /// front of the queue, discover its not-yet-visited accessible neighbors
    /// at the back, and hand the taken vertex out. Every reachable vertex is
    /// produced exactly once over the engine's lifetime; `None` means the
    /// traversal is exhausted and the engine is unchanged.
    pub fn next(&mut self) -> (r: Option<u16>)
        requires
            old(self).wf(),
        ensures
            final(self).wf(),
            old(self).same_config(*final(self)),
            final(self).edge_access == old(self).edge_access,
            forall|v: u16| old(self).visited.bit(v) ==> final(self).visited.bit(v),
            old(self).produced@.is_prefix_of(final(self).produced@),
            match r {
                None => {
                    &&& old(self).exhausted()
                    &&& *final(self) == *old(self)
                },
                Some(v) => {
                    &&& !old(self).exhausted()
                    &&& v == old(self).search_queue.contents()[0]
                    &&& v != 0
                    &&& final(self).produced@ == old(self).produced@.push(v)
                    &&& !old(self).produced@.contains(v)
                    &&& old(self).reachable(v)
                },
            },
    {
        let next_node = self.search_queue.pop_front();
        match next_node {
            None => None,
            Some(v) => {
                proof {
                    let o = *old(self);
                    assert(o.search_queue.contents().contains(v)) by {
                        assert(o.search_queue.contents()[0] == v);
                    }
                    assert(o.visited.bit(v));
                    assert forall|k: int|
                        0 <= k < self.search_queue.contents().len() implies #[trigger] self.search_queue.contents()[k]
                        != 0 by {
                        assert(self.search_queue.contents()[k] == o.search_queue.contents()[k + 1]);
                    }
                    assert forall|w: u16| #[trigger]
                        self.search_queue.contents().contains(w) implies self.visited.bit(w) by {
                        let k = choose|k: int|
                            0 <= k < self.search_queue.contents().len()
                                && self.search_queue.contents()[k] == w;
                        assert(o.search_queue.contents()[k + 1] == w);
                        assert(o.search_queue.contents().contains(w));
                    }
                }
                self.visit_neighbors_out(next_node);
                proof {
                    self.produced@ = self.produced@.push(v);
                }
                proof {
                    let o = *old(self);
                    let m = *self;
                    let g = *o.graph;
                    let t = o.reqs;
                    let cs = o.collection_state;
                    // the popped vertex appears nowhere in the remaining queue
                    assert(!o.search_queue.contents().drop_first().contains(v)) by {
                        if o.search_queue.contents().drop_first().contains(v) {
                            let k = choose|k: int|
                                0 <= k < o.search_queue.contents().drop_first().len()
                                    && o.search_queue.contents().drop_first()[k] == v;
                            assert(o.search_queue.contents()[k + 1] == v);
                            assert(o.search_queue.contents()[0] == v);
                        }
                    }
                    assert(m.produced@.no_duplicates()) by {
                        assert(!o.produced@.contains(v));
                    }
                    // visited is exactly produced plus frontier
                    assert forall|x: u16| #[trigger]
                        m.visited.bit(x) <==> (m.produced@.contains(x)
                            || m.search_queue.contents().contains(x)) by {
                        lemma_contains_drop_first(o.search_queue.contents(), x);
                        lemma_contains_push(o.produced@, v, x);
                    }
                    // every produced vertex is nonzero
                    assert forall|k: int|
                        0 <= k < m.produced@.len() implies #[trigger] m.produced@[k] != 0 by {
                        if k < o.produced@.len() {
                            assert(o.produced@[k] != 0);
                        }
                    }
                    // produced and frontier stay disjoint
                    assert forall|x: u16| #[trigger]
                        m.produced@.contains(x) implies !m.search_queue.contents().contains(
                        x,
                    ) by {
                        lemma_contains_push(o.produced@, v, x);
                        if m.search_queue.contents().contains(x) {
                            if o.search_queue.contents().drop_first().contains(x) {
                                lemma_contains_drop_first(o.search_queue.contents(), x);
                                assert(o.search_queue.contents().contains(x));
                            } else {
                                assert(!o.visited.bit(x));
                            }
                        }
                    }
                    // soundness: everything visited is reachable
                    assert forall|x: u16| #[trigger] m.visited.bit(x) implies m.reachable(x) by {
                        if !o.visited.bit(x) {
                            assert(step(g, t, cs, v, x));
                            assert(o.reachable(v));
                            lemma_reaches_step(g, t, cs, o.root, v, x);
                        }
                    }
                    // every produced vertex is fully expanded
                    assert forall|u: u16, x: u16|
                        m.produced@.contains(u) && #[trigger] step(g, t, cs, u, x) implies m.visited.bit(
                        x,
                    ) by {
                        if o.produced@.contains(u) {
                            assert(o.visited.bit(x));
                        } else {
                            let k = choose|k: int|
                                0 <= k < m.produced@.len() && m.produced@[k] == u;
                            assert(k == m.produced@.len() - 1);
                            assert(u == v);
                        }
                    }
                }
                Some(v)
            },
        }
    }

    /// Answer whether `node` is reachable from the root under the engine's
    /// access configuration, resuming the breadth-first traversal where it
    /// last stopped. Progress is never discarded, so repeated queries on one
    /// instance cost one full traversal in total.
    #[verifier::loop_isolation(false)]
    pub fn search(&mut self, node: u16) -> (r: bool)
        requires
            old(self).wf(),
        ensures
            final(self).wf(),
            old(self).same_config(*final(self)),
            forall|v: u16| old(self).visited.bit(v) ==> final(self).visited.bit(v),
            old(self).produced@.is_prefix_of(final(self).produced@),
            r == old(self).reachable(node),
    {
        if self.visited.check_visited(node) {
            return true;
        }
        proof {
            lemma_distinct_vertex_seq_len(self.produced@);
        }
        loop
            invariant
                self.wf(),
                self.graph == old(self).graph,
                self.root == old(self).root,
                self.collection_state == old(self).collection_state,
                self.reqs == old(self).reqs,
                forall|v: u16| old(self).visited.bit(v) ==> self.visited.bit(v),
                old(self).produced@.is_prefix_of(self.produced@),
                !self.produced@.contains(node),
                self.produced@.len() <= 65535,
            decreases 65536 - self.produced@.len(),
        {
            let ghost pre = *self;
            match self.next() {
                Some(v) => {
                    if v == node {
                        return true;
                    }
                    proof {
                        lemma_distinct_vertex_seq_len(self.produced@);
                        assert(!self.produced@.contains(node)) by {
                            if self.produced@.contains(node) {
                                let k = choose|k: int|
                                    0 <= k < self.produced@.len() && self.produced@[k] == node;
                                if k < pre.produced@.len() {
                                    assert(pre.produced@[k] == node);
                                }
                            }
                        }
                        assert(old(self).produced@.is_prefix_of(self.produced@)) by {
                            assert forall|k: int|
                                0 <= k < old(self).produced@.len() implies old(self).produced@[k]
                                == #[trigger] self.produced@.subrange(
                                0,
                                old(self).produced@.len() as int,
                            )[k] by {
                                assert(pre.produced@[k] == old(self).produced@[k]);
                                assert(self.produced@[k] == pre.produced@[k]);
                            }
                            assert(old(self).produced@ =~= self.produced@.subrange(
                                0,
                                old(self).produced@.len() as int,
                            ));
                        }
                    }
                },
                None => {
                    proof {
                        lemma_bfs_drain_complete(*self, node);
                    }
                    return false;
                },
            }
        }
    }

    /// Reset the traversal to its initial state: visited cleared to just the
    /// root, the root pending alone, nothing produced. The compiled access
    /// bitset is kept, so no logic is re-evaluated.
    pub fn clear(&mut self)
        requires
            old(self).cfg_wf(),
            old(self).access_ok(),
        ensures
            final(self).wf(),
            old(self).same_config(*final(self)),
            final(self).edge_access == old(self).edge_access,
            final(self).produced@ == Seq::<u16>::empty(),
            forall|w: u16| #[trigger] final(self).visited.bit(w) <==> w == final(self).root,
            final(self).search_queue.contents() == seq![old(self).root],
    {
        self.visited = VisitedCache::new();
        self.search_queue.clear();
        self.search_queue.push_back(self.root);
        self.visited.mark_visited(self.root);
        proof {
            self.produced@ = Seq::empty();
        }
        proof {
            lemma_reaches_root(*self.graph, self.reqs, self.collection_state, self.root);
            assert(self.search_queue.contents() =~= seq![old(self).root]);
            assert forall|w: u16| #[trigger]
                self.search_queue.contents().contains(w) == (w == self.root) by {
                if self.search_queue.contents().contains(w) {
                    let k = choose|k: int|
                        0 <= k < self.search_queue.contents().len()
                            && self.search_queue.contents()[k] == w;
                    assert(k == 0);
                }
                if w == self.root {
                    assert(self.search_queue.contents()[0] == w);
                }
            }
            assert forall|w: u16| #[trigger] self.visited.bit(w) implies self.reachable(w) by {
                assert(w == self.root);
            }
        }
    }
}

/// A full drain of the breadth-first traversal produces every vertex
/// reachable from the root exactly once — no duplicates, no omissions, no
/// extras: once the frontier is exhausted, the produced sequence holds a
/// vertex if and only if it is reachable.
pub proof fn lemma_bfs_drain_complete(it: BfsIter, v: u16)
    requires
        it.wf(),
        it.exhausted(),
    ensures
        it.produced@.no_duplicates(),
        it.produced@.contains(v) <==> it.reachable(v),
{
    broadcast use vstd::set::group_set_axioms;

    let g = *it.graph;
    let t = it.reqs;
    let cs = it.collection_state;
    let vs = Set::new(|w: u16| it.visited.bit(w));
    assert(vs.contains(it.root));
    assert forall|u: u16, w: u16|
        vs.contains(u) && #[trigger] step(g, t, cs, u, w) implies vs.contains(w) by {
        assert(it.visited.bit(u));
        assert(it.produced@.contains(u));
        assert(it.visited.bit(w));
    }
    if it.reachable(v) {
        lemma_reachable_in_closed(g, t, cs, it.root, vs, v);
        assert(it.visited.bit(v));
    }
    if it.produced@.contains(v) {
        assert(it.visited.bit(v));
    }
}

/// The root is always reachable, whatever the access configuration.
pub proof fn lemma_bfs_root_reachable(it: BfsIter)
    ensures
        it.reachable(it.root),
{
    lemma_reaches_root(*it.graph, it.reqs, it.collection_state, it.root);
}

/// Reachability is a function of the engine's fixed configuration alone, and
/// no engine operation changes that configuration: repeated queries on one
/// instance return equal results, and a vertex once reachable stays
/// reachable.
pub proof fn lemma_bfs_query_stable(a: BfsIter, b: BfsIter, v: u16)
    requires
        a.same_config(b),
    ensures
        a.reachable(v) == b.reachable(v),
{
}

/// Over one graph with no access constraints in force — every edge Open under
/// each engine's own configuration — a drained depth-first engine and a
/// drained breadth-first engine agree on reachable-set membership, though not
/// on discovery order.
pub proof fn lemma_dfs_bfs_drain_agree(d: DfsIter, b: BfsIter, v: u16)
    requires
        d.wf(),
        d.exhausted(),
        b.wf(),
        b.exhausted(),
        d.graph == b.graph,
        d.root == b.root,
        all_open(*d.graph, d.reqs, d.collection_state),
        all_open(*b.graph, b.reqs, b.collection_state),
    ensures
        d.produced@.contains(v) == b.produced@.contains(v),
{
    lemma_dfs_drain_complete(d, v);
    lemma_bfs_drain_complete(b, v);
    lemma_all_open_same_reaches(
        *d.graph,
        d.reqs,
        d.collection_state,
        b.reqs,
        b.collection_state,
        d.root,
        v,
    );
}

/// Under the hypotheses of `lemma_dfs_bfs_drain_agree` the two drained
/// engines also agree on the size of the reachable set.
pub proof fn lemma_dfs_bfs_drain_agree_count(d: DfsIter, b: BfsIter)
    requires
        d.wf(),
        d.exhausted(),
        b.wf(),
        b.exhausted(),
        d.graph == b.graph,
        d.root == b.root,
        all_open(*d.graph, d.reqs, d.collection_state),
        all_open(*b.graph, b.reqs, b.collection_state),
    ensures
        d.produced@.len() == b.produced@.len(),
{
    broadcast use vstd::set::group_set_axioms;

    assert forall|v: u16| d.produced@.contains(v) == #[trigger] b.produced@.contains(v) by {
        lemma_dfs_bfs_drain_agree(d, b, v);
    }
    d.produced@.unique_seq_to_set();
    b.produced@.unique_seq_to_set();
    assert(d.produced@.to_set() =~= b.produced@.to_set());
}

} // verus!
