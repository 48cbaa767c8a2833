use vstd::prelude::*;
use crate::constants::{NUM_EDGES_PADDED, SEARCH_STACK_SIZE};
use crate::graph::{filled_u16, neighbor_source, AccessCache, StaticGraph, VisitedCache};
use crate::logic::{eval_from, eval_req, CollectionState, ReqArray, Requirement};
use crate::reach::{
    edge_ok, lemma_contains_drop_last, lemma_contains_push, lemma_distinct_vertex_seq_len,
    lemma_reachable_in_closed, lemma_reaches_root, lemma_reaches_step, lemma_step_upto_end,
    lemma_step_upto_extend, reaches, step, step_upto,
};

verus! {

/// A fixed-capacity, array-backed LIFO frontier. The buffer has a power-of-two
/// capacity and the cursor is masked on advance; slot 0 is never occupied, so
/// the live contents are the slots `1 ..= ptr`.
pub struct DfsStack {
    pub buf: Vec<u16>,
    pub ptr: usize,
}

impl DfsStack {
    /// The backing buffer has its fixed capacity and the cursor is in range.
    pub open spec fn wf(self) -> bool {
        &&& self.buf@.len() == SEARCH_STACK_SIZE
        &&& self.ptr < SEARCH_STACK_SIZE
    }

    /// The pending entries, bottom of the stack first.
    pub open spec fn contents(self) -> Seq<u16> {
        self.buf@.subrange(1, self.ptr as int + 1)
    }

    /// An empty stack.
    pub fn new() -> (r: DfsStack)
        ensures
            r.wf(),
            r.contents() == Seq::<u16>::empty(),
    {
        let r = DfsStack { buf: filled_u16(SEARCH_STACK_SIZE, 0), ptr: 0 };
        proof {
            assert(r.contents() =~= Seq::<u16>::empty());
        }
        r
    }

    /// Push one entry in O(1). The capacity check is a `requires`: the
    /// traversal engines discharge it because a vertex enters the frontier at
    /// most once, so the frontier never holds more than 65535 entries.
    pub fn push(&mut self, n: u16)
        requires
            old(self).wf(),
            old(self).contents().len() < SEARCH_STACK_SIZE - 1,
        ensures
            final(self).wf(),
            final(self).contents() == old(self).contents().push(n),
    {
        let advanced: usize = self.ptr + 1;
        proof {
            let q = advanced;
            assert(q & 65535 == q) by (bit_vector)
                requires
                    q <= 65535,
            ;
        }
        self.ptr = advanced & (SEARCH_STACK_SIZE - 1);
        self.buf.set(self.ptr, n);
        proof {
            assert(self.contents() =~= old(self).contents().push(n));
        }
    }

    /// Pop the most recently pushed entry in O(1), or report emptiness.
    pub fn pop(&mut self) -> (r: Option<u16>)
        requires
            old(self).wf(),
        ensures
            final(self).wf(),
            match r {
                None => old(self).contents().len() == 0 && *final(self) == *old(self),
                Some(v) => {
                    &&& old(self).contents().len() > 0
                    &&& v == old(self).contents().last()
                    &&& final(self).contents() == old(self).contents().drop_last()
                },
            },
    {
        if self.ptr == 0 {
            return None;
        }
        let v = self.buf[self.ptr];
        self.ptr = self.ptr - 1;
        proof {
            assert(self.contents() =~= old(self).contents().drop_last());
        }
        Some(v)
    }

    /// Forget all pending entries in O(1), without deallocating.
    pub fn clear(&mut self)
        requires
            old(self).wf(),
        ensures
            final(self).wf(),
            final(self).contents() == Seq::<u16>::empty(),
    {
        self.ptr = 0;
        proof {
            assert(self.contents() =~= Seq::<u16>::empty());
        }
    }
}

/// The depth-first traversal engine. It borrows an immutable graph, owns a
/// requirement table and the collection state it was compiled against, and
/// privately owns its visited bitset, access bitset and frontier stack. The
/// ghost `produced` sequence records the vertices handed out so far.
pub struct DfsIter<'graph> {
    pub graph: &'graph StaticGraph,
    pub root: u16,
    pub search_stack: DfsStack,
    pub collection_state: CollectionState,
    pub visited: VisitedCache,
    pub edge_access: AccessCache,
    pub reqs: ReqArray,
    pub produced: Ghost<Seq<u16>>,
}

impl<'graph> DfsIter<'graph> {
    /// Shapes of the parts: a valid graph and table, fixed-size bitsets, an
    /// in-range frontier cursor and a nonzero root.
    pub open spec fn cfg_wf(self) -> bool {
        &&& self.graph.wf()
        &&& self.reqs.wf()
        &&& self.root != 0
        &&& self.visited.wf()
        &&& self.edge_access.wf()
        &&& self.search_stack.wf()
    }

    /// The access bitset holds exactly the compiled value of every edge's
    /// requirement expression under the engine's collection state.
    pub open spec fn access_ok(self) -> bool {
        forall|e: u16| #[trigger]
            self.edge_access.bit(e) == edge_ok(
                *self.graph,
                self.reqs,
                self.collection_state,
                e as int,
            )
    }

    /// Whether vertex `v` is reachable from the engine's root under its
    /// access configuration.
    pub open spec fn reachable(self, v: u16) -> bool {
        reaches(*self.graph, self.reqs, self.collection_state, self.root, v)
    }

    /// The search bookkeeping invariant. The visited set is exactly the
    /// produced vertices plus the pending frontier; every visited vertex is
    /// reachable; and every produced vertex is fully expanded: each of its
    /// accessible neighbors is visited.
    pub open spec fn search_inv(self) -> bool {
        &&& self.visited.bit(self.root)
        &&& self.produced@.no_duplicates()
        &&& self.search_stack.contents().no_duplicates()
        &&& forall|k: int|
            0 <= k < self.search_stack.contents().len() ==> #[trigger] self.search_stack.contents()[k]
                != 0
        &&& forall|k: int| 0 <= k < self.produced@.len() ==> #[trigger] self.produced@[k] != 0
        &&& forall|v: u16| #[trigger]
            self.produced@.contains(v) ==> !self.search_stack.contents().contains(v)
        &&& forall|v: u16| #[trigger]
            self.visited.bit(v) <==> (self.produced@.contains(v)
                || self.search_stack.contents().contains(v))
        &&& forall|v: u16| #[trigger] self.visited.bit(v) ==> self.reachable(v)
        &&& forall|u: u16, v: u16|
            self.produced@.contains(u) && #[trigger] step(
                *self.graph,
                self.reqs,
                self.collection_state,
                u,
                v,
            ) ==> self.visited.bit(v)
    }

    /// Everything the engine's contracts rely on.
    pub open spec fn wf(self) -> bool {
        &&& self.cfg_wf()
        &&& self.access_ok()
        &&& self.search_inv()
    }

    /// The frontier is empty: the traversal can produce nothing more.
    pub open spec fn exhausted(self) -> bool {
        self.search_stack.contents().len() == 0
    }

    /// The two engines share the fixed configuration that reachability is a
    /// function of: graph, root, requirement table and collection state.
    pub open spec fn same_config(self, other: DfsIter) -> bool {
        &&& other.graph == self.graph
        &&& other.root == self.root
        &&& other.collection_state == self.collection_state
        &&& other.reqs == self.reqs
    }

    /// Evaluate the requirement expression rooted at `req_index` against the
    /// engine's collection state.
    pub fn eval_logic_tree(&self, req_index: u16) -> (r: bool)
        requires
            self.reqs.wf(),
        ensures
            r == eval_from(self.reqs, self.collection_state, req_index as int),
    {
        self.reqs.eval(&self.collection_state, req_index)
    }

    /// Evaluate one leaf requirement against the engine's collection state.
    pub fn eval_requirement(&self, req: Requirement) -> (r: bool)
        ensures
            r == eval_req(req, self.collection_state),
    {
        self.collection_state.satisfies(req)
    }

    /// Recompile the access bitset: evaluate every edge's requirement
    /// expression against the collection state and pack the results, one bit
    /// per edge. A full pass done once, so that traversal steps test a single
    /// bit instead of re-evaluating logic.
    #[verifier::loop_isolation(false)]
    pub fn evaluate_logical_access(&mut self)
        requires
            old(self).graph.wf(),
            old(self).reqs.wf(),
        ensures
            final(self).edge_access.wf(),
            final(self).access_ok(),
            final(self).graph == old(self).graph,
            final(self).root == old(self).root,
            final(self).search_stack == old(self).search_stack,
            final(self).collection_state == old(self).collection_state,
            final(self).visited == old(self).visited,
            final(self).reqs == old(self).reqs,
            final(self).produced == old(self).produced,
    {
        let mut cache = AccessCache::new();
        let mut e: usize = 0;
        while e < NUM_EDGES_PADDED
            invariant
                e <= NUM_EDGES_PADDED,
                cache.wf(),
                forall|j: u16|
                    (j as int) < e ==> #[trigger] cache.bit(j) == edge_ok(
                        *self.graph,
                        self.reqs,
                        self.collection_state,
                        j as int,
                    ),
                forall|j: u16| (j as int) >= e ==> !(#[trigger] cache.bit(j)),
            decreases NUM_EDGES_PADDED - e,
        {
            let req_idx: u16 = self.graph.edge_data[e];
            if self.reqs.eval(&self.collection_state, req_idx) {
                cache.set_access(e as u16);
            }
            e = e + 1;
        }
        self.edge_access = cache;
    }

    /// Read the accessibility bit of edge `idx`.
    pub fn check_access(&self, idx: u16) -> (r: bool)
        requires
            self.edge_access.wf(),
        ensures
            r == self.edge_access.bit(idx),
    {
        self.edge_access.check_access(idx)
    }

    /// Read the visited bit of vertex `idx`.
    pub fn check_visited(&self, idx: u16) -> (r: bool)
        requires
            self.visited.wf(),
        ensures
            r == self.visited.bit(idx),
    {
        self.visited.check_visited(idx)
    }

    /// Mark vertex `idx` visited, leaving the rest of the engine unchanged.
    pub fn mark_visited(&mut self, idx: u16)
        requires
            old(self).visited.wf(),
        ensures
            final(self).visited.wf(),
            forall|j: u16|
                final(self).visited.bit(j) == (old(self).visited.bit(j) || j == idx),
            final(self).graph == old(self).graph,
            final(self).root == old(self).root,
            final(self).search_stack == old(self).search_stack,
            final(self).collection_state == old(self).collection_state,
            final(self).edge_access == old(self).edge_access,
            final(self).reqs == old(self).reqs,
            final(self).produced == old(self).produced,
    {
        self.visited.mark_visited(idx);
    }

    /// Visit a vertex's outgoing neighbors: push every one whose connecting
    /// edge is accessible and that is not yet visited, marking it visited as
    /// it is pushed. The sentinel (absent) vertex has no neighbors, so it
    /// leaves the engine unchanged.
    #[verifier::loop_isolation(false)]
    #[verifier::rlimit(30)]
    pub fn visit_neighbors_out(&mut self, node: Option<u16>)
        requires
            old(self).cfg_wf(),
            old(self).access_ok(),
            old(self).search_stack.contents().no_duplicates(),
            forall|k: int|
                0 <= k < old(self).search_stack.contents().len() ==> #[trigger] old(self).search_stack.contents()[k] != 0,
            forall|w: u16|
                old(self).search_stack.contents().contains(w) ==> old(self).visited.bit(w),
        ensures
            final(self).cfg_wf(),
            final(self).access_ok(),
            final(self).graph == old(self).graph,
            final(self).root == old(self).root,
            final(self).collection_state == old(self).collection_state,
            final(self).reqs == old(self).reqs,
            final(self).edge_access == old(self).edge_access,
            final(self).produced == old(self).produced,
            final(self).search_stack.contents().no_duplicates(),
            old(self).search_stack.contents().is_prefix_of(final(self).search_stack.contents()),
            forall|k: int|
                0 <= k < final(self).search_stack.contents().len() ==> #[trigger] final(self).search_stack.contents()[k] != 0,
            forall|w: u16| #[trigger]
                final(self).visited.bit(w) == (old(self).visited.bit(w) || step(
                    *old(self).graph,
                    old(self).reqs,
                    old(self).collection_state,
                    neighbor_source(node),
                    w,
                )),
            forall|w: u16| #[trigger]
                final(self).search_stack.contents().contains(w) == (old(self).search_stack.contents().contains(w) || (step(
                    *old(self).graph,
                    old(self).reqs,
                    old(self).collection_state,
                    neighbor_source(node),
                    w,
                ) && !old(self).visited.bit(w))),
            forall|w: u16|
                final(self).search_stack.contents().contains(w) ==> final(self).visited.bit(w),
    {
        let g: &'graph StaticGraph = self.graph;
        let (targets, edge_offset) = g.get_neighbors_out(node);
        let ghost src: u16 = neighbor_source(node);
        let ghost start: int = g.edge_start(src);
        let ghost endv: int = g.edge_end(src);
        let mut i: usize = 0;
        while i < targets.len()
            invariant
                i <= targets@.len(),
                self.graph == old(self).graph,
                self.root == old(self).root,
                self.collection_state == old(self).collection_state,
                self.reqs == old(self).reqs,
                self.edge_access == old(self).edge_access,
                self.produced == old(self).produced,
                self.visited.wf(),
                self.search_stack.wf(),
                self.search_stack.contents().no_duplicates(),
                old(self).search_stack.contents().is_prefix_of(self.search_stack.contents()),
                forall|k: int|
                    0 <= k < self.search_stack.contents().len() ==> #[trigger] self.search_stack.contents()[k]
                        != 0,
                forall|w: u16| #[trigger]
                    self.visited.bit(w) == (old(self).visited.bit(w) || step_upto(
                        *old(self).graph,
                        old(self).reqs,
                        old(self).collection_state,
                        src,
                        w,
                        start + i,
                    )),
                forall|w: u16| #[trigger]
                    self.search_stack.contents().contains(w) == (old(self).search_stack.contents().contains(w) || (step_upto(
                        *old(self).graph,
                        old(self).reqs,
                        old(self).collection_state,
                        src,
                        w,
                        start + i,
                    ) && !old(self).visited.bit(w))),
                forall|w: u16|
                    self.search_stack.contents().contains(w) ==> self.visited.bit(w),
            decreases targets@.len() - i,
        {
            let w: u16 = *vstd::slice::slice_index_get(targets, i);
            let edge_index: u16 = edge_offset + (i as u16);
            proof {
                assert(targets@[i as int] == g.edge_pointers@[start + i]);
                assert(g.edge_pointers@[start + i] != 0);
                assert(edge_index as int == start + i);
            }
            let accessible = self.edge_access.check_access(edge_index);
            let ghost pre = *self;
            if accessible {
                if !self.visited.check_visited(w) {
                    proof {
                        assert(!pre.search_stack.contents().contains(w));
                        assert(pre.search_stack.contents().push(w).no_duplicates());
                        assert forall|k: int|
                            0 <= k < pre.search_stack.contents().push(w).len() implies #[trigger] pre.search_stack.contents().push(
                            w,
                        )[k] != 0 by {
                            if k < pre.search_stack.contents().len() {
                                assert(pre.search_stack.contents()[k] != 0);
                            }
                        }
                        lemma_distinct_vertex_seq_len(pre.search_stack.contents().push(w));
                    }
                    self.search_stack.push(w);
                    self.visited.mark_visited(w);
                }
            }
            proof {
                assert forall|x: u16| #[trigger]
                    self.visited.bit(x) == (old(self).visited.bit(x) || step_upto(
                        *old(self).graph,
                        old(self).reqs,
                        old(self).collection_state,
                        src,
                        x,
                        start + i + 1,
                    )) by {
                    lemma_step_upto_extend(
                        *old(self).graph,
                        old(self).reqs,
                        old(self).collection_state,
                        src,
                        x,
                        start + i,
                    );
                }
                assert forall|x: u16| #[trigger]
                    self.search_stack.contents().contains(x) == (old(self).search_stack.contents().contains(x) || (step_upto(
                        *old(self).graph,
                        old(self).reqs,
                        old(self).collection_state,
                        src,
                        x,
                        start + i + 1,
                    ) && !old(self).visited.bit(x))) by {
                    lemma_step_upto_extend(
                        *old(self).graph,
                        old(self).reqs,
                        old(self).collection_state,
                        src,
                        x,
                        start + i,
                    );
                    lemma_contains_push(pre.search_stack.contents(), w, x);
                }
            }
            i = i + 1;
        }
        proof {
            assert(start + i == endv);
            assert forall|w: u16| #[trigger]
                self.visited.bit(w) == (old(self).visited.bit(w) || step(
                    *old(self).graph,
                    old(self).reqs,
                    old(self).collection_state,
                    src,
                    w,
                )) by {
                lemma_step_upto_end(
                    *old(self).graph,
                    old(self).reqs,
                    old(self).collection_state,
                    src,
                    w,
                );
            }
            assert forall|w: u16| #[trigger]
                self.search_stack.contents().contains(w) == (old(self).search_stack.contents().contains(w) || (step(
                    *old(self).graph,
                    old(self).reqs,
                    old(self).collection_state,
                    src,
                    w,
                ) && !old(self).visited.bit(w))) by {
                lemma_step_upto_end(
                    *old(self).graph,
                    old(self).reqs,
                    old(self).collection_state,
                    src,
                    w,
                );
            }
        }
    }

    /// Produce the next vertex of the depth-first traversal: pop the top of
    /// the frontier, discover its not-yet-visited accessible neighbors, and
    /// hand the popped vertex out. Every reachable vertex is produced exactly
    /// once over the engine's lifetime; `None` means the traversal is
    /// exhausted and the engine is unchanged.
    pub fn next(&mut self) -> (r: Option<u16>)
        requires
            old(self).wf(),
        ensures
            final(self).wf(),
            old(self).same_config(*final(self)),
            final(self).edge_access == old(self).edge_access,
            forall|v: u16| old(self).visited.bit(v) ==> final(self).visited.bit(v),
            old(self).produced@.is_prefix_of(final(self).produced@),
            match r {
                None => {
                    &&& old(self).exhausted()
                    &&& *final(self) == *old(self)
                },
                Some(v) => {
                    &&& !old(self).exhausted()
                    &&& v == old(self).search_stack.contents().last()
                    &&& v != 0
                    &&& final(self).produced@ == old(self).produced@.push(v)
                    &&& !old(self).produced@.contains(v)
                    &&& old(self).reachable(v)
                },
            },
    {
        let next_node = self.search_stack.pop();
        match next_node {
            None => None,
            Some(v) => {
                proof {
                    let o = *old(self);
                    assert(o.search_stack.contents().contains(v)) by {
                        assert(o.search_stack.contents()[o.search_stack.contents().len() - 1]
                            == v);
                    }
                    assert(o.visited.bit(v));
                    // the stack after the pop is still duplicate-free, nonzero
                    // and visited: its entries all sat in the old stack
                    assert forall|k: int|
                        0 <= k < self.search_stack.contents().len() implies #[trigger] self.search_stack.contents()[k]
                        != 0 by {
                        assert(self.search_stack.contents()[k] == o.search_stack.contents()[k]);
                    }
                    assert forall|w: u16| #[trigger]
                        self.search_stack.contents().contains(w) implies self.visited.bit(w) by {
                        let k = choose|k: int|
                            0 <= k < self.search_stack.contents().len()
                                && self.search_stack.contents()[k] == w;
                        assert(o.search_stack.contents()[k] == w);
                        assert(o.search_stack.contents().contains(w));
                    }
                }
                self.visit_neighbors_out(next_node);
                proof {
                    self.produced@ = self.produced@.push(v);
                }
                proof {
                    let o = *old(self);
                    let m = *self;
                    let g = *o.graph;
                    let t = o.reqs;
                    let cs = o.collection_state;
                    // the popped vertex appears nowhere in the remaining stack
                    assert(!o.search_stack.contents().drop_last().contains(v)) by {
                        if o.search_stack.contents().drop_last().contains(v) {
                            let k = choose|k: int|
                                0 <= k < o.search_stack.contents().drop_last().len()
                                    && o.search_stack.contents().drop_last()[k] == v;
                            assert(o.search_stack.contents()[k] == v);
                            assert(o.search_stack.contents()[o.search_stack.contents().len() - 1]
                                == v);
                        }
                    }
                    assert(m.produced@.no_duplicates()) by {
                        assert(!o.produced@.contains(v));
                    }
                    // visited is exactly produced plus frontier
                    assert forall|x: u16| #[trigger]
                        m.visited.bit(x) <==> (m.produced@.contains(x)
                            || m.search_stack.contents().contains(x)) by {
                        assert(o.search_stack.contents().contains(x) <==> (
                        o.search_stack.contents().drop_last().contains(x) || x == v)) by {
                            if o.search_stack.contents().contains(x) {
                                let k = choose|k: int|
                                    0 <= k < o.search_stack.contents().len()
                                        && o.search_stack.contents()[k] == x;
                                if k < o.search_stack.contents().len() - 1 {
                                    assert(o.search_stack.contents().drop_last()[k] == x);
                                }
                            }
                            if o.search_stack.contents().drop_last().contains(x) {
                                let k = choose|k: int|
                                    0 <= k < o.search_stack.contents().drop_last().len()
                                        && o.search_stack.contents().drop_last()[k] == x;
                                assert(o.search_stack.contents()[k] == x);
                            }
                            if x == v {
                                assert(o.search_stack.contents()[o.search_stack.contents().len()
                                    - 1] == x);
                            }
                        }
                        assert(m.produced@.contains(x) <==> (o.produced@.contains(x) || x == v))
                            by {
                            if o.produced@.contains(x) {
                                let k = choose|k: int|
                                    0 <= k < o.produced@.len() && o.produced@[k] == x;
                                assert(m.produced@[k] == x);
                            }
                            if m.produced@.contains(x) {
                                let k = choose|k: int|
                                    0 <= k < m.produced@.len() && m.produced@[k] == x;
                                if k < o.produced@.len() {
                                    assert(o.produced@[k] == x);
                                } else {
                                    assert(x == v);
                                }
                            }
                            if x == v {
                                assert(m.produced@[m.produced@.len() - 1] == x);
                            }
                        }
                    }
                    // every produced vertex is nonzero
                    assert forall|k: int|
                        0 <= k < m.produced@.len() implies #[trigger] m.produced@[k] != 0 by {
                        if k < o.produced@.len() {
                            assert(o.produced@[k] != 0);
                        }
                    }
                    // produced and frontier stay disjoint
                    assert forall|x: u16| #[trigger]
                        m.produced@.contains(x) implies !m.search_stack.contents().contains(
                        x,
                    ) by {
                        lemma_contains_push(o.produced@, v, x);
                        if m.search_stack.contents().contains(x) {
                            if o.search_stack.contents().drop_last().contains(x) {
                                lemma_contains_drop_last(o.search_stack.contents(), x);
                                assert(o.search_stack.contents().contains(x));
                            } else {
                                assert(!o.visited.bit(x));
                            }
                        }
                    }
                    // soundness: everything visited is reachable
                    assert forall|x: u16| #[trigger] m.visited.bit(x) implies m.reachable(x) by {
                        if !o.visited.bit(x) {
                            assert(step(g, t, cs, v, x));
                            assert(o.reachable(v));
                            lemma_reaches_step(g, t, cs, o.root, v, x);
                        }
                    }
                    // every produced vertex is fully expanded
                    assert forall|u: u16, x: u16|
                        m.produced@.contains(u) && #[trigger] step(g, t, cs, u, x) implies m.visited.bit(
                        x,
                    ) by {
                        if o.produced@.contains(u) {
                            assert(o.visited.bit(x));
                        } else {
                            let k = choose|k: int|
                                0 <= k < m.produced@.len() && m.produced@[k] == u;
                            assert(k == m.produced@.len() - 1);
                            assert(u == v);
                        }
                    }
                }
                Some(v)
            },
        }
    }

    /// Answer whether `node` is reachable from the root under the engine's
    /// access configuration. The visited cache is consulted first; otherwise
    /// the traversal resumes where it last stopped and drains until `node`
    /// appears or the frontier empties. Progress is never discarded, so
    /// repeated queries on one instance cost one full traversal in total.
    #[verifier::loop_isolation(false)]
    pub fn search(&mut self, node: u16) -> (r: bool)
        requires
            old(self).wf(),
        ensures
            final(self).wf(),
            old(self).same_config(*final(self)),
            forall|v: u16| old(self).visited.bit(v) ==> final(self).visited.bit(v),
            old(self).produced@.is_prefix_of(final(self).produced@),
            r == old(self).reachable(node),
    {
        if self.check_visited(node) {
            return true;
        }
        proof {
            lemma_distinct_vertex_seq_len(self.produced@);
        }
        loop
            invariant
                self.wf(),
                self.graph == old(self).graph,
                self.root == old(self).root,
                self.collection_state == old(self).collection_state,
                self.reqs == old(self).reqs,
                forall|v: u16| old(self).visited.bit(v) ==> self.visited.bit(v),
                old(self).produced@.is_prefix_of(self.produced@),
                !self.produced@.contains(node),
                self.produced@.len() <= 65535,
            decreases 65536 - self.produced@.len(),
        {
            let ghost pre = *self;
            match self.next() {
                Some(v) => {
                    if v == node {
                        return true;
                    }
                    proof {
                        lemma_distinct_vertex_seq_len(self.produced@);
                        assert(!self.produced@.contains(node)) by {
                            if self.produced@.contains(node) {
                                let k = choose|k: int|
                                    0 <= k < self.produced@.len() && self.produced@[k] == node;
                                if k < pre.produced@.len() {
                                    assert(pre.produced@[k] == node);
                                }
                            }
                        }
                        assert(old(self).produced@.is_prefix_of(self.produced@)) by {
                            assert forall|k: int|
                                0 <= k < old(self).produced@.len() implies old(self).produced@[k]
                                == #[trigger] self.produced@.subrange(
                                0,
                                old(self).produced@.len() as int,
                            )[k] by {
                                assert(pre.produced@[k] == old(self).produced@[k]);
                                assert(self.produced@[k] == pre.produced@[k]);
                            }
                            assert(old(self).produced@ =~= self.produced@.subrange(
                                0,
                                old(self).produced@.len() as int,
                            ));
                        }
                    }
                },
                None => {
                    proof {
                        lemma_dfs_drain_complete(*self, node);
                    }
                    return false;
                },
            }
        }
    }
}

/// A full drain of the depth-first traversal produces every vertex reachable
/// from the root exactly once — no duplicates, no omissions, no extras: once
/// the frontier is exhausted, the produced sequence holds a vertex if and
/// only if it is reachable.
pub proof fn lemma_dfs_drain_complete(it: DfsIter, v: u16)
    requires
        it.wf(),
        it.exhausted(),
    ensures
        it.produced@.no_duplicates(),
        it.produced@.contains(v) <==> it.reachable(v),
{
    broadcast use vstd::set::group_set_axioms;

    let g = *it.graph;
    let t = it.reqs;
    let cs = it.collection_state;
    let vs = Set::new(|w: u16| it.visited.bit(w));
    assert(vs.contains(it.root));
    assert forall|u: u16, w: u16|
        vs.contains(u) && #[trigger] step(g, t, cs, u, w) implies vs.contains(w) by {
        assert(it.visited.bit(u));
        assert(it.produced@.contains(u));
        assert(it.visited.bit(w));
    }
    if it.reachable(v) {
        lemma_reachable_in_closed(g, t, cs, it.root, vs, v);
        assert(it.visited.bit(v));
    }
    if it.produced@.contains(v) {
        assert(it.visited.bit(v));
    }
}

/// The root is always reachable, whatever the access configuration.
pub proof fn lemma_dfs_root_reachable(it: DfsIter)
    ensures
        it.reachable(it.root),
{
    lemma_reaches_root(*it.graph, it.reqs, it.collection_state, it.root);
}

/// Reachability is a function of the engine's fixed configuration alone, and
/// no engine operation changes that configuration: repeated queries on one
/// instance return equal results, and a vertex once reachable stays
/// reachable.
pub proof fn lemma_dfs_query_stable(a: DfsIter, b: DfsIter, v: u16)
    requires
        a.same_config(b),
    ensures
        a.reachable(v) == b.reachable(v),
{
}

} // verus!
