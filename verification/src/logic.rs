use vstd::prelude::*;

verus! {

/// Caller-supplied record of which gating conditions currently hold. The
/// traversal engines read it when compiling per-edge access; it is never
/// mutated by them.
#[derive(Clone, Copy)]
pub struct CollectionState {
    pub boots: bool,
    pub hammer: bool,
    pub gloves: bool,
    pub flute: bool,
}

/// What a single leaf requirement means under a given collection state.
pub open spec fn eval_req(req: Requirement, s: CollectionState) -> bool {
    match req {
        Requirement::Open => true,
        Requirement::Boots => s.boots,
        Requirement::Gloves => s.gloves,
        Requirement::Flute => s.flute,
        Requirement::Hammer => s.hammer,
        Requirement::Locked => false,
    }
}

impl CollectionState {
    /// The demonstration collection state: everything but the gloves.
    pub fn default() -> (r: CollectionState)
        ensures
            r == (CollectionState { boots: true, gloves: false, hammer: true, flute: true }),
    {
        CollectionState { boots: true, gloves: false, hammer: true, flute: true }
    }

    /// Evaluate one leaf requirement against this collection state.
    pub fn satisfies(&self, req: Requirement) -> (r: bool)
        ensures
            r == eval_req(req, *self),
    {
        match req {
            Requirement::Open => true,
            Requirement::Boots => self.boots,
            Requirement::Gloves => self.gloves,
            Requirement::Flute => self.flute,
            Requirement::Hammer => self.hammer,
            Requirement::Locked => false,
        }
    }
}

/// Edge traversal requirements. `Open` always holds and `Locked` never does;
/// the rest name a collectible checked against the collection state.
#[derive(Clone, Copy)]
pub enum Requirement {
    Open,
    Boots,
    Gloves,
    Flute,
    Hammer,
    Locked,
}

/// One node of a requirement expression. Evaluation starts at a root node:
/// if the node's own requirement holds, follow `and` (absent `and` means the
/// whole expression holds); otherwise follow `or` (absent `or` means it
/// fails). Nodes may be shared between expressions, so the table forms a DAG.
#[derive(Clone, Copy)]
pub struct RequirementNode {
    pub req: Requirement,
    pub and: Option<u16>,
    pub or: Option<u16>,
}

/// Whether a child link is admissible: absent, or a 1-based in-range index
/// whose rank lies strictly below `bound` (ranks witness acyclicity).
pub open spec fn child_ok(c: Option<u16>, len: int, rank: Seq<nat>, bound: nat) -> bool {
    match c {
        Some(j) => 1 <= j && (j as int) < len && rank[j as int] < bound,
        None => true,
    }
}

/// A rank assignment witnessing that every child link of `nodes` stays in
/// range and strictly descends in rank, so that evaluation terminates.
pub open spec fn table_ok(nodes: Seq<RequirementNode>, rank: Seq<nat>) -> bool {
    &&& rank.len() == nodes.len()
    &&& forall|i: int|
        0 <= i < nodes.len() ==> #[trigger] child_ok(nodes[i].and, nodes.len() as int, rank, rank[i])
            && child_ok(nodes[i].or, nodes.len() as int, rank, rank[i])
}

/// Whether every entry of a rank assignment lies below `n`.
pub open spec fn bounded_rank(rank: Seq<nat>, n: int) -> bool {
    forall|i: int| 0 <= i < rank.len() ==> rank[i] < n
}

/// Whether a node table admits a rank assignment bounded by the table length
/// (the longest-path rank of any table free of cycles and dangling links is
/// such an assignment).
pub open spec fn rankable(nodes: Seq<RequirementNode>) -> bool {
    exists|rank: Seq<nat>| table_ok(nodes, rank) && bounded_rank(rank, nodes.len() as int)
}

/// The table of requirement expression nodes, addressed by 1-based index
/// (index 0 is reserved padding; the main graph model may still use root
/// index 0, which holds an `Open` leaf). The ghost rank assignment carries
/// the acyclicity evidence established at construction.
pub struct ReqArray {
    pub nodes: Vec<RequirementNode>,
    pub rank: Ghost<Seq<nat>>,
}

/// The value of the requirement expression rooted at node `i` of table `t`,
/// under collection state `s`. A root index outside the table never holds.
pub open spec fn eval_from(t: ReqArray, s: CollectionState, i: int) -> bool
    decreases (if 0 <= i < t.nodes@.len() {
        t.rank@[i]
    } else {
        0nat
    })
        when t.wf()
{
    if 0 <= i < t.nodes@.len() {
        let n = t.nodes@[i];
        proof {
            assert(child_ok(t.nodes@[i].and, t.nodes@.len() as int, t.rank@, t.rank@[i]));
            assert(child_ok(t.nodes@[i].or, t.nodes@.len() as int, t.rank@, t.rank@[i]));
        }
        if eval_req(n.req, s) {
            match n.and {
                Some(j) => eval_from(t, s, j as int),
                None => true,
            }
        } else {
            match n.or {
                Some(j) => eval_from(t, s, j as int),
                None => false,
            }
        }
    } else {
        false
    }
}

impl ReqArray {
    /// The table's child links are in range and descend in rank.
    pub open spec fn wf(self) -> bool {
        table_ok(self.nodes@, self.rank@)
    }

    /// Evaluate the expression rooted at node `root`: an iterative walk of
    /// the and/or chain, bounded by the rank of the current node.
    pub fn eval(&self, state: &CollectionState, root: u16) -> (r: bool)
        requires
            self.wf(),
        ensures
            r == eval_from(*self, *state, root as int),
    {
        let mut i: u16 = root;
        if (i as usize) >= self.nodes.len() {
            return false;
        }
        loop
            invariant
                self.wf(),
                (i as int) < self.nodes@.len(),
                eval_from(*self, *state, root as int) == eval_from(*self, *state, i as int),
            decreases self.rank@[i as int],
        {
            let n = self.nodes[i as usize];
            proof {
                assert(child_ok(
                    self.nodes@[i as int].and,
                    self.nodes@.len() as int,
                    self.rank@,
                    self.rank@[i as int],
                ));
                assert(child_ok(
                    self.nodes@[i as int].or,
                    self.nodes@.len() as int,
                    self.rank@,
                    self.rank@[i as int],
                ));
            }
            if state.satisfies(n.req) {
                match n.and {
                    Some(j) => {
                        i = j;
                    },
                    None => {
                        return true;
                    },
                }
            } else {
                match n.or {
                    Some(j) => {
                        i = j;
                    },
                    None => {
                        return false;
                    },
                }
            }
        }
    }
}

/// Whether a child link has been settled by the table validator: absent, or
/// a 1-based in-range index already settled with a strictly smaller rank.
pub open spec fn child_done(
    c: Option<u16>,
    n: int,
    assigned: Seq<bool>,
    rank: Seq<usize>,
    bound: int,
) -> bool {
    match c {
        Some(j) => 1 <= j && (j as int) < n && assigned[j as int] && (rank[j as int] as int)
            < bound,
        None => true,
    }
}

/// A vector of `len` copies of `value`.
fn filled_bool(len: usize, value: bool) -> (r: Vec<bool>)
    ensures
        r@.len() == len,
        forall|k: int| 0 <= k < len ==> r@[k] == value,
{
    let mut r: Vec<bool> = Vec::new();
    while r.len() < len
        invariant
            r@.len() <= len,
            forall|k: int| 0 <= k < r@.len() ==> r@[k] == value,
        decreases len - r@.len(),
    {
        r.push(value);
    }
    r
}

/// A vector of `len` copies of `value`.
fn filled_usize(len: usize, value: usize) -> (r: Vec<usize>)
    ensures
        r@.len() == len,
        forall|k: int| 0 <= k < len ==> r@[k] == value,
{
    let mut r: Vec<usize> = Vec::new();
    while r.len() < len
        invariant
            r@.len() <= len,
            forall|k: int| 0 <= k < r@.len() ==> r@[k] == value,
        decreases len - r@.len(),
    {
        r.push(value);
    }
    r
}

impl ReqArray {
    /// Validate a supplied node table once, at load time, and compute its
    /// acyclicity evidence: nodes are settled in rounds, a node settling with
    /// rank one above its settled children. Returns a table exactly when the
    /// nodes admit a rank assignment bounded by the table length — that is,
    /// when every child link is a 1-based in-range index and the links form
    /// no cycle; a malformed table is a configuration error reported here,
    /// never silently tolerated.
    #[verifier::loop_isolation(false)]
    #[verifier::rlimit(60)]
    pub fn try_new(nodes: Vec<RequirementNode>) -> (r: Option<ReqArray>)
        ensures
            match r {
                Some(t) => {
                    &&& rankable(nodes@)
                    &&& t.wf()
                    &&& t.nodes@ == nodes@
                },
                None => !rankable(nodes@),
            },
    {
        let n = nodes.len();
        let mut assigned = filled_bool(n, false);
        let mut rank = filled_usize(n, 0);
        let mut p: usize = 0;
        while p < n
            invariant
                assigned@.len() == n,
                rank@.len() == n,
                p <= n,
                forall|i: int|
                    0 <= i < n && assigned@[i] ==> #[trigger] child_done(
                        nodes@[i].and,
                        n as int,
                        assigned@,
                        rank@,
                        rank@[i] as int,
                    ),
                forall|i: int|
                    0 <= i < n && assigned@[i] ==> #[trigger] child_done(
                        nodes@[i].or,
                        n as int,
                        assigned@,
                        rank@,
                        rank@[i] as int,
                    ),
                forall|i: int| 0 <= i < n && #[trigger] assigned@[i] ==> (rank@[i] as int) < n,
                forall|rr: Seq<nat>, i: int|
                    #![trigger rr[i], assigned@[i]]
                    table_ok(nodes@, rr) && bounded_rank(rr, n as int) && 0 <= i < n
                        && assigned@[i] ==> (rank@[i] as int) <= rr[i],
                forall|rr: Seq<nat>, i: int|
                    #![trigger rr[i], assigned@[i]]
                    table_ok(nodes@, rr) && bounded_rank(rr, n as int) && 0 <= i < n && rr[i] < p
                        ==> assigned@[i],
            decreases n - p,
        {
            let mut i: usize = 0;
            while i < n
                invariant
                    assigned@.len() == n,
                    rank@.len() == n,
                    i <= n,
                    forall|i2: int|
                        0 <= i2 < n && assigned@[i2] ==> #[trigger] child_done(
                            nodes@[i2].and,
                            n as int,
                            assigned@,
                            rank@,
                            rank@[i2] as int,
                        ),
                    forall|i2: int|
                        0 <= i2 < n && assigned@[i2] ==> #[trigger] child_done(
                            nodes@[i2].or,
                            n as int,
                            assigned@,
                            rank@,
                            rank@[i2] as int,
                        ),
                    forall|i2: int|
                        0 <= i2 < n && #[trigger] assigned@[i2] ==> (rank@[i2] as int) < n,
                    forall|rr: Seq<nat>, i2: int|
                        #![trigger rr[i2], assigned@[i2]]
                        table_ok(nodes@, rr) && bounded_rank(rr, n as int) && 0 <= i2 < n
                            && assigned@[i2] ==> (rank@[i2] as int) <= rr[i2],
                    forall|rr: Seq<nat>, i2: int|
                        #![trigger rr[i2], assigned@[i2]]
                        table_ok(nodes@, rr) && bounded_rank(rr, n as int) && 0 <= i2 < n && rr[i2]
                            < p ==> assigned@[i2],
                    forall|rr: Seq<nat>, i2: int|
                        #![trigger rr[i2], assigned@[i2]]
                        table_ok(nodes@, rr) && bounded_rank(rr, n as int) && 0 <= i2 < i && rr[i2]
                            < p + 1 ==> assigned@[i2],
                decreases n - i,
            {
                let ghost a0 = assigned@;
                let ghost r0 = rank@;
                if !assigned[i] {
                    let node = nodes[i];
                    let mut ok = true;
                    let mut rnk: usize = 0;
                    match node.and {
                        Some(j) => {
                            if j == 0 || (j as usize) >= n || !assigned[j as usize] {
                                ok = false;
                            } else {
                                let c = rank[j as usize] + 1;
                                if c > rnk {
                                    rnk = c;
                                }
                            }
                        },
                        None => {},
                    }
                    match node.or {
                        Some(j) => {
                            if j == 0 || (j as usize) >= n || !assigned[j as usize] {
                                ok = false;
                            } else {
                                let c = rank[j as usize] + 1;
                                if c > rnk {
                                    rnk = c;
                                }
                            }
                        },
                        None => {},
                    }
                    if ok {
                        if rnk >= n {
                            proof {
                                if rankable(nodes@) {
                                    let rr = choose|rr: Seq<nat>|
                                        table_ok(nodes@, rr) && bounded_rank(rr, n as int);
                                    assert(child_ok(
                                        nodes@[i as int].and,
                                        nodes@.len() as int,
                                        rr,
                                        rr[i as int],
                                    ));
                                    assert(child_ok(
                                        nodes@[i as int].or,
                                        nodes@.len() as int,
                                        rr,
                                        rr[i as int],
                                    ));
                                    match nodes@[i as int].and {
                                        Some(j) => {
                                            assert(rr[j as int] < rr[i as int]);
                                            assert((r0[j as int] as int) <= rr[j as int]);
                                        },
                                        None => {},
                                    }
                                    match nodes@[i as int].or {
                                        Some(j) => {
                                            assert(rr[j as int] < rr[i as int]);
                                            assert((r0[j as int] as int) <= rr[j as int]);
                                        },
                                        None => {},
                                    }
                                    assert((rnk as int) <= rr[i as int]);
                                    assert(rr[i as int] < n);
                                    assert(false);
                                }
                            }
                            return None;
                        }
                        assigned.set(i, true);
                        rank.set(i, rnk);
                        proof {
                            assert forall|i2: int|
                                0 <= i2 < n && #[trigger] assigned@[i2] implies child_done(
                                nodes@[i2].and,
                                n as int,
                                assigned@,
                                rank@,
                                rank@[i2] as int,
                            ) && child_done(
                                nodes@[i2].or,
                                n as int,
                                assigned@,
                                rank@,
                                rank@[i2] as int,
                            ) by {
                                if i2 != i as int {
                                    assert(a0[i2]);
                                    assert(child_done(
                                        nodes@[i2].and,
                                        n as int,
                                        a0,
                                        r0,
                                        r0[i2] as int,
                                    ));
                                    assert(child_done(
                                        nodes@[i2].or,
                                        n as int,
                                        a0,
                                        r0,
                                        r0[i2] as int,
                                    ));
                                    assert(rank@[i2] == r0[i2]);
                                    match nodes@[i2].and {
                                        Some(j) => {
                                            assert(a0[j as int]);
                                            assert(j as int != i as int);
                                            assert(assigned@[j as int]);
                                            assert(rank@[j as int] == r0[j as int]);
                                        },
                                        None => {},
                                    }
                                    match nodes@[i2].or {
                                        Some(j) => {
                                            assert(a0[j as int]);
                                            assert(j as int != i as int);
                                            assert(assigned@[j as int]);
                                            assert(rank@[j as int] == r0[j as int]);
                                        },
                                        None => {},
                                    }
                                } else {
                                    assert(rank@[i2] == rnk);
                                    match nodes@[i2].and {
                                        Some(j) => {
                                            assert(a0[j as int]);
                                            assert(j as int != i2);
                                            assert(assigned@[j as int]);
                                            assert(rank@[j as int] == r0[j as int]);
                                            assert((r0[j as int] as int) < rnk as int);
                                        },
                                        None => {},
                                    }
                                    match nodes@[i2].or {
                                        Some(j) => {
                                            assert(a0[j as int]);
                                            assert(j as int != i2);
                                            assert(assigned@[j as int]);
                                            assert(rank@[j as int] == r0[j as int]);
                                            assert((r0[j as int] as int) < rnk as int);
                                        },
                                        None => {},
                                    }
                                }
                                assert(child_done(
                                    nodes@[i2].and,
                                    n as int,
                                    assigned@,
                                    rank@,
                                    rank@[i2] as int,
                                ));
                                assert(child_done(
                                    nodes@[i2].or,
                                    n as int,
                                    assigned@,
                                    rank@,
                                    rank@[i2] as int,
                                ));
                            }
                            assert forall|rr: Seq<nat>, i2: int|
                                table_ok(nodes@, rr) && bounded_rank(rr, n as int) && 0 <= i2 < n
                                    && assigned@[i2] implies (rank@[i2] as int) <= rr[i2] by {
                                if i2 == i as int {
                                    assert(child_ok(
                                        nodes@[i2].and,
                                        nodes@.len() as int,
                                        rr,
                                        rr[i2],
                                    ));
                                    assert(child_ok(
                                        nodes@[i2].or,
                                        nodes@.len() as int,
                                        rr,
                                        rr[i2],
                                    ));
                                    match nodes@[i2].and {
                                        Some(j) => {
                                            assert(rr[j as int] < rr[i2]);
                                            assert(a0[j as int]);
                                            assert((r0[j as int] as int) <= rr[j as int]);
                                        },
                                        None => {},
                                    }
                                    match nodes@[i2].or {
                                        Some(j) => {
                                            assert(rr[j as int] < rr[i2]);
                                            assert(a0[j as int]);
                                            assert((r0[j as int] as int) <= rr[j as int]);
                                        },
                                        None => {},
                                    }
                                } else {
                                    if assigned@[i2] {
                                        assert(a0[i2]);
                                        assert((r0[i2] as int) <= rr[i2]);
                                    }
                                }
                            }
                        }
                    }
                }
                proof {
                    assert forall|rr: Seq<nat>, i2: int|
                        table_ok(nodes@, rr) && bounded_rank(rr, n as int) && 0 <= i2 < i + 1
                            && rr[i2] < p + 1 implies assigned@[i2] by {
                        if i2 < i as int {
                            if rr[i2] < p + 1 && !a0[i2] {
                                assert(a0[i2]);
                            }
                            if a0[i2] {
                                assert(assigned@[i2]);
                            }
                        } else if i2 == i as int && !assigned@[i2] {
                            assert(!a0[i2]);
                            assert(child_ok(nodes@[i2].and, nodes@.len() as int, rr, rr[i2]));
                            assert(child_ok(nodes@[i2].or, nodes@.len() as int, rr, rr[i2]));
                            match nodes@[i2].and {
                                Some(j) => {
                                    assert(rr[j as int] < rr[i2]);
                                    assert(a0[j as int]);
                                },
                                None => {},
                            }
                            match nodes@[i2].or {
                                Some(j) => {
                                    assert(rr[j as int] < rr[i2]);
                                    assert(a0[j as int]);
                                },
                                None => {},
                            }
                            assert(false);
                        }
                    }
                }
                i = i + 1;
            }
            p = p + 1;
        }
        let mut i: usize = 0;
        while i < n
            invariant
                assigned@.len() == n,
                rank@.len() == n,
                i <= n,
                forall|k: int| 0 <= k < i ==> #[trigger] assigned@[k],
                forall|i2: int|
                    0 <= i2 < n && assigned@[i2] ==> #[trigger] child_done(
                        nodes@[i2].and,
                        n as int,
                        assigned@,
                        rank@,
                        rank@[i2] as int,
                    ),
                forall|i2: int|
                    0 <= i2 < n && assigned@[i2] ==> #[trigger] child_done(
                        nodes@[i2].or,
                        n as int,
                        assigned@,
                        rank@,
                        rank@[i2] as int,
                    ),
                forall|i2: int|
                    0 <= i2 < n && #[trigger] assigned@[i2] ==> (rank@[i2] as int) < n,
                forall|rr: Seq<nat>, i2: int|
                    #![trigger rr[i2], assigned@[i2]]
                    table_ok(nodes@, rr) && bounded_rank(rr, n as int) && 0 <= i2 < n && rr[i2] < n
                        ==> assigned@[i2],
            decreases n - i,
        {
            if !assigned[i] {
                proof {
                    if rankable(nodes@) {
                        let rr = choose|rr: Seq<nat>|
                            table_ok(nodes@, rr) && bounded_rank(rr, n as int);
                        assert(rr[i as int] < n);
                        assert(false);
                    }
                }
                return None;
            }
            i = i + 1;
        }
        let ghost final_rank = rank@.map_values(|x: usize| x as nat);
        let t = ReqArray { nodes, rank: Ghost(final_rank) };
        proof {
            assert forall|i2: int| 0 <= i2 < t.nodes@.len() implies #[trigger] child_ok(
                t.nodes@[i2].and,
                t.nodes@.len() as int,
                t.rank@,
                t.rank@[i2],
            ) && child_ok(t.nodes@[i2].or, t.nodes@.len() as int, t.rank@, t.rank@[i2]) by {
                assert(assigned@[i2]);
                assert(child_done(t.nodes@[i2].and, n as int, assigned@, rank@, rank@[i2] as int));
                assert(child_done(t.nodes@[i2].or, n as int, assigned@, rank@, rank@[i2] as int));
            }
            assert(table_ok(t.nodes@, t.rank@));
            assert(bounded_rank(t.rank@, t.nodes@.len() as int)) by {
                assert forall|k: int| 0 <= k < t.rank@.len() implies t.rank@[k]
                    < t.nodes@.len() by {
                    assert(assigned@[k]);
                }
            }
        }
        Some(t)
    }
}

/// The node table of the canonical demonstration container.
pub open spec fn canonical_req_nodes() -> Seq<RequirementNode> {
    seq![
        RequirementNode { req: Requirement::Open, and: None, or: None },
        RequirementNode { req: Requirement::Locked, and: None, or: None },
        RequirementNode { req: Requirement::Boots, and: None, or: Some(3u16) },
        RequirementNode { req: Requirement::Hammer, and: None, or: None },
        RequirementNode { req: Requirement::Gloves, and: None, or: None },
        RequirementNode { req: Requirement::Gloves, and: Some(3u16), or: None },
        RequirementNode { req: Requirement::Flute, and: None, or: None },
    ]
}

/// Rank assignment for the canonical container: leaves rank 0, combined
/// expressions rank 1.
pub open spec fn canonical_req_ranks() -> Seq<nat> {
    seq![0nat, 0nat, 1nat, 0nat, 0nat, 1nat, 0nat]
}

/// The demonstration requirement container: a handful of single and combined
/// requirements. Index 0 is the mandatory `Open` padding leaf, index 1 the
/// `Locked` leaf; index 2 encodes "Boots or Hammer" and index 5 "Gloves and
/// Hammer", sharing the `Hammer` leaf at index 3.
pub fn req_container() -> (r: ReqArray)
    ensures
        r.wf(),
        r.nodes@ == canonical_req_nodes(),
        r.rank@ == canonical_req_ranks(),
{
    let mut nodes: Vec<RequirementNode> = Vec::new();
    nodes.push(RequirementNode { req: Requirement::Open, and: None, or: None });
    nodes.push(RequirementNode { req: Requirement::Locked, and: None, or: None });
    nodes.push(RequirementNode { req: Requirement::Boots, and: None, or: Some(3u16) });
    nodes.push(RequirementNode { req: Requirement::Hammer, and: None, or: None });
    nodes.push(RequirementNode { req: Requirement::Gloves, and: None, or: None });
    nodes.push(RequirementNode { req: Requirement::Gloves, and: Some(3u16), or: None });
    nodes.push(RequirementNode { req: Requirement::Flute, and: None, or: None });
    let r = ReqArray { nodes, rank: Ghost(canonical_req_ranks()) };
    proof {
        assert(r.nodes@ =~= canonical_req_nodes());
        assert forall|i: int| 0 <= i < r.nodes@.len() implies #[trigger] child_ok(
            r.nodes@[i].and,
            r.nodes@.len() as int,
            r.rank@,
            r.rank@[i],
        ) && child_ok(r.nodes@[i].or, r.nodes@.len() as int, r.rank@, r.rank@[i]) by {
            if i == 2 {
                assert(r.nodes@[2].or == Some(3u16));
            } else if i == 5 {
                assert(r.nodes@[5].and == Some(3u16));
            }
        }
    }
    r
}

} // verus!
