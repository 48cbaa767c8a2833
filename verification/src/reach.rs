use vstd::prelude::*;
use crate::constants::NUM_EDGES_PADDED;
use crate::graph::StaticGraph;
use crate::logic::{eval_from, CollectionState, ReqArray};

verus! {

/// Whether edge slot `e` is traversable: its requirement root, looked up in
/// the requirement table `t`, holds under collection state `s`.
pub open spec fn edge_ok(g: StaticGraph, t: ReqArray, s: CollectionState, e: int) -> bool {
    0 <= e < NUM_EDGES_PADDED && eval_from(t, s, g.edge_data@[e] as int)
}

/// Whether some traversable edge leads from vertex `u` to vertex `v`.
pub open spec fn step(g: StaticGraph, t: ReqArray, s: CollectionState, u: u16, v: u16) -> bool {
    exists|e: int|
        g.edge_start(u) <= e < g.edge_end(u) && g.edge_pointers@[e] == v && edge_ok(g, t, s, e)
}

/// Whether some traversable edge among vertex `u`'s first edge slots — those
/// before slot `k` — leads to vertex `v`. The traversal loops grow `k` one
/// slot at a time until `step_upto` coincides with `step`.
pub open spec fn step_upto(
    g: StaticGraph,
    t: ReqArray,
    s: CollectionState,
    u: u16,
    v: u16,
    k: int,
) -> bool {
    exists|e: int| g.edge_start(u) <= e < k && g.edge_pointers@[e] == v && edge_ok(g, t, s, e)
}

/// `step` is `step_upto` taken over the vertex's whole edge range.
pub proof fn lemma_step_upto_end(g: StaticGraph, t: ReqArray, s: CollectionState, u: u16, v: u16)
    ensures
        step(g, t, s, u, v) == step_upto(g, t, s, u, v, g.edge_end(u)),
{
    if step(g, t, s, u, v) {
        let e = choose|e: int|
            g.edge_start(u) <= e < g.edge_end(u) && g.edge_pointers@[e] == v && edge_ok(g, t, s, e);
        assert(g.edge_start(u) <= e < g.edge_end(u) && g.edge_pointers@[e] == v && edge_ok(
            g,
            t,
            s,
            e,
        ));
    }
    if step_upto(g, t, s, u, v, g.edge_end(u)) {
        let e = choose|e: int|
            g.edge_start(u) <= e < g.edge_end(u) && g.edge_pointers@[e] == v && edge_ok(g, t, s, e);
        assert(g.edge_start(u) <= e < g.edge_end(u) && g.edge_pointers@[e] == v && edge_ok(
            g,
            t,
            s,
            e,
        ));
    }
}

/// Growing the inspected range by one slot adds exactly that slot's edge.
pub proof fn lemma_step_upto_extend(
    g: StaticGraph,
    t: ReqArray,
    s: CollectionState,
    u: u16,
    v: u16,
    k: int,
)
    requires
        g.edge_start(u) <= k,
    ensures
        step_upto(g, t, s, u, v, k + 1) == (step_upto(g, t, s, u, v, k) || (g.edge_pointers@[k] == v
            && edge_ok(g, t, s, k))),
{
    if step_upto(g, t, s, u, v, k + 1) {
        let e = choose|e: int|
            g.edge_start(u) <= e < k + 1 && g.edge_pointers@[e] == v && edge_ok(g, t, s, e);
        if e < k {
            assert(g.edge_start(u) <= e < k && g.edge_pointers@[e] == v && edge_ok(g, t, s, e));
        }
    }
    if step_upto(g, t, s, u, v, k) {
        let e = choose|e: int|
            g.edge_start(u) <= e < k && g.edge_pointers@[e] == v && edge_ok(g, t, s, e);
        assert(g.edge_start(u) <= e < k + 1 && g.edge_pointers@[e] == v && edge_ok(g, t, s, e));
    }
    if g.edge_pointers@[k] == v && edge_ok(g, t, s, k) {
        assert(g.edge_start(u) <= k < k + 1 && g.edge_pointers@[k] == v && edge_ok(g, t, s, k));
    }
}

/// Whether `p` is a walk that starts at `root` and only crosses traversable
/// edges.
pub open spec fn is_path(
    g: StaticGraph,
    t: ReqArray,
    s: CollectionState,
    root: u16,
    p: Seq<u16>,
) -> bool {
    &&& p.len() >= 1
    &&& p[0] == root
    &&& forall|i: int| 0 <= i < p.len() - 1 ==> step(g, t, s, #[trigger] p[i], p[i + 1])
}

/// Whether vertex `v` is reachable from `root` across traversable edges.
pub open spec fn reaches(g: StaticGraph, t: ReqArray, s: CollectionState, root: u16, v: u16) -> bool {
    exists|p: Seq<u16>| is_path(g, t, s, root, p) && p.last() == v
}

/// The root is reachable from itself, whatever the access configuration.
pub proof fn lemma_reaches_root(g: StaticGraph, t: ReqArray, s: CollectionState, root: u16)
    ensures
        reaches(g, t, s, root, root),
{
    let p: Seq<u16> = seq![root];
    assert(is_path(g, t, s, root, p));
    assert(p.last() == root);
}

/// Reachability extends across one traversable edge.
pub proof fn lemma_reaches_step(
    g: StaticGraph,
    t: ReqArray,
    s: CollectionState,
    root: u16,
    u: u16,
    v: u16,
)
    requires
        reaches(g, t, s, root, u),
        step(g, t, s, u, v),
    ensures
        reaches(g, t, s, root, v),
{
    let p = choose|p: Seq<u16>| is_path(g, t, s, root, p) && p.last() == u;
    let q = p.push(v);
    assert(q[0] == p[0]);
    assert forall|i: int| 0 <= i < q.len() - 1 implies step(g, t, s, #[trigger] q[i], q[i + 1]) by {
        if i < p.len() - 1 {
            assert(step(g, t, s, p[i], p[i + 1]));
            assert(q[i] == p[i] && q[i + 1] == p[i + 1]);
        } else {
            assert(q[i] == p[i] && p[i] == p.last() && q[i + 1] == v);
        }
    }
    assert(is_path(g, t, s, root, q));
    assert(q.last() == v);
}

/// A walk that starts inside a step-closed vertex set never leaves it.
proof fn lemma_path_stays_in_closed(
    g: StaticGraph,
    t: ReqArray,
    s: CollectionState,
    root: u16,
    vs: Set<u16>,
    p: Seq<u16>,
)
    requires
        vs.contains(root),
        forall|u: u16, v: u16| vs.contains(u) && #[trigger] step(g, t, s, u, v) ==> vs.contains(v),
        is_path(g, t, s, root, p),
    ensures
        vs.contains(p.last()),
    decreases p.len(),
{
    if p.len() == 1 {
        assert(p.last() == root);
    } else {
        let q = p.drop_last();
        assert forall|i: int| 0 <= i < q.len() - 1 implies step(g, t, s, #[trigger] q[i], q[i + 1]) by {
            assert(step(g, t, s, p[i], p[i + 1]));
        }
        assert(is_path(g, t, s, root, q));
        lemma_path_stays_in_closed(g, t, s, root, vs, q);
        assert(step(g, t, s, p[p.len() - 2], p[p.len() - 1]));
        assert(q.last() == p[p.len() - 2]);
    }
}

/// Every vertex reachable from the root lies in any step-closed vertex set
/// that contains the root: reachability is the least such set.
pub proof fn lemma_reachable_in_closed(
    g: StaticGraph,
    t: ReqArray,
    s: CollectionState,
    root: u16,
    vs: Set<u16>,
    v: u16,
)
    requires
        vs.contains(root),
        forall|u: u16, w: u16| vs.contains(u) && #[trigger] step(g, t, s, u, w) ==> vs.contains(w),
        reaches(g, t, s, root, v),
    ensures
        vs.contains(v),
{
    let p = choose|p: Seq<u16>| is_path(g, t, s, root, p) && p.last() == v;
    lemma_path_stays_in_closed(g, t, s, root, vs, p);
}

/// Membership in a sequence extended by one entry.
pub proof fn lemma_contains_push(s: Seq<u16>, w: u16, x: u16)
    ensures
        s.push(w).contains(x) <==> (s.contains(x) || x == w),
{
    if s.contains(x) {
        let k = choose|k: int| 0 <= k < s.len() && s[k] == x;
        assert(s.push(w)[k] == x);
    }
    if x == w {
        assert(s.push(w)[s.len() as int] == x);
    }
    if s.push(w).contains(x) {
        let k = choose|k: int| 0 <= k < s.push(w).len() && s.push(w)[k] == x;
        if k < s.len() {
            assert(s[k] == x);
        }
    }
}

/// Membership in a nonempty sequence split off its last entry.
pub proof fn lemma_contains_drop_last(s: Seq<u16>, x: u16)
    requires
        s.len() > 0,
    ensures
        s.contains(x) <==> (s.drop_last().contains(x) || x == s.last()),
{
    if s.drop_last().contains(x) {
        let k = choose|k: int| 0 <= k < s.drop_last().len() && s.drop_last()[k] == x;
        assert(s[k] == x);
    }
    if x == s.last() {
        assert(s[s.len() - 1] == x);
    }
    if s.contains(x) {
        let k = choose|k: int| 0 <= k < s.len() && s[k] == x;
        if k < s.len() - 1 {
            assert(s.drop_last()[k] == x);
        }
    }
}

/// Membership in a nonempty sequence split off its first entry.
pub proof fn lemma_contains_drop_first(s: Seq<u16>, x: u16)
    requires
        s.len() > 0,
    ensures
        s.contains(x) <==> (s.drop_first().contains(x) || x == s[0]),
{
    if s.drop_first().contains(x) {
        let k = choose|k: int| 0 <= k < s.drop_first().len() && s.drop_first()[k] == x;
        assert(s[k + 1] == x);
    }
    if x == s[0] {
        assert(s[0] == x);
    }
    if s.contains(x) {
        let k = choose|k: int| 0 <= k < s.len() && s[k] == x;
        if k > 0 {
            assert(s.drop_first()[k - 1] == x);
        }
    }
}

/// A sequence of distinct nonzero vertex indices holds at most 65535 entries.
pub proof fn lemma_distinct_vertex_seq_len(s: Seq<u16>)
    requires
        s.no_duplicates(),
        forall|i: int| 0 <= i < s.len() ==> s[i] != 0,
    ensures
        s.len() <= 65535,
{
    broadcast use vstd::set::group_set_axioms;

    let t = s.map_values(|v: u16| v as int);
    assert(t.no_duplicates()) by {
        assert forall|i: int, j: int|
            0 <= i < t.len() && 0 <= j < t.len() && i != j implies t[i] != t[j] by {
            assert(s[i] != s[j]);
        }
    }
    t.unique_seq_to_set();
    vstd::set_lib::lemma_int_range(1, 65536);
    assert(t.to_set().subset_of(vstd::set_lib::set_int_range(1, 65536))) by {
        assert forall|x: int| t.to_set().contains(x) implies vstd::set_lib::set_int_range(
            1,
            65536,
        ).contains(x) by {
            let k = choose|k: int| 0 <= k < t.len() && t[k] == x;
            assert(s[k] != 0);
        }
    }
    vstd::set_lib::lemma_len_subset(t.to_set(), vstd::set_lib::set_int_range(1, 65536));
}

/// Whether every edge slot of the graph is traversable under table `t` and
/// collection state `s`: the unconstrained, all-Open configuration.
pub open spec fn all_open(g: StaticGraph, t: ReqArray, s: CollectionState) -> bool {
    forall|e: int| 0 <= e < NUM_EDGES_PADDED ==> edge_ok(g, t, s, e)
}

/// Under two all-open configurations the step relations coincide.
proof fn lemma_all_open_step(
    g: StaticGraph,
    t1: ReqArray,
    s1: CollectionState,
    t2: ReqArray,
    s2: CollectionState,
    u: u16,
    v: u16,
)
    requires
        all_open(g, t2, s2),
        step(g, t1, s1, u, v),
    ensures
        step(g, t2, s2, u, v),
{
    let e = choose|e: int|
        g.edge_start(u) <= e < g.edge_end(u) && g.edge_pointers@[e] == v && edge_ok(g, t1, s1, e);
    assert(edge_ok(g, t2, s2, e));
}

/// Under two all-open configurations, exactly the same vertices are
/// reachable: with no constraints in force, reachability is a property of
/// the graph alone.
pub proof fn lemma_all_open_same_reaches(
    g: StaticGraph,
    t1: ReqArray,
    s1: CollectionState,
    t2: ReqArray,
    s2: CollectionState,
    root: u16,
    v: u16,
)
    requires
        all_open(g, t1, s1),
        all_open(g, t2, s2),
    ensures
        reaches(g, t1, s1, root, v) == reaches(g, t2, s2, root, v),
{
    if reaches(g, t1, s1, root, v) {
        let p = choose|p: Seq<u16>| is_path(g, t1, s1, root, p) && p.last() == v;
        assert forall|i: int| 0 <= i < p.len() - 1 implies step(g, t2, s2, #[trigger] p[i], p[i + 1]) by {
            assert(step(g, t1, s1, p[i], p[i + 1]));
            lemma_all_open_step(g, t1, s1, t2, s2, p[i], p[i + 1]);
        }
        assert(is_path(g, t2, s2, root, p));
    }
    if reaches(g, t2, s2, root, v) {
        let p = choose|p: Seq<u16>| is_path(g, t2, s2, root, p) && p.last() == v;
        assert forall|i: int| 0 <= i < p.len() - 1 implies step(g, t1, s1, #[trigger] p[i], p[i + 1]) by {
            assert(step(g, t2, s2, p[i], p[i + 1]));
            lemma_all_open_step(g, t2, s2, t1, s1, p[i], p[i + 1]);
        }
        assert(is_path(g, t1, s1, root, p));
    }
}

} // verus!
