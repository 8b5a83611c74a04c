//! Walk lengths and shortest distances in a directed graph given by an edge
//! relation; the facts that breadth-first searches rest on.

use vstd::prelude::*;

verus! {

/// `v` can be reached from `s` by a walk of exactly `k` edges.
pub open spec fn walk_of_len<V>(edge: spec_fn(V, V) -> bool, s: V, v: V, k: nat) -> bool
    decreases k,
{
    if k == 0 {
        v == s
    } else {
        exists|u: V| #[trigger] edge(u, v) && walk_of_len(edge, s, u, (k - 1) as nat)
    }
}

/// The shortest walk from `s` to `v` has exactly `d` edges.
pub open spec fn is_dist<V>(edge: spec_fn(V, V) -> bool, s: V, v: V, d: nat) -> bool {
    &&& walk_of_len(edge, s, v, d)
    &&& forall|j: nat| j < d ==> !#[trigger] walk_of_len(edge, s, v, j)
}

/// No walk from `s` to `v` has at most `k` edges.
pub open spec fn unreached_within<V>(edge: spec_fn(V, V) -> bool, s: V, v: V, k: nat) -> bool {
    forall|j: nat| j <= k ==> !#[trigger] walk_of_len(edge, s, v, j)
}

/// `v` is reachable from `s` at all.
pub open spec fn reachable<V>(edge: spec_fn(V, V) -> bool, s: V, v: V) -> bool {
    exists|k: nat| #[trigger] walk_of_len(edge, s, v, k)
}

/// Extending a walk by an edge.
pub proof fn lemma_walk_step<V>(edge: spec_fn(V, V) -> bool, s: V, u: V, v: V, k: nat)
    requires
        walk_of_len(edge, s, u, k),
        edge(u, v),
    ensures
        walk_of_len(edge, s, v, k + 1),
{
    assert(walk_of_len(edge, s, v, k + 1) == exists|w: V| #[trigger] edge(w, v) && walk_of_len(edge, s, w, k));
}

/// The last edge of a walk.
pub proof fn lemma_walk_pred<V>(edge: spec_fn(V, V) -> bool, s: V, v: V, k: nat) -> (u: V)
    requires
        walk_of_len(edge, s, v, k + 1),
    ensures
        edge(u, v),
        walk_of_len(edge, s, u, k),
{
    assert(walk_of_len(edge, s, v, k + 1) == exists|w: V| #[trigger] edge(w, v) && walk_of_len(edge, s, w, k));
    choose|w: V| #[trigger] edge(w, v) && walk_of_len(edge, s, w, k)
}

/// A node reachable by a walk of `m` edges has a shortest distance of at most `m`.
pub proof fn lemma_has_dist<V>(edge: spec_fn(V, V) -> bool, s: V, v: V, m: nat) -> (d: nat)
    requires
        walk_of_len(edge, s, v, m),
    ensures
        d <= m,
        is_dist(edge, s, v, d),
    decreases m,
{
    if exists|j: nat| j < m && #[trigger] walk_of_len(edge, s, v, j) {
        let j = choose|j: nat| j < m && #[trigger] walk_of_len(edge, s, v, j);
        lemma_has_dist(edge, s, v, j)
    } else {
        m
    }
}

/// The shortest distance is unique.
pub proof fn lemma_dist_unique<V>(edge: spec_fn(V, V) -> bool, s: V, v: V, d1: nat, d2: nat)
    requires
        is_dist(edge, s, v, d1),
        is_dist(edge, s, v, d2),
    ensures
        d1 == d2,
{
    if d1 < d2 {
        assert(!walk_of_len(edge, s, v, d1));
    } else if d2 < d1 {
        assert(!walk_of_len(edge, s, v, d2));
    }
}

/// The next-to-last node of a shortest walk of `d + 1` edges is at distance `d`.
pub proof fn lemma_dist_pred<V>(edge: spec_fn(V, V) -> bool, s: V, v: V, d: nat) -> (u: V)
    requires
        is_dist(edge, s, v, d + 1),
    ensures
        edge(u, v),
        is_dist(edge, s, u, d),
{
    let u = lemma_walk_pred(edge, s, v, d);
    assert forall|j: nat| j < d implies !#[trigger] walk_of_len(edge, s, u, j) by {
        if walk_of_len(edge, s, u, j) {
            lemma_walk_step(edge, s, u, v, j);
            assert(!walk_of_len(edge, s, v, j + 1));
        }
    }
    u
}

/// If some node is at distance greater than `l`, some node is at distance
/// exactly `l`.
pub proof fn lemma_dist_layer<V>(edge: spec_fn(V, V) -> bool, s: V, v: V, d: nat, l: nat) -> (w: V)
    requires
        is_dist(edge, s, v, d),
        l <= d,
    ensures
        is_dist(edge, s, w, l),
    decreases d,
{
    if d == l {
        v
    } else {
        let u = lemma_dist_pred(edge, s, v, (d - 1) as nat);
        lemma_dist_layer(edge, s, u, (d - 1) as nat, l)
    }
}

/// A walk of `m` edges to `u` followed by a walk of `k` edges from `u` is a
/// walk of `m + k` edges.
pub proof fn lemma_walk_concat<V>(edge: spec_fn(V, V) -> bool, s: V, u: V, v: V, m: nat, k: nat)
    requires
        walk_of_len(edge, s, u, m),
        walk_of_len(edge, u, v, k),
    ensures
        walk_of_len(edge, s, v, m + k),
    decreases k,
{
    if k > 0 {
        let w = lemma_walk_pred(edge, u, v, (k - 1) as nat);
        lemma_walk_concat(edge, s, u, w, m, (k - 1) as nat);
        lemma_walk_step(edge, s, w, v, (m + k - 1) as nat);
    }
}

/// Reachability is transitive.
pub proof fn lemma_reachable_trans<V>(edge: spec_fn(V, V) -> bool, s: V, u: V, v: V)
    requires
        reachable(edge, s, u),
        reachable(edge, u, v),
    ensures
        reachable(edge, s, v),
{
    let m = choose|m: nat| #[trigger] walk_of_len(edge, s, u, m);
    let k = choose|k: nat| #[trigger] walk_of_len(edge, u, v, k);
    lemma_walk_concat(edge, s, u, v, m, k);
}

/// Every node reaches itself, and an edge is a walk of one step.
pub proof fn lemma_reachable_edge<V>(edge: spec_fn(V, V) -> bool, u: V, v: V)
    ensures
        reachable(edge, u, u),
        edge(u, v) ==> reachable(edge, u, v),
{
    assert(walk_of_len(edge, u, u, 0));
    if edge(u, v) {
        lemma_walk_step(edge, u, u, v, 0);
    }
}

} // verus!
