//! Graph traversals over a storage engine's edge lists: breadth-first and
//! depth-first search, unweighted shortest paths, their temporal variants,
//! and path reconstruction from a parent map.

use std::collections::HashMap;
use std::collections::HashSet;

use vstd::prelude::*;

use crate::error::AstraeaError;
use crate::reach::{
    is_dist, lemma_dist_pred, lemma_dist_unique, lemma_has_dist, lemma_walk_step, reachable,
    walk_of_len,
};
use crate::types::{path_nodes, Direction, EdgeId, GraphPath, NodeId, ValidityInterval};

verus! {

broadcast use vstd::std_specs::hash::group_hash_axioms;

/// What a traversal reads of an edge: its identity, endpoints and validity.
#[derive(Debug, Clone, Copy, PartialEq, Eq, Structural)]
pub struct EdgeLink {
    pub id: EdgeId,
    pub source: NodeId,
    pub target: NodeId,
    pub validity: ValidityInterval,
}

/// Edge `e` is attached to `node` in the given direction.
pub open spec fn links(e: EdgeLink, node: NodeId, direction: Direction) -> bool {
    match direction {
        Direction::Outgoing => e.source == node,
        Direction::Incoming => e.target == node,
        Direction::Both => e.source == node || e.target == node,
    }
}

/// The edge-reading part of a storage engine.
pub trait EdgeSource {
    /// The edges that a successful `get_edges(node, direction)` returns, in order.
    spec fn edges_of(&self, node: NodeId, direction: Direction) -> Seq<EdgeLink>;

    /// A finite set holding every endpoint of every edge the engine hands out.
    spec fn known_nodes(&self) -> Set<NodeId>;

    /// Reads from this engine never fail.
    spec fn never_fails(&self) -> bool;

    proof fn lemma_known_nodes(&self)
        ensures
            self.known_nodes().finite(),
            forall|n: NodeId, d: Direction, i: int|
                0 <= i < self.edges_of(n, d).len() ==> {
                    &&& self.known_nodes().contains((#[trigger] self.edges_of(n, d)[i]).source)
                    &&& self.known_nodes().contains(self.edges_of(n, d)[i].target)
                },
    ;

    /// Get all edges connected to a node in the given direction.
    fn get_edges(&self, node_id: NodeId, direction: Direction) -> (r: Result<
        Vec<EdgeLink>,
        AstraeaError,
    >)
        ensures
            r matches Ok(v) ==> v@ == self.edges_of(node_id, direction),
            self.never_fails() ==> r is Ok,
    ;
}

/// An edge store held in memory, in insertion order.
pub struct EdgeList {
    edges: Vec<EdgeLink>,
}

impl View for EdgeList {
    type V = Seq<EdgeLink>;

    closed spec fn view(&self) -> Seq<EdgeLink> {
        self.edges@
    }
}

/// The endpoints of a sequence of edges.
pub open spec fn endpoints(edges: Seq<EdgeLink>) -> Set<NodeId> {
    edges.map_values(|e: EdgeLink| e.source).to_set().union(
        edges.map_values(|e: EdgeLink| e.target).to_set(),
    )
}

/// The first position holding an edge with identifier `id`, if any.
pub open spec fn position_of(edges: Seq<EdgeLink>, id: EdgeId) -> Option<int> {
    if exists|i: int| 0 <= i < edges.len() && edges[i].id == id {
        Some(
            choose|i: int|
                0 <= i < edges.len() && edges[i].id == id && forall|j: int|
                    0 <= j < i ==> edges[j].id != id,
        )
    } else {
        None
    }
}

/// Every element of a filtered sequence comes from the sequence.
pub(crate) proof fn lemma_filter_from<A>(s: Seq<A>, pred: spec_fn(A) -> bool, i: int)
    requires
        0 <= i < s.filter(pred).len(),
    ensures
        s.contains(s.filter(pred)[i]),
    decreases s.len(),
{
    reveal(Seq::filter);
    let rest = s.drop_last().filter(pred);
    if pred(s.last()) && i == rest.len() {
        assert(s[s.len() - 1] == s.filter(pred)[i]);
    } else {
        assert(s.filter(pred)[i] == rest[i]);
        lemma_filter_from(s.drop_last(), pred, i);
        let k = choose|k: int| 0 <= k < s.drop_last().len() && s.drop_last()[k] == rest[i];
        assert(s[k] == rest[i]);
    }
}

impl EdgeList {
    pub fn new() -> (r: Self)
        ensures
            r@ == Seq::<EdgeLink>::empty(),
    {
        EdgeList { edges: Vec::new() }
    }

    /// Store an edge, replacing the stored edge with the same identifier.
    pub fn put_edge(&mut self, edge: EdgeLink)
        ensures
            final(self)@ == match position_of(old(self)@, edge.id) {
                Some(i) => old(self)@.update(i, edge),
                None => old(self)@.push(edge),
            },
    {
        let mut i: usize = 0;
        while i < self.edges.len()
            invariant
                i <= self.edges@.len(),
                self.edges@ == old(self)@,
                forall|j: int| 0 <= j < i ==> self.edges@[j].id != edge.id,
            decreases self.edges@.len() - i,
        {
            if self.edges[i].id == edge.id {
                proof {
                    let p = position_of(old(self)@, edge.id);
                    assert(p is Some);
                    let k = p->0;
                    assert(k == i as int) by {
                        if k < i {
                        } else if k > i {
                            assert(old(self)@[i as int].id == edge.id);
                        }
                    }
                }
                self.edges.set(i, edge);
                return;
            }
            i = i + 1;
        }
        self.edges.push(edge);
    }

    /// The number of stored edges.
    pub fn len(&self) -> (r: usize)
        ensures
            r == self@.len(),
    {
        self.edges.len()
    }
}

impl EdgeSource for EdgeList {
    open spec fn edges_of(&self, node: NodeId, direction: Direction) -> Seq<EdgeLink> {
        self@.filter(|e: EdgeLink| links(e, node, direction))
    }

    open spec fn known_nodes(&self) -> Set<NodeId> {
        endpoints(self@)
    }

    open spec fn never_fails(&self) -> bool {
        true
    }

    proof fn lemma_known_nodes(&self) {
        broadcast use vstd::seq_lib::seq_to_set_is_finite;

        assert forall|n: NodeId, d: Direction, i: int|
            0 <= i < self.edges_of(n, d).len() implies {
            &&& self.known_nodes().contains((#[trigger] self.edges_of(n, d)[i]).source)
            &&& self.known_nodes().contains(self.edges_of(n, d)[i].target)
        } by {
            let pred = |e: EdgeLink| links(e, n, d);
            lemma_filter_from(self@, pred, i);
            let e = self@.filter(pred)[i];
            let k = choose|k: int| 0 <= k < self@.len() && self@[k] == e;
            assert(self@.map_values(|e: EdgeLink| e.source)[k] == e.source);
            assert(self@.map_values(|e: EdgeLink| e.target)[k] == e.target);
        }
    }

    fn get_edges(&self, node_id: NodeId, direction: Direction) -> (r: Result<
        Vec<EdgeLink>,
        AstraeaError,
    >) {
        let ghost pred = |e: EdgeLink| links(e, node_id, direction);
        let mut out: Vec<EdgeLink> = Vec::new();
        let mut i: usize = 0;
        while i < self.edges.len()
            invariant
                i <= self.edges@.len(),
                pred == (|e: EdgeLink| links(e, node_id, direction)),
                out@ == self.edges@.take(i as int).filter(pred),
            decreases self.edges@.len() - i,
        {
            let e = self.edges[i];
            let keep = match direction {
                Direction::Outgoing => e.source == node_id,
                Direction::Incoming => e.target == node_id,
                Direction::Both => e.source == node_id || e.target == node_id,
            };
            assert(self.edges@.take(i + 1) == self.edges@.take(i as int).push(e));
            assert(keep == pred(e));
            proof {
                self.edges@.take(i as int).lemma_filter_push(e, pred);
            }
            if keep {
                out.push(e);
            }
            i = i + 1;
        }
        assert(self.edges@.take(i as int) == self.edges@);
        Ok(out)
    }
}


/// Edge `e` may be followed at time `at`; with no time given, every edge may.
pub open spec fn usable(e: EdgeLink, at: Option<i64>) -> bool {
    match at {
        Some(t) => e.validity.holds(t),
        None => true,
    }
}

/// `g` hands out an outgoing edge of `u` that reaches `v` and may be followed at `at`.
pub open spec fn hop<G: EdgeSource>(g: &G, at: Option<i64>, u: NodeId, v: NodeId) -> bool {
    exists|i: int|
        0 <= i < g.edges_of(u, Direction::Outgoing).len() && (#[trigger] g.edges_of(
            u,
            Direction::Outgoing,
        )[i]).target == v && usable(g.edges_of(u, Direction::Outgoing)[i], at)
}

/// The edge relation that traversals of `g` at time `at` follow.
pub open spec fn hops<G: EdgeSource>(g: &G, at: Option<i64>) -> spec_fn(NodeId, NodeId) -> bool {
    |u: NodeId, v: NodeId| hop(g, at, u, v)
}

/// `r` is what a breadth-first search from `start` to depth `max_depth` finds:
/// the start at depth 0 first, then every node whose shortest distance is at
/// most `max_depth`, each once, with that distance, in order of distance.
pub open spec fn bfs_layers<G: EdgeSource>(
    g: &G,
    at: Option<i64>,
    start: NodeId,
    max_depth: usize,
    r: Seq<(NodeId, usize)>,
) -> bool {
    &&& r.len() >= 1
    &&& r[0] == (start, 0usize)
    &&& forall|i: int|
        0 <= i < r.len() ==> (#[trigger] r[i]).1 <= max_depth && is_dist(
            hops(g, at),
            start,
            r[i].0,
            r[i].1 as nat,
        )
    &&& forall|v: NodeId, d: nat|
        d <= max_depth && #[trigger] is_dist(hops(g, at), start, v, d) ==> exists|i: int|
            0 <= i < r.len() && (#[trigger] r[i]).0 == v
    &&& forall|i: int, j: int|
        0 <= i < j < r.len() ==> (#[trigger] r[i]).0 != (#[trigger] r[j]).0 && r[i].1 <= r[j].1
}

fn usable_at(e: &EdgeLink, at: Option<i64>) -> (r: bool)
    ensures
        r == usable(*e, at),
{
    match at {
        Some(t) => e.validity.contains(t),
        None => true,
    }
}

/// Distinct entries drawn from a finite set are no more than the set holds.
proof fn lemma_distinct_within<T>(r: Seq<(NodeId, T)>, u: Set<NodeId>)
    requires
        u.finite(),
        forall|i: int| 0 <= i < r.len() ==> u.contains((#[trigger] r[i]).0),
        forall|i: int, j: int| 0 <= i < j < r.len() ==> (#[trigger] r[i]).0 != (#[trigger] r[j]).0,
    ensures
        r.len() <= u.len(),
{
    let s = r.map_values(|p: (NodeId, T)| p.0);
    assert(s.no_duplicates()) by {
        assert forall|i: int, j: int| 0 <= i < s.len() && 0 <= j < s.len() && i != j implies s[i]
            != s[j] by {
            if i < j {
                assert(r[i].0 != r[j].0);
            } else {
                assert(r[j].0 != r[i].0);
            }
        }
    }
    s.unique_seq_to_set();
    assert(s.to_set().subset_of(u)) by {
        assert forall|v: NodeId| s.to_set().contains(v) implies u.contains(v) by {
            let k = choose|k: int| 0 <= k < s.len() && s[k] == v;
            assert(u.contains(r[k].0));
        }
    }
    vstd::set_lib::lemma_len_subset(s.to_set(), u);
}

/// The state of a breadth-first search from `start` that expands nodes found
/// at depth below `limit`: `r` holds the nodes found, in order, with their
/// depths; those before `head` have been expanded; `visited` holds the
/// identifiers of the nodes in `r`; all lie in the finite set `universe`.
#[verifier::opaque]
spec fn frontier_ok<G: EdgeSource>(
    g: &G,
    at: Option<i64>,
    start: NodeId,
    limit: int,
    r: Seq<(NodeId, usize)>,
    head: int,
    visited: Set<u64>,
    universe: Set<NodeId>,
) -> bool {
    &&& universe.finite()
    &&& 1 <= r.len() <= universe.len()
    &&& r[0] == (start, 0usize)
    &&& 0 <= head <= r.len()
    &&& forall|i: int| 0 <= i < r.len() ==> universe.contains((#[trigger] r[i]).0)
    &&& forall|i: int|
        0 <= i < r.len() ==> (#[trigger] r[i]).1 <= i && r[i].1 <= limit && is_dist(
            hops(g, at),
            start,
            r[i].0,
            r[i].1 as nat,
        )
    &&& forall|i: int, j: int|
        0 <= i < j < r.len() ==> (#[trigger] r[i]).0 != (#[trigger] r[j]).0 && r[i].1 <= r[j].1
    &&& head < r.len() ==> forall|i: int|
        head <= i < r.len() ==> (#[trigger] r[i]).1 <= r[head].1 + 1
    &&& forall|i: int, w: NodeId|
        0 <= i < head && r[i].1 < limit && #[trigger] hop(g, at, r[i].0, w) ==> visited.contains(
            w.0,
        )
    &&& forall|k: u64|
        visited.contains(k) <==> exists|i: int| 0 <= i < r.len() && (#[trigger] r[i]).0.0 == k
}

/// During a breadth-first search, every node whose distance is at most
/// `bound` has already been found, provided every node found at a smaller
/// distance has been expanded.
proof fn lemma_found<G: EdgeSource>(
    g: &G,
    at: Option<i64>,
    start: NodeId,
    max_depth: int,
    r: Seq<(NodeId, usize)>,
    head: int,
    visited: Set<u64>,
    bound: nat,
    v: NodeId,
    dv: nat,
)
    requires
        r.len() >= 1,
        r[0].0 == start,
        forall|i: int|
            0 <= i < r.len() ==> is_dist(hops(g, at), start, (#[trigger] r[i]).0, r[i].1 as nat),
        forall|i: int, w: NodeId|
            0 <= i < head && r[i].1 < max_depth && #[trigger] hop(g, at, r[i].0, w)
                ==> visited.contains(w.0),
        forall|k: u64|
            visited.contains(k) <==> exists|i: int| 0 <= i < r.len() && (#[trigger] r[i]).0.0 == k,
        forall|i: int| 0 <= i < r.len() && (#[trigger] r[i]).1 < bound ==> i < head,
        bound <= max_depth,
        dv <= bound,
        is_dist(hops(g, at), start, v, dv),
    ensures
        exists|j: int| 0 <= j < r.len() && (#[trigger] r[j]).0 == v,
        visited.contains(v.0),
    decreases dv,
{
    let e = hops(g, at);
    if dv == 0 {
        assert(walk_of_len(e, start, v, 0));
        assert(r[0].0 == v);
    } else {
        let u = lemma_dist_pred(e, start, v, (dv - 1) as nat);
        lemma_found(g, at, start, max_depth, r, head, visited, bound, u, (dv - 1) as nat);
        let iu = choose|j: int| 0 <= j < r.len() && (#[trigger] r[j]).0 == u;
        lemma_dist_unique(e, start, u, (dv - 1) as nat, r[iu].1 as nat);
        assert(iu < head);
        assert(hop(g, at, r[iu].0, v));
        let j = choose|j: int| 0 <= j < r.len() && (#[trigger] r[j]).0.0 == v.0;
        assert(r[j].0 == v);
    }
    let j = choose|j: int| 0 <= j < r.len() && (#[trigger] r[j]).0 == v;
    assert(r[j].0.0 == v.0);
}

/// A search starts with only its start found.
proof fn lemma_frontier_init<G: EdgeSource>(
    g: &G,
    at: Option<i64>,
    start: NodeId,
    limit: int,
    r: Seq<(NodeId, usize)>,
    visited: Set<u64>,
    universe: Set<NodeId>,
)
    requires
        r == seq![(start, 0usize)],
        visited == Set::<u64>::empty().insert(start.0),
        universe.finite(),
        universe.contains(start),
        limit >= 0,
    ensures
        frontier_ok(g, at, start, limit, r, 0, visited, universe),
{
    reveal(frontier_ok);
    assert(walk_of_len(hops(g, at), start, start, 0));
    assert(r[0] == (start, 0usize));
    lemma_distinct_within(r, universe);
    assert forall|k: u64| visited.contains(k) implies exists|i: int|
        0 <= i < r.len() && (#[trigger] r[i]).0.0 == k by {
        assert(r[0].0.0 == k);
    }
}

/// Finding a new node `v` by an edge from the node under expansion keeps the
/// search consistent; `v` is one level deeper.
proof fn lemma_frontier_new<G: EdgeSource>(
    g: &G,
    at: Option<i64>,
    start: NodeId,
    limit: int,
    r: Seq<(NodeId, usize)>,
    head: int,
    visited: Set<u64>,
    universe: Set<NodeId>,
    v: NodeId,
)
    requires
        frontier_ok(g, at, start, limit, r, head, visited, universe),
        0 <= head < r.len() <= usize::MAX,
        r[head].1 < limit,
        hop(g, at, r[head].0, v),
        !visited.contains(v.0),
        universe.contains(v),
    ensures
        r[head].1 + 1 <= r.len(),
        is_dist(hops(g, at), start, v, (r[head].1 + 1) as nat),
        frontier_ok(
            g,
            at,
            start,
            limit,
            r.push((v, (r[head].1 + 1) as usize)),
            head,
            visited.insert(v.0),
            universe,
        ),
{
    reveal(frontier_ok);
    let e = hops(g, at);
    let depth = r[head].1;
    let r2 = r.push((v, (depth + 1) as usize));
    let visited2 = visited.insert(v.0);
    lemma_walk_step(e, start, r[head].0, v, depth as nat);
    assert forall|j: nat| j < depth + 1 implies !#[trigger] walk_of_len(e, start, v, j) by {
        if walk_of_len(e, start, v, j) {
            let dn = lemma_has_dist(e, start, v, j);
            assert forall|i: int| 0 <= i < r.len() && (#[trigger] r[i]).1 < depth implies i
                < head by {
                if i >= head {
                    assert(r[head].1 <= r[i].1);
                }
            }
            lemma_found(g, at, start, limit, r, head, visited, depth as nat, v, dn);
        }
    }
    assert(r2[r2.len() - 1] == (v, (depth + 1) as usize));
    assert forall|i: int| 0 <= i < r2.len() implies universe.contains((#[trigger] r2[i]).0) by {
        if i < r.len() {
            assert(r2[i] == r[i]);
        }
    }
    assert forall|i: int|
        0 <= i < r2.len() implies (#[trigger] r2[i]).1 <= i && r2[i].1 <= limit && is_dist(
        e,
        start,
        r2[i].0,
        r2[i].1 as nat,
    ) by {
        if i < r.len() {
            assert(r2[i] == r[i]);
        }
    }
    assert forall|i: int, j: int|
        0 <= i < j < r2.len() implies (#[trigger] r2[i]).0 != (#[trigger] r2[j]).0 && r2[i].1
        <= r2[j].1 by {
        assert(r2[i] == r[i]);
        if j == r2.len() - 1 {
            if r[i].0 == v {
                assert(r[i].0.0 == v.0);
            }
            if i < head {
                assert(r[i].1 <= r[head].1);
            }
        } else {
            assert(r2[j] == r[j]);
        }
    }
    assert forall|i: int| head <= i < r2.len() implies (#[trigger] r2[i]).1 <= r2[head].1 + 1 by {
        if i < r.len() {
            assert(r2[i] == r[i]);
        }
    }
    assert forall|i: int, w: NodeId|
        0 <= i < head && r2[i].1 < limit && #[trigger] hop(g, at, r2[i].0, w) implies visited2.contains(
        w.0,
    ) by {
        assert(r2[i] == r[i]);
    }
    assert forall|k: u64|
        visited2.contains(k) <==> exists|i: int| 0 <= i < r2.len() && (#[trigger] r2[i]).0.0 == k by {
        if visited2.contains(k) {
            if k == v.0 {
                assert(r2[r2.len() - 1].0.0 == k);
            } else {
                let i = choose|i: int| 0 <= i < r.len() && (#[trigger] r[i]).0.0 == k;
                assert(r2[i] == r[i]);
            }
        }
        if exists|i: int| 0 <= i < r2.len() && (#[trigger] r2[i]).0.0 == k {
            let i = choose|i: int| 0 <= i < r2.len() && (#[trigger] r2[i]).0.0 == k;
            if i < r.len() {
                assert(r2[i] == r[i]);
            }
        }
    }
    lemma_distinct_within(r2, universe);
}

/// Once every edge of the node under expansion has been looked at, the
/// search moves on to the next node.
proof fn lemma_frontier_advance<G: EdgeSource>(
    g: &G,
    at: Option<i64>,
    start: NodeId,
    limit: int,
    r: Seq<(NodeId, usize)>,
    head: int,
    visited: Set<u64>,
    universe: Set<NodeId>,
)
    requires
        frontier_ok(g, at, start, limit, r, head, visited, universe),
        0 <= head < r.len(),
        r[head].1 < limit ==> forall|w: NodeId| #[trigger]
            hop(g, at, r[head].0, w) ==> visited.contains(w.0),
    ensures
        frontier_ok(g, at, start, limit, r, head + 1, visited, universe),
{
    reveal(frontier_ok);
    if head + 1 < r.len() {
        assert forall|i: int| head + 1 <= i < r.len() implies (#[trigger] r[i]).1 <= r[head + 1].1
            + 1 by {
            assert(r[head].1 <= r[head + 1].1);
        }
    }
}

/// The facts about a search state that its users read directly.
proof fn lemma_frontier_facts<G: EdgeSource>(
    g: &G,
    at: Option<i64>,
    start: NodeId,
    limit: int,
    r: Seq<(NodeId, usize)>,
    head: int,
    visited: Set<u64>,
    universe: Set<NodeId>,
)
    requires
        frontier_ok(g, at, start, limit, r, head, visited, universe),
    ensures
        universe.finite(),
        1 <= r.len() <= universe.len(),
        0 <= head <= r.len(),
        r[0] == (start, 0usize),
        visited.contains(start.0),
        forall|i: int| 0 <= i < r.len() ==> (#[trigger] r[i]).1 <= i,
        forall|i: int| 0 <= i < r.len() ==> visited.contains((#[trigger] r[i]).0.0),
        forall|i: int|
            0 <= i < r.len() ==> is_dist(hops(g, at), start, (#[trigger] r[i]).0, r[i].1 as nat),
{
    reveal(frontier_ok);
    assert(r[0].0.0 == start.0);
}

/// When nothing is left to expand, every node within the depth limit has
/// been found (every node at all, where the limit exceeds every depth).
proof fn lemma_frontier_complete<G: EdgeSource>(
    g: &G,
    at: Option<i64>,
    start: NodeId,
    limit: int,
    r: Seq<(NodeId, usize)>,
    visited: Set<u64>,
    universe: Set<NodeId>,
    v: NodeId,
    d: nat,
)
    requires
        frontier_ok(g, at, start, limit, r, r.len() as int, visited, universe),
        is_dist(hops(g, at), start, v, d),
        d <= limit || limit > usize::MAX,
    ensures
        exists|j: int| 0 <= j < r.len() && (#[trigger] r[j]).0 == v,
        visited.contains(v.0),
{
    reveal(frontier_ok);
    let m: int = if d <= limit {
        limit
    } else {
        d as int
    };
    lemma_found(g, at, start, m, r, r.len() as int, visited, d, v, d);
}

/// A breadth-first search in progress: the identifiers of the nodes
/// visited, the nodes found in order with their depths, and how many of
/// them have been taken off the front of the queue (the queue being the
/// found nodes not yet taken).
pub struct BfsState {
    pub visited: Set<u64>,
    pub found: Seq<(NodeId, usize)>,
    pub head: nat,
}

/// Follow `edges` in order from a node whose neighbours lie at `depth`:
/// each edge usable at `at` whose target is not yet visited visits it and
/// appends it, at `depth`, to `found`.
pub open spec fn bfs_discover(
    edges: Seq<EdgeLink>,
    at: Option<i64>,
    visited: Set<u64>,
    found: Seq<(NodeId, usize)>,
    depth: usize,
) -> (Set<u64>, Seq<(NodeId, usize)>)
    decreases edges.len(),
{
    if edges.len() == 0 {
        (visited, found)
    } else {
        let prev = bfs_discover(edges.drop_last(), at, visited, found, depth);
        let e = edges.last();
        if usable(e, at) && !prev.0.contains(e.target.0) {
            (prev.0.insert(e.target.0), prev.1.push((e.target, depth)))
        } else {
            prev
        }
    }
}

/// One step of the search: take the next node off the queue and, when it
/// lies above `max_depth`, follow its outgoing edges.
pub open spec fn bfs_step<G: EdgeSource>(
    g: &G,
    at: Option<i64>,
    max_depth: usize,
    s: BfsState,
) -> BfsState {
    if s.head >= s.found.len() {
        s
    } else {
        let cur = s.found[s.head as int].0;
        let depth = s.found[s.head as int].1;
        if depth < max_depth {
            let next = bfs_discover(
                g.edges_of(cur, Direction::Outgoing),
                at,
                s.visited,
                s.found,
                (depth + 1) as usize,
            );
            BfsState { visited: next.0, found: next.1, head: s.head + 1 }
        } else {
            BfsState { visited: s.visited, found: s.found, head: s.head + 1 }
        }
    }
}

/// The search from `start` after `n` steps, starting with the start found
/// at depth 0.
pub open spec fn bfs_run<G: EdgeSource>(
    g: &G,
    at: Option<i64>,
    start: NodeId,
    max_depth: usize,
    n: nat,
) -> BfsState
    decreases n,
{
    if n == 0 {
        BfsState {
            visited: Set::empty().insert(start.0),
            found: seq![(start, 0usize)],
            head: 0,
        }
    } else {
        bfs_step(g, at, max_depth, bfs_run(g, at, start, max_depth, (n - 1) as nat))
    }
}

/// `r` is the breadth-first order from `start`: what the search has found
/// when its queue runs empty.
pub open spec fn bfs_order<G: EdgeSource>(
    g: &G,
    at: Option<i64>,
    start: NodeId,
    max_depth: usize,
    r: Seq<(NodeId, usize)>,
) -> bool {
    exists|n: nat|
        (#[trigger] bfs_run(g, at, start, max_depth, n)).head >= bfs_run(
            g,
            at,
            start,
            max_depth,
            n,
        ).found.len() && bfs_run(g, at, start, max_depth, n).found == r
}

fn bfs_from<G: EdgeSource>(g: &G, start: NodeId, max_depth: usize, at: Option<i64>) -> (r: Result<
    Vec<(NodeId, usize)>,
    AstraeaError,
>)
    ensures
        r matches Ok(v) ==> bfs_layers(g, at, start, max_depth, v@),
        r matches Ok(v) ==> bfs_order(g, at, start, max_depth, v@),
        g.never_fails() ==> r is Ok,
{
    let ghost limit = max_depth as int;
    proof {
        g.lemma_known_nodes();
    }
    let ghost universe = g.known_nodes().insert(start);
    let mut visited: HashSet<u64> = HashSet::new();
    let mut result: Vec<(NodeId, usize)> = Vec::new();
    visited.insert(start.0);
    result.push((start, 0));
    proof {
        assert(result@ == seq![(start, 0usize)]);
        lemma_frontier_init(g, at, start, limit, result@, visited@, universe);
    }
    let mut head: usize = 0;
    let ghost mut steps: nat = 0;
    assert(bfs_run(g, at, start, max_depth, 0) == (BfsState {
        visited: visited@,
        found: result@,
        head: 0,
    }));
    while head < result.len()
        invariant
            limit == max_depth as int,
            universe == g.known_nodes().insert(start),
            forall|n: NodeId, d: Direction, i: int|
                0 <= i < g.edges_of(n, d).len() ==> g.known_nodes().contains(
                    (#[trigger] g.edges_of(n, d)[i]).target,
                ),
            frontier_ok(g, at, start, limit, result@, head as int, visited@, universe),
            bfs_run(g, at, start, max_depth, steps) == (BfsState {
                visited: visited@,
                found: result@,
                head: head as nat,
            }),
        decreases 2 * universe.len() - result@.len() - head,
    {
        proof {
            lemma_frontier_facts(g, at, start, limit, result@, head as int, visited@, universe);
        }
        let current = result[head].0;
        let depth = result[head].1;
        if depth < max_depth {
            let edges = match g.get_edges(current, Direction::Outgoing) {
                Ok(v) => v,
                Err(err) => {
                    return Err(err);
                },
            };
            let ghost len0 = result@.len();
            let ghost visited0 = visited@;
            let ghost found0 = result@;
            let mut k: usize = 0;
            while k < edges.len()
                invariant
                    limit == max_depth as int,
                    universe == g.known_nodes().insert(start),
                    forall|n: NodeId, d: Direction, i: int|
                        0 <= i < g.edges_of(n, d).len() ==> g.known_nodes().contains(
                            (#[trigger] g.edges_of(n, d)[i]).target,
                        ),
                    frontier_ok(g, at, start, limit, result@, head as int, visited@, universe),
                    edges@ == g.edges_of(current, Direction::Outgoing),
                    k <= edges@.len(),
                    head < len0 <= result@.len(),
                    current == result@[head as int].0,
                    depth == result@[head as int].1,
                    depth < max_depth,
                    forall|m: int|
                        0 <= m < k && usable(#[trigger] edges@[m], at) ==> visited@.contains(
                            edges@[m].target.0,
                        ),
                    (visited@, result@) == bfs_discover(
                        edges@.take(k as int),
                        at,
                        visited0,
                        found0,
                        (depth + 1) as usize,
                    ),
                decreases edges@.len() - k,
            {
                let edge = edges[k];
                proof {
                    assert(edges@.take(k + 1).drop_last() == edges@.take(k as int));
                    assert(edges@.take(k + 1).last() == edge);
                }
                if usable_at(&edge, at) {
                    let neighbor = edge.target;
                    let ghost old_visited = visited@;
                    // Reading the length bounds the depth about to be recorded.
                    let _queued = result.len();
                    if visited.insert(neighbor.0) {
                        proof {
                            assert(g.edges_of(current, Direction::Outgoing)[k as int] == edge);
                            assert(hop(g, at, current, neighbor));
                            lemma_frontier_new(
                                g,
                                at,
                                start,
                                limit,
                                result@,
                                head as int,
                                old_visited,
                                universe,
                                neighbor,
                            );
                        }
                        result.push((neighbor, depth + 1));
                    } else {
                        assert(visited@ =~= old_visited);
                    }
                }
                k = k + 1;
            }
            proof {
                assert forall|w: NodeId| #[trigger] hop(g, at, current, w) implies visited@.contains(
                    w.0,
                ) by {
                    let m = choose|m: int|
                        0 <= m < g.edges_of(current, Direction::Outgoing).len() && (
                        #[trigger] g.edges_of(current, Direction::Outgoing)[m]).target == w
                            && usable(g.edges_of(current, Direction::Outgoing)[m], at);
                    assert(usable(edges@[m], at));
                }
                assert(edges@.take(edges@.len() as int) == edges@);
            }
        }
        proof {
            steps = steps + 1;
            lemma_frontier_advance(g, at, start, limit, result@, head as int, visited@, universe);
            lemma_frontier_facts(g, at, start, limit, result@, head + 1, visited@, universe);
        }
        head = head + 1;
    }
    proof {
        lemma_frontier_facts(g, at, start, limit, result@, head as int, visited@, universe);
        lemma_frontier_layers(g, at, start, max_depth, result@, visited@, universe);
    }
    let outcome: Result<Vec<(NodeId, usize)>, AstraeaError> = Ok(result);
    assert(outcome matches Ok(v) ==> bfs_run(g, at, start, max_depth, steps).found == v@);
    outcome
}

proof fn lemma_frontier_layers<G: EdgeSource>(
    g: &G,
    at: Option<i64>,
    start: NodeId,
    max_depth: usize,
    r: Seq<(NodeId, usize)>,
    visited: Set<u64>,
    universe: Set<NodeId>,
)
    requires
        frontier_ok(g, at, start, max_depth as int, r, r.len() as int, visited, universe),
    ensures
        bfs_layers(g, at, start, max_depth, r),
{
    assert forall|v: NodeId, d: nat|
        d <= max_depth && #[trigger] is_dist(hops(g, at), start, v, d) implies exists|i: int|
            0 <= i < r.len() && (#[trigger] r[i]).0 == v by {
        lemma_frontier_complete(g, at, start, max_depth as int, r, visited, universe, v, d);
    }
    reveal(frontier_ok);
}

/// Breadth-first search from `start` up to `max_depth`.
/// Returns all discovered nodes with their depth from start.
pub fn bfs<G: EdgeSource>(storage: &G, start: NodeId, max_depth: usize) -> (r: Result<
    Vec<(NodeId, usize)>,
    AstraeaError,
>)
    ensures
        r matches Ok(v) ==> bfs_layers(storage, None, start, max_depth, v@),
        r matches Ok(v) ==> bfs_order(storage, None, start, max_depth, v@),
        storage.never_fails() ==> r is Ok,
{
    bfs_from(storage, start, max_depth, None)
}

/// Breadth-first search from `start` up to `max_depth`, only traversing edges
/// whose validity interval contains `timestamp`.
pub fn bfs_at<G: EdgeSource>(storage: &G, start: NodeId, max_depth: usize, timestamp: i64) -> (r:
    Result<Vec<(NodeId, usize)>, AstraeaError>)
    ensures
        r matches Ok(v) ==> bfs_layers(storage, Some(timestamp), start, max_depth, v@),
        r matches Ok(v) ==> bfs_order(storage, Some(timestamp), start, max_depth, v@),
        storage.never_fails() ==> r is Ok,
{
    bfs_from(storage, start, max_depth, Some(timestamp))
}


/// `r` is what a depth-first search from `start` to depth `max_depth` finds,
/// with `dep` the depth at which each node was found: the start first at
/// depth 0, each node once, every later node one level below an earlier node
/// that has an edge to it, no node deeper than `max_depth`, and every edge out
/// of a node above that depth leading to a found node.
pub open spec fn dfs_tree<G: EdgeSource>(
    g: &G,
    start: NodeId,
    max_depth: usize,
    r: Seq<NodeId>,
    dep: Seq<nat>,
) -> bool {
    &&& r.len() >= 1
    &&& r[0] == start
    &&& dep.len() == r.len()
    &&& dep[0] == 0
    &&& forall|i: int| 0 <= i < r.len() ==> #[trigger] dep[i] <= max_depth
    &&& forall|i: int| 1 <= i < r.len() ==> #[trigger] found_from(g, r, dep, i)
    &&& forall|i: int, w: NodeId|
        0 <= i < r.len() && dep[i] < max_depth && #[trigger] hop(g, None, r[i], w) ==> r.contains(
            w,
        )
    &&& r.no_duplicates()
}

/// Node `i` of `r` is one level below an earlier node with an edge to it.
pub open spec fn found_from<G: EdgeSource>(g: &G, r: Seq<NodeId>, dep: Seq<nat>, i: int) -> bool {
    exists|j: int| 0 <= j < i && #[trigger] hop(g, None, r[j], r[i]) && dep[i] == dep[j] + 1
}

/// Some entry of the stack holds node `w`.
spec fn on_stack(st: Seq<(NodeId, usize)>, w: NodeId) -> bool {
    exists|s: int| 0 <= s < st.len() && (#[trigger] st[s]).0 == w
}

/// The state of a depth-first search from `start`: `r` holds the nodes found,
/// in order, found at depths `dep`; `st` is the stack of nodes still to be
/// popped, each with its depth; `visited` holds the identifiers of the nodes
/// in `r`; every found node except the one at index `open`, whose edges are
/// being pushed, has had its edges pushed.
#[verifier::opaque]
spec fn dfs_ok<G: EdgeSource>(
    g: &G,
    start: NodeId,
    max_depth: usize,
    r: Seq<NodeId>,
    dep: Seq<nat>,
    st: Seq<(NodeId, usize)>,
    visited: Set<u64>,
    universe: Set<NodeId>,
    open: int,
) -> bool {
    &&& universe.finite()
    &&& universe.contains(start)
    &&& r.len() <= universe.len()
    &&& forall|i: int| 0 <= i < r.len() ==> universe.contains(#[trigger] r[i])
    &&& dep.len() == r.len()
    &&& r.len() == 0 ==> st == seq![(start, 0usize)]
    &&& r.len() > 0 ==> r[0] == start && dep[0] == 0
    &&& forall|i: int| 0 <= i < r.len() ==> #[trigger] dep[i] <= max_depth
    &&& forall|i: int| 1 <= i < r.len() ==> #[trigger] found_from(g, r, dep, i)
    &&& r.len() > 0 ==> forall|s: int|
        0 <= s < st.len() ==> universe.contains((#[trigger] st[s]).0) && exists|j: int|
            0 <= j < r.len() && #[trigger] hop(g, None, r[j], st[s].0) && st[s].1 == dep[j] + 1
                && dep[j] < max_depth
    &&& forall|i: int, w: NodeId|
        0 <= i < r.len() && i != open && dep[i] < max_depth && #[trigger] hop(g, None, r[i], w)
            ==> visited.contains(w.0) || on_stack(st, w)
    &&& forall|k: u64|
        visited.contains(k) <==> exists|i: int| 0 <= i < r.len() && (#[trigger] r[i]).0 == k
    &&& forall|i: int, j: int| 0 <= i < j < r.len() ==> #[trigger] r[i] != #[trigger] r[j]
}

proof fn lemma_dfs_facts<G: EdgeSource>(
    g: &G,
    start: NodeId,
    max_depth: usize,
    r: Seq<NodeId>,
    dep: Seq<nat>,
    st: Seq<(NodeId, usize)>,
    visited: Set<u64>,
    universe: Set<NodeId>,
    open: int,
)
    requires
        dfs_ok(g, start, max_depth, r, dep, st, visited, universe, open),
    ensures
        universe.finite(),
        r.len() <= universe.len(),
        dep.len() == r.len(),
        forall|i: int| 0 <= i < r.len() ==> #[trigger] dep[i] <= max_depth,
        forall|i: int| 0 <= i < r.len() ==> visited.contains((#[trigger] r[i]).0),
        r.len() > 0 ==> forall|s: int| 0 <= s < st.len() ==> (#[trigger] st[s]).1 <= max_depth,
{
    reveal(dfs_ok);
    if r.len() > 0 {
        assert forall|s: int| 0 <= s < st.len() implies (#[trigger] st[s]).1 <= max_depth by {
            let j = choose|j: int|
                0 <= j < r.len() && #[trigger] hop(g, None, r[j], st[s].0) && st[s].1 == dep[j] + 1
                    && dep[j] < max_depth;
        }
    }
}

/// Popping a node already found keeps the search consistent.
#[verifier::spinoff_prover]
proof fn lemma_dfs_pop_seen<G: EdgeSource>(
    g: &G,
    start: NodeId,
    max_depth: usize,
    r: Seq<NodeId>,
    dep: Seq<nat>,
    st: Seq<(NodeId, usize)>,
    visited: Set<u64>,
    universe: Set<NodeId>,
)
    requires
        dfs_ok(g, start, max_depth, r, dep, st, visited, universe, -1),
        st.len() > 0,
        visited.contains(st.last().0.0),
    ensures
        dfs_ok(g, start, max_depth, r, dep, st.drop_last(), visited, universe, -1),
{
    reveal(dfs_ok);
    let st2 = st.drop_last();
    if r.len() == 0 {
        assert(false);
    }
    assert forall|s: int| 0 <= s < st2.len() implies universe.contains((#[trigger] st2[s]).0)
        && exists|j: int|
        0 <= j < r.len() && #[trigger] hop(g, None, r[j], st2[s].0) && st2[s].1 == dep[j] + 1
            && dep[j] < max_depth by {
        assert(st2[s] == st[s]);
    }
    assert forall|i: int, w: NodeId|
        0 <= i < r.len() && i != -1 && dep[i] < max_depth && #[trigger] hop(g, None, r[i], w)
            implies visited.contains(w.0) || on_stack(st2, w) by {
        if !visited.contains(w.0) {
            let s = choose|s: int| 0 <= s < st.len() && (#[trigger] st[s]).0 == w;
            if s == st.len() - 1 {
                assert(false);
            }
            assert(st2[s] == st[s]);
        }
    }
}

/// Popping a node not yet found records it at the depth it was pushed with;
/// its edges are then to be pushed.
#[verifier::spinoff_prover]
proof fn lemma_dfs_pop_new<G: EdgeSource>(
    g: &G,
    start: NodeId,
    max_depth: usize,
    r: Seq<NodeId>,
    dep: Seq<nat>,
    st: Seq<(NodeId, usize)>,
    visited: Set<u64>,
    universe: Set<NodeId>,
)
    requires
        dfs_ok(g, start, max_depth, r, dep, st, visited, universe, -1),
        st.len() > 0,
        !visited.contains(st.last().0.0),
    ensures
        dfs_ok(
            g,
            start,
            max_depth,
            r.push(st.last().0),
            dep.push(st.last().1 as nat),
            st.drop_last(),
            visited.insert(st.last().0.0),
            universe,
            r.len() as int,
        ),
{
    reveal(dfs_ok);
    let (v, d) = st.last();
    let r2 = r.push(v);
    let dep2 = dep.push(d as nat);
    let st2 = st.drop_last();
    let visited2 = visited.insert(v.0);
    assert(universe.contains(v)) by {
        if r.len() > 0 {
            assert(universe.contains(st[st.len() - 1].0));
        }
    }
    assert forall|i: int| 0 <= i < r2.len() implies universe.contains(#[trigger] r2[i]) by {
        if i < r.len() {
            assert(r2[i] == r[i]);
        }
    }
    assert forall|i: int, j: int| 0 <= i < j < r2.len() implies #[trigger] r2[i] != #[trigger] r2[j] by {
        assert(r2[i] == r[i]);
        if j == r.len() {
            if r[i] == v {
                assert(visited.contains(r[i].0));
            }
        } else {
            assert(r2[j] == r[j]);
        }
    }
    lemma_distinct_nodes_within(r2, universe);
    assert forall|i: int| 0 <= i < r2.len() implies #[trigger] dep2[i] <= max_depth by {
        if i < r.len() {
            assert(dep2[i] == dep[i]);
        } else if r.len() > 0 {
            assert(st[st.len() - 1].1 == d);
        }
    }
    assert forall|i: int| 1 <= i < r2.len() implies #[trigger] found_from(g, r2, dep2, i) by {
        if i < r.len() {
            assert(r2[i] == r[i] && dep2[i] == dep[i]);
            assert(found_from(g, r, dep, i));
            let j = choose|j: int|
                0 <= j < i && #[trigger] hop(g, None, r[j], r[i]) && dep[i] == dep[j] + 1;
            assert(r2[j] == r[j] && dep2[j] == dep[j]);
            assert(hop(g, None, r2[j], r2[i]));
        } else {
            assert(st[st.len() - 1] == (v, d));
            let j = choose|j: int|
                0 <= j < r.len() && #[trigger] hop(g, None, r[j], st[st.len() - 1].0) && st[st.len()
                    - 1].1 == dep[j] + 1 && dep[j] < max_depth;
            assert(r2[j] == r[j] && dep2[j] == dep[j]);
            assert(hop(g, None, r2[j], r2[i]));
        }
    }
    assert forall|s: int| 0 <= s < st2.len() implies universe.contains((#[trigger] st2[s]).0)
        && exists|j: int|
        0 <= j < r2.len() && #[trigger] hop(g, None, r2[j], st2[s].0) && st2[s].1 == dep2[j] + 1
            && dep2[j] < max_depth by {
        assert(st2[s] == st[s]);
        if r.len() == 0 {
            assert(false);
        }
        let j = choose|j: int|
            0 <= j < r.len() && #[trigger] hop(g, None, r[j], st[s].0) && st[s].1 == dep[j] + 1
                && dep[j] < max_depth;
        assert(r2[j] == r[j] && dep2[j] == dep[j]);
    }
    assert forall|i: int, w: NodeId|
        0 <= i < r2.len() && i != r.len() && dep2[i] < max_depth && #[trigger] hop(
            g,
            None,
            r2[i],
            w,
        ) implies visited2.contains(w.0) || on_stack(st2, w) by {
        assert(r2[i] == r[i] && dep2[i] == dep[i]);
        if !visited2.contains(w.0) {
            let s = choose|s: int| 0 <= s < st.len() && (#[trigger] st[s]).0 == w;
            if s == st.len() - 1 {
                assert(false);
            }
            assert(st2[s] == st[s]);
        }
    }
    assert forall|k: u64|
        visited2.contains(k) <==> exists|i: int| 0 <= i < r2.len() && (#[trigger] r2[i]).0 == k by {
        if visited2.contains(k) {
            if k == v.0 {
                assert(r2[r.len() as int].0 == k);
            } else {
                let i = choose|i: int| 0 <= i < r.len() && (#[trigger] r[i]).0 == k;
                assert(r2[i] == r[i]);
            }
        }
        if exists|i: int| 0 <= i < r2.len() && (#[trigger] r2[i]).0 == k {
            let i = choose|i: int| 0 <= i < r2.len() && (#[trigger] r2[i]).0 == k;
            if i < r.len() {
                assert(r2[i] == r[i]);
            }
        }
    }
}

/// Distinct nodes drawn from a finite set are no more than the set holds.
proof fn lemma_distinct_nodes_within(r: Seq<NodeId>, u: Set<NodeId>)
    requires
        u.finite(),
        forall|i: int| 0 <= i < r.len() ==> u.contains(#[trigger] r[i]),
        forall|i: int, j: int| 0 <= i < j < r.len() ==> #[trigger] r[i] != #[trigger] r[j],
    ensures
        r.len() <= u.len(),
{
    let p = r.map_values(|n: NodeId| (n, 0nat));
    assert forall|i: int| 0 <= i < p.len() implies u.contains((#[trigger] p[i]).0) by {
        assert(p[i].0 == r[i]);
    }
    assert forall|i: int, j: int| 0 <= i < j < p.len() implies (#[trigger] p[i]).0 != (
    #[trigger] p[j]).0 by {
        assert(p[i].0 == r[i] && p[j].0 == r[j]);
    }
    lemma_distinct_within(p, u);
}

/// Pushing an edge target of the node under expansion keeps the search consistent.
#[verifier::spinoff_prover]
proof fn lemma_dfs_push<G: EdgeSource>(
    g: &G,
    start: NodeId,
    max_depth: usize,
    r: Seq<NodeId>,
    dep: Seq<nat>,
    st: Seq<(NodeId, usize)>,
    visited: Set<u64>,
    universe: Set<NodeId>,
    open: int,
    w: NodeId,
)
    requires
        dfs_ok(g, start, max_depth, r, dep, st, visited, universe, open),
        0 <= open < r.len(),
        dep[open] < max_depth,
        hop(g, None, r[open], w),
        universe.contains(w),
    ensures
        dfs_ok(
            g,
            start,
            max_depth,
            r,
            dep,
            st.push((w, (dep[open] + 1) as usize)),
            visited,
            universe,
            open,
        ),
        forall|x: NodeId| on_stack(st, x) ==> #[trigger] on_stack(st.push((w, (dep[open] + 1) as usize)), x),
        on_stack(st.push((w, (dep[open] + 1) as usize)), w),
{
    reveal(dfs_ok);
    let st2 = st.push((w, (dep[open] + 1) as usize));
    assert(st2[st.len() as int] == (w, (dep[open] + 1) as usize));
    assert forall|x: NodeId| on_stack(st, x) implies #[trigger] on_stack(st2, x) by {
        let s = choose|s: int| 0 <= s < st.len() && (#[trigger] st[s]).0 == x;
        assert(st2[s] == st[s]);
    }
    assert forall|s: int| 0 <= s < st2.len() implies universe.contains((#[trigger] st2[s]).0)
        && exists|j: int|
        0 <= j < r.len() && #[trigger] hop(g, None, r[j], st2[s].0) && st2[s].1 == dep[j] + 1
            && dep[j] < max_depth by {
        if s < st.len() {
            assert(st2[s] == st[s]);
        } else {
            assert(hop(g, None, r[open], st2[s].0));
        }
    }
    assert forall|i: int, x: NodeId|
        0 <= i < r.len() && i != open && dep[i] < max_depth && #[trigger] hop(g, None, r[i], x)
            implies visited.contains(x.0) || on_stack(st2, x) by {
        if !visited.contains(x.0) {
            assert(on_stack(st, x));
        }
    }
}

/// Once every edge of the node under expansion is accounted for, no node is
/// under expansion.
#[verifier::spinoff_prover]
proof fn lemma_dfs_close<G: EdgeSource>(
    g: &G,
    start: NodeId,
    max_depth: usize,
    r: Seq<NodeId>,
    dep: Seq<nat>,
    st: Seq<(NodeId, usize)>,
    visited: Set<u64>,
    universe: Set<NodeId>,
    open: int,
)
    requires
        dfs_ok(g, start, max_depth, r, dep, st, visited, universe, open),
        0 <= open < r.len(),
        dep[open] < max_depth ==> forall|w: NodeId|
            #[trigger] hop(g, None, r[open], w) ==> visited.contains(w.0) || on_stack(st, w),
    ensures
        dfs_ok(g, start, max_depth, r, dep, st, visited, universe, -1),
{
    reveal(dfs_ok);
    assert forall|i: int, w: NodeId|
        0 <= i < r.len() && i != -1 && dep[i] < max_depth && #[trigger] hop(g, None, r[i], w)
            implies visited.contains(w.0) || on_stack(st, w) by {
        if i == open {
            assert(hop(g, None, r[open], w));
        }
    }
}

/// When the stack is empty the search has found its tree.
#[verifier::spinoff_prover]
proof fn lemma_dfs_done<G: EdgeSource>(
    g: &G,
    start: NodeId,
    max_depth: usize,
    r: Seq<NodeId>,
    dep: Seq<nat>,
    st: Seq<(NodeId, usize)>,
    visited: Set<u64>,
    universe: Set<NodeId>,
)
    requires
        dfs_ok(g, start, max_depth, r, dep, st, visited, universe, -1),
        st.len() == 0,
    ensures
        dfs_tree(g, start, max_depth, r, dep),
{
    reveal(dfs_ok);
    if r.len() == 0 {
        assert(st.len() == 1);
    }
    assert forall|i: int, w: NodeId|
        0 <= i < r.len() && dep[i] < max_depth && #[trigger] hop(g, None, r[i], w) implies r.contains(
        w,
    ) by {
        assert(visited.contains(w.0));
        let j = choose|j: int| 0 <= j < r.len() && (#[trigger] r[j]).0 == w.0;
        assert(r[j] == w);
    }
    assert(r.no_duplicates()) by {
        assert forall|i: int, j: int| 0 <= i < r.len() && 0 <= j < r.len() && i != j implies r[i]
            != r[j] by {
            if i < j {
                assert(r[i] != r[j]);
            } else {
                assert(r[j] != r[i]);
            }
        }
    }
}

/// A depth-first search in progress: the identifiers of the nodes visited,
/// the nodes found in order, and the stack of (node, depth) still to pop,
/// top last.
pub struct DfsState {
    pub visited: Set<u64>,
    pub found: Seq<NodeId>,
    pub stack: Seq<(NodeId, usize)>,
}

/// What visiting a node pushes: the targets of its outgoing `edges`, last
/// edge first, that are not `visited`, each at depth `depth`.
pub open spec fn dfs_pushes(edges: Seq<EdgeLink>, visited: Set<u64>, depth: usize) -> Seq<
    (NodeId, usize),
>
    decreases edges.len(),
{
    if edges.len() == 0 {
        Seq::empty()
    } else {
        let rest = dfs_pushes(edges.drop_first(), visited, depth);
        if visited.contains(edges[0].target.0) {
            rest
        } else {
            rest.push((edges[0].target, depth))
        }
    }
}

/// One step of the search: pop the top of the stack; a node not visited
/// before is visited and found and, when above `max_depth`, has the
/// unvisited targets of its outgoing edges pushed one level deeper.
pub open spec fn dfs_step<G: EdgeSource>(g: &G, max_depth: usize, s: DfsState) -> DfsState {
    if s.stack.len() == 0 {
        s
    } else {
        let cur = s.stack.last().0;
        let depth = s.stack.last().1;
        let rest = s.stack.drop_last();
        if s.visited.contains(cur.0) {
            DfsState { visited: s.visited, found: s.found, stack: rest }
        } else {
            let visited = s.visited.insert(cur.0);
            let found = s.found.push(cur);
            if depth >= max_depth {
                DfsState { visited, found, stack: rest }
            } else {
                DfsState {
                    visited,
                    found,
                    stack: rest + dfs_pushes(
                        g.edges_of(cur, Direction::Outgoing),
                        visited,
                        (depth + 1) as usize,
                    ),
                }
            }
        }
    }
}

/// The search from `start` after `n` steps, starting from a stack that
/// holds the start at depth 0.
pub open spec fn dfs_run<G: EdgeSource>(g: &G, start: NodeId, max_depth: usize, n: nat) -> DfsState
    decreases n,
{
    if n == 0 {
        DfsState { visited: Set::empty(), found: Seq::empty(), stack: seq![(start, 0usize)] }
    } else {
        dfs_step(g, max_depth, dfs_run(g, start, max_depth, (n - 1) as nat))
    }
}

/// `r` is the depth-first order from `start`: what the search has found
/// when its stack runs empty.
pub open spec fn dfs_order<G: EdgeSource>(g: &G, start: NodeId, max_depth: usize, r: Seq<NodeId>) -> bool {
    exists|n: nat|
        (#[trigger] dfs_run(g, start, max_depth, n)).stack.len() == 0 && dfs_run(
            g,
            start,
            max_depth,
            n,
        ).found == r
}

/// Depth-first search from `start` up to `max_depth`.
/// Returns all discovered nodes in DFS order.
pub fn dfs<G: EdgeSource>(storage: &G, start: NodeId, max_depth: usize) -> (r: Result<
    Vec<NodeId>,
    AstraeaError,
>)
    ensures
        r matches Ok(v) ==> exists|depths: Seq<nat>| dfs_tree(storage, start, max_depth, v@, depths),
        r matches Ok(v) ==> dfs_order(storage, start, max_depth, v@),
        storage.never_fails() ==> r is Ok,
{
    proof {
        storage.lemma_known_nodes();
    }
    let ghost universe = storage.known_nodes().insert(start);
    let mut visited: HashSet<u64> = HashSet::new();
    let mut result: Vec<NodeId> = Vec::new();
    let mut stack: Vec<(NodeId, usize)> = Vec::new();
    stack.push((start, 0));
    let ghost mut dep: Seq<nat> = Seq::empty();
    let ghost mut steps: nat = 0;
    proof {
        reveal(dfs_ok);
        assert(stack@ == seq![(start, 0usize)]);
        assert(dfs_run(storage, start, max_depth, 0) == DfsState {
            visited: visited@,
            found: result@,
            stack: stack@,
        });
        assert(dfs_ok(storage, start, max_depth, result@, dep, stack@, visited@, universe, -1));
    }
    while stack.len() > 0
        invariant
            universe == storage.known_nodes().insert(start),
            forall|n: NodeId, d: Direction, i: int|
                0 <= i < storage.edges_of(n, d).len() ==> storage.known_nodes().contains(
                    (#[trigger] storage.edges_of(n, d)[i]).target,
                ),
            dfs_ok(storage, start, max_depth, result@, dep, stack@, visited@, universe, -1),
            dfs_run(storage, start, max_depth, steps) == (DfsState {
                visited: visited@,
                found: result@,
                stack: stack@,
            }),
        decreases universe.len() - result@.len(), stack@.len(),
    {
        proof {
            lemma_dfs_facts(storage, start, max_depth, result@, dep, stack@, visited@, universe, -1);
        }
        let ghost st0 = stack@;
        let ghost visited0 = visited@;
        let (current, depth) = match stack.pop() {
            Some(top) => top,
            None => {
                proof {
                    assert(false);
                }
                (start, 0)
            },
        };
        let ghost found0 = result@;
        if !visited.insert(current.0) {
            proof {
                assert(visited@ =~= visited0);
                lemma_dfs_pop_seen(storage, start, max_depth, result@, dep, st0, visited0, universe);
                steps = steps + 1;
            }
            continue;
        }
        proof {
            lemma_dfs_pop_new(storage, start, max_depth, result@, dep, st0, visited0, universe);
            dep = dep.push(depth as nat);
        }
        let ghost open = result@.len() as int;
        result.push(current);
        proof {
            lemma_dfs_facts(storage, start, max_depth, result@, dep, stack@, visited@, universe, open);
        }
        if depth >= max_depth {
            proof {
                lemma_dfs_close(storage, start, max_depth, result@, dep, stack@, visited@, universe, open);
                steps = steps + 1;
            }
            continue;
        }
        let edges = match storage.get_edges(current, Direction::Outgoing) {
            Ok(v) => v,
            Err(err) => {
                return Err(err);
            },
        };
        // Push in reverse order so the first edge is followed first.
        let mut k: usize = edges.len();
        while k > 0
            invariant
                universe == storage.known_nodes().insert(start),
                forall|n: NodeId, d: Direction, i: int|
                    0 <= i < storage.edges_of(n, d).len() ==> storage.known_nodes().contains(
                        (#[trigger] storage.edges_of(n, d)[i]).target,
                    ),
                edges@ == storage.edges_of(current, Direction::Outgoing),
                k <= edges@.len(),
                0 <= open == result@.len() - 1,
                result@[open] == current,
                dep[open] == depth,
                depth < max_depth,
                dfs_ok(storage, start, max_depth, result@, dep, stack@, visited@, universe, open),
                forall|m: int|
                    k <= m < edges@.len() ==> visited@.contains((#[trigger] edges@[m]).target.0)
                        || on_stack(stack@, edges@[m].target),
                stack@ == st0.drop_last() + dfs_pushes(
                    edges@.subrange(k as int, edges@.len() as int),
                    visited@,
                    (depth + 1) as usize,
                ),
            decreases k,
        {
            k = k - 1;
            let target = edges[k].target;
            proof {
                let es = edges@.subrange(k as int, edges@.len() as int);
                assert(es.drop_first() == edges@.subrange(k + 1, edges@.len() as int));
                assert(es[0] == edges@[k as int]);
            }
            if !visited.contains(&target.0) {
                proof {
                    assert(storage.edges_of(current, Direction::Outgoing)[k as int] == edges@[k as int]);
                    assert(hop(storage, None, current, target));
                    lemma_dfs_push(
                        storage,
                        start,
                        max_depth,
                        result@,
                        dep,
                        stack@,
                        visited@,
                        universe,
                        open,
                        target,
                    );
                }
                stack.push((target, depth + 1));
            }
        }
        proof {
            assert forall|w: NodeId| #[trigger] hop(storage, None, current, w) implies visited@.contains(
                w.0,
            ) || on_stack(stack@, w) by {
                let m = choose|m: int|
                    0 <= m < storage.edges_of(current, Direction::Outgoing).len() && (
                    #[trigger] storage.edges_of(current, Direction::Outgoing)[m]).target == w
                        && usable(storage.edges_of(current, Direction::Outgoing)[m], None);
                assert(edges@[m].target == w);
            }
            lemma_dfs_close(storage, start, max_depth, result@, dep, stack@, visited@, universe, open);
            assert(edges@.subrange(0, edges@.len() as int) == edges@);
            steps = steps + 1;
        }
    }
    proof {
        lemma_dfs_done(storage, start, max_depth, result@, dep, stack@, visited@, universe);
        assert(dfs_tree(storage, start, max_depth, result@, dep));
    }
    let outcome: Result<Vec<NodeId>, AstraeaError> = Ok(result);
    assert(outcome matches Ok(v) ==> dfs_tree(storage, start, max_depth, v@, dep));
    assert(outcome matches Ok(v) ==> dfs_run(storage, start, max_depth, steps).found == v@);
    outcome
}

/// The node before step `k` of `p`: the start for the first step, else the
/// node reached by the step before.
pub open spec fn prev_node(p: GraphPath, k: int) -> NodeId {
    if k == 0 {
        p.start
    } else {
        p.steps@[k - 1].1
    }
}

/// `g` hands out an outgoing edge of `u` with the step's identifier, reaching
/// the step's node, that may be followed at `at`.
pub open spec fn step_edge<G: EdgeSource>(
    g: &G,
    at: Option<i64>,
    u: NodeId,
    step: (EdgeId, NodeId),
) -> bool {
    exists|i: int|
        0 <= i < g.edges_of(u, Direction::Outgoing).len() && (#[trigger] g.edges_of(
            u,
            Direction::Outgoing,
        )[i]).id == step.0 && g.edges_of(u, Direction::Outgoing)[i].target == step.1 && usable(
            g.edges_of(u, Direction::Outgoing)[i],
            at,
        )
}

/// Every step of `p` follows an edge of `g` usable at `at`.
pub open spec fn path_in<G: EdgeSource>(g: &G, at: Option<i64>, p: GraphPath) -> bool {
    forall|k: int| 0 <= k < p.steps@.len() ==> step_edge(g, at, prev_node(p, k), #[trigger] p.steps@[k])
}

/// Every key of the parent map other than `from` names a predecessor of
/// smaller rank, and that predecessor is `from` or a key itself.
pub open spec fn ranked_parents(
    from: NodeId,
    parent: Map<u64, (EdgeId, NodeId)>,
    rank: spec_fn(NodeId) -> nat,
) -> bool {
    forall|k: u64|
        #[trigger] parent.contains_key(k) && k != from.0 ==> {
            &&& (parent[k].1 == from || parent.contains_key(parent[k].1.0))
            &&& rank(parent[k].1) < rank(NodeId(k))
        }
}

/// `p` leads from `from` to `to`, each step being the parent map's entry for
/// the node it reaches, and only its start is `from`.
pub open spec fn traces_parents(
    from: NodeId,
    to: NodeId,
    parent: Map<u64, (EdgeId, NodeId)>,
    p: GraphPath,
) -> bool {
    &&& p.start == from
    &&& p.last_node() == to
    &&& forall|k: int|
        0 <= k < p.steps@.len() ==> {
            &&& (#[trigger] p.steps@[k]).1 != from
            &&& parent.contains_key(p.steps@[k].1.0)
            &&& parent[p.steps@[k].1.0] == (p.steps@[k].0, prev_node(p, k))
        }
}

/// Reconstruct a path from the parent map built during a search: follow the
/// map back from `to` until `from`, then lay the steps out forwards.
pub fn reconstruct_path(from: NodeId, to: NodeId, parent: &HashMap<u64, (EdgeId, NodeId)>) -> (p:
    GraphPath)
    requires
        to == from || parent@.contains_key(to.0),
        exists|rank: spec_fn(NodeId) -> nat| ranked_parents(from, parent@, rank),
    ensures
        traces_parents(from, to, parent@, p),
{
    let ghost rank = choose|rank: spec_fn(NodeId) -> nat| ranked_parents(from, parent@, rank);
    let mut back: Vec<(EdgeId, NodeId)> = Vec::new();
    let mut current = to;
    while current.0 != from.0
        invariant
            ranked_parents(from, parent@, rank),
            current == from || parent@.contains_key(current.0),
            back@.len() == 0 ==> current == to,
            back@.len() > 0 ==> back@[0].1 == to,
            forall|k: int|
                0 <= k < back@.len() ==> {
                    &&& (#[trigger] back@[k]).1 != from
                    &&& parent@.contains_key(back@[k].1.0)
                    &&& parent@[back@[k].1.0] == (
                        back@[k].0,
                        if k + 1 < back@.len() {
                            back@[k + 1].1
                        } else {
                            current
                        },
                    )
                },
        decreases rank(current),
    {
        assert(parent@.contains_key(current.0));
        let entry = match parent.get(&current.0) {
            Some(found) => *found,
            None => {
                proof {
                    assert(false);
                }
                (EdgeId(0), from)
            },
        };
        let ghost old_back = back@;
        back.push((entry.0, current));
        proof {
            assert(NodeId(current.0) == current);
            assert forall|k: int|
                0 <= k < back@.len() implies {
                &&& (#[trigger] back@[k]).1 != from
                &&& parent@.contains_key(back@[k].1.0)
                &&& parent@[back@[k].1.0] == (
                    back@[k].0,
                    if k + 1 < back@.len() {
                        back@[k + 1].1
                    } else {
                        entry.1
                    },
                )
            } by {
                if k + 1 < back@.len() {
                    assert(back@[k] == old_back[k]);
                    if k + 2 < back@.len() {
                        assert(back@[k + 1] == old_back[k + 1]);
                    }
                }
            }
        }
        current = entry.1;
    }
    let n = back.len();
    let mut path = GraphPath::new(from);
    let mut i: usize = n;
    while i > 0
        invariant
            i <= n == back@.len(),
            current == from,
            path.start == from,
            path.steps@.len() == n - i,
            forall|k: int| 0 <= k < n - i ==> #[trigger] path.steps@[k] == back@[n - 1 - k],
        decreases i,
    {
        i = i - 1;
        path.push(back[i].0, back[i].1);
    }
    proof {
        assert forall|k: int| 0 <= k < path.steps@.len() implies {
            &&& (#[trigger] path.steps@[k]).1 != from
            &&& parent@.contains_key(path.steps@[k].1.0)
            &&& parent@[path.steps@[k].1.0] == (path.steps@[k].0, prev_node(path, k))
        } by {
            assert(path.steps@[k] == back@[n - 1 - k]);
            if k > 0 {
                assert(path.steps@[k - 1] == back@[n - k]);
            }
        }
        if n > 0 {
            assert(path.steps@[n - 1] == back@[0]);
        }
    }
    path
}

/// The distance from `from` in `g` at `at`, where there is one.
pub open spec fn dist_rank<G: EdgeSource>(g: &G, at: Option<i64>, from: NodeId) -> spec_fn(
    NodeId,
) -> nat {
    |n: NodeId| choose|d: nat| is_dist(hops(g, at), from, n, d)
}

/// The parent map's entry for `k` records an edge of `g` from the entry's
/// node to `k`, one level further from `from`.
pub open spec fn parent_edge<G: EdgeSource>(
    g: &G,
    at: Option<i64>,
    from: NodeId,
    k: u64,
    entry: (EdgeId, NodeId),
) -> bool {
    &&& exists|d: nat|
        is_dist(hops(g, at), from, entry.1, d) && #[trigger] is_dist(
            hops(g, at),
            from,
            NodeId(k),
            d + 1,
        )
    &&& step_edge(g, at, entry.1, (entry.0, NodeId(k)))
}

proof fn lemma_parents_ranked<G: EdgeSource>(
    g: &G,
    at: Option<i64>,
    from: NodeId,
    parent: Map<u64, (EdgeId, NodeId)>,
    visited: Set<u64>,
)
    requires
        forall|k: u64|
            #[trigger] parent.contains_key(k) ==> k != from.0 && parent_edge(
                g,
                at,
                from,
                k,
                parent[k],
            ) && visited.contains(parent[k].1.0),
        forall|k: u64| #[trigger] visited.contains(k) && k != from.0 ==> parent.contains_key(k),
    ensures
        ranked_parents(from, parent, dist_rank(g, at, from)),
{
    let e = hops(g, at);
    let rank = dist_rank(g, at, from);
    assert forall|k: u64| #[trigger] parent.contains_key(k) && k != from.0 implies {
        &&& (parent[k].1 == from || parent.contains_key(parent[k].1.0))
        &&& rank(parent[k].1) < rank(NodeId(k))
    } by {
        let u = parent[k].1;
        if u.0 == from.0 {
            assert(u == from);
        } else {
            assert(visited.contains(u.0));
        }
        let d = choose|d: nat|
            is_dist(e, from, u, d) && #[trigger] is_dist(e, from, NodeId(k), d + 1);
        lemma_dist_unique(e, from, u, d, rank(u));
        lemma_dist_unique(e, from, NodeId(k), d + 1, rank(NodeId(k)));
    }
}

/// The first `k` steps of a path that traces a parent map whose entries are
/// edges one level apart follow edges of the graph, and the node reached
/// after them is at distance `k`.
proof fn lemma_traced_prefix<G: EdgeSource>(
    g: &G,
    at: Option<i64>,
    from: NodeId,
    to: NodeId,
    parent: Map<u64, (EdgeId, NodeId)>,
    p: GraphPath,
    k: int,
)
    requires
        0 <= k <= p.steps@.len(),
        traces_parents(from, to, parent, p),
        forall|key: u64|
            #[trigger] parent.contains_key(key) ==> parent_edge(g, at, from, key, parent[key]),
    ensures
        is_dist(hops(g, at), from, prev_node(p, k), k as nat),
        forall|j: int| 0 <= j < k ==> step_edge(g, at, prev_node(p, j), #[trigger] p.steps@[j]),
    decreases k,
{
    let e = hops(g, at);
    if k == 0 {
        assert(walk_of_len(e, from, from, 0));
    } else {
        lemma_traced_prefix(g, at, from, to, parent, p, k - 1);
        let s = p.steps@[k - 1];
        let key = s.1.0;
        assert(NodeId(key) == s.1);
        assert(parent.contains_key(key));
        assert(parent[key] == (s.0, prev_node(p, k - 1)));
        let d = choose|d: nat|
            is_dist(e, from, prev_node(p, k - 1), d) && #[trigger] is_dist(
                e,
                from,
                NodeId(key),
                d + 1,
            );
        lemma_dist_unique(e, from, prev_node(p, k - 1), d, (k - 1) as nat);
        assert(prev_node(p, k) == s.1);
    }
}

/// A path that traces such a parent map is a path of the graph whose length
/// is the distance to its end.
proof fn lemma_traced_path<G: EdgeSource>(
    g: &G,
    at: Option<i64>,
    from: NodeId,
    to: NodeId,
    parent: Map<u64, (EdgeId, NodeId)>,
    p: GraphPath,
)
    requires
        traces_parents(from, to, parent, p),
        forall|k: u64| #[trigger] parent.contains_key(k) ==> parent_edge(g, at, from, k, parent[k]),
    ensures
        path_in(g, at, p),
        is_dist(hops(g, at), from, to, p.steps@.len()),
{
    let n = p.steps@.len() as int;
    lemma_traced_prefix(g, at, from, to, parent, p, n);
    if n > 0 {
        assert(prev_node(p, n) == p.last_node());
    }
}

/// A breadth-first path search in progress: the identifiers of the nodes
/// visited, the parent map (each found node's identifier to the edge it was
/// reached by and the node it was reached from), the queue of found nodes
/// with their depths and how many have been taken off its front, and
/// whether the target has been reached.
pub struct PathSearch {
    pub visited: Set<u64>,
    pub parent: Map<u64, (EdgeId, NodeId)>,
    pub queue: Seq<(NodeId, usize)>,
    pub head: nat,
    pub done: bool,
}

/// Follow `edges` of `current` in order, until the target `to` is reached:
/// each edge usable at `at` whose target is not yet visited visits it,
/// records `current` as its parent and, unless it is `to`, queues it at
/// `depth`.
pub open spec fn path_discover(
    edges: Seq<EdgeLink>,
    at: Option<i64>,
    current: NodeId,
    to: NodeId,
    depth: usize,
    s: PathSearch,
) -> PathSearch
    decreases edges.len(),
{
    if edges.len() == 0 {
        s
    } else {
        let prev = path_discover(edges.drop_last(), at, current, to, depth, s);
        let e = edges.last();
        if prev.done || !usable(e, at) || prev.visited.contains(e.target.0) {
            prev
        } else {
            let visited = prev.visited.insert(e.target.0);
            let parent = prev.parent.insert(e.target.0, (e.id, current));
            if e.target == to {
                PathSearch { visited, parent, queue: prev.queue, head: prev.head, done: true }
            } else {
                PathSearch {
                    visited,
                    parent,
                    queue: prev.queue.push((e.target, depth)),
                    head: prev.head,
                    done: false,
                }
            }
        }
    }
}

/// One step of the path search: unless the target is reached or the queue
/// is empty, take the next node off the queue and follow its outgoing edges.
pub open spec fn path_step<G: EdgeSource>(g: &G, at: Option<i64>, to: NodeId, s: PathSearch) -> PathSearch {
    if s.done || s.head >= s.queue.len() {
        s
    } else {
        let cur = s.queue[s.head as int].0;
        let depth = s.queue[s.head as int].1;
        let d = path_discover(
            g.edges_of(cur, Direction::Outgoing),
            at,
            cur,
            to,
            (depth + 1) as usize,
            s,
        );
        PathSearch {
            visited: d.visited,
            parent: d.parent,
            queue: d.queue,
            head: s.head + 1,
            done: d.done,
        }
    }
}

/// The path search from `from` towards `to` after `n` steps.
pub open spec fn path_run<G: EdgeSource>(
    g: &G,
    at: Option<i64>,
    from: NodeId,
    to: NodeId,
    n: nat,
) -> PathSearch
    decreases n,
{
    if n == 0 {
        PathSearch {
            visited: Set::empty().insert(from.0),
            parent: Map::empty(),
            queue: seq![(from, 0usize)],
            head: 0,
            done: false,
        }
    } else {
        path_step(g, at, to, path_run(g, at, from, to, (n - 1) as nat))
    }
}

/// `p` is the path the breadth-first search from `from` finds to `to`: the
/// search reaches `to`, and `p` follows its parent map back from `to`.
pub open spec fn bfs_route<G: EdgeSource>(
    g: &G,
    at: Option<i64>,
    from: NodeId,
    to: NodeId,
    p: GraphPath,
) -> bool {
    exists|n: nat|
        (#[trigger] path_run(g, at, from, to, n)).done && traces_parents(
            from,
            to,
            path_run(g, at, from, to, n).parent,
            p,
        )
}

/// Once the target is reached, the remaining edges change nothing.
proof fn lemma_path_discover_done(
    edges: Seq<EdgeLink>,
    at: Option<i64>,
    current: NodeId,
    to: NodeId,
    depth: usize,
    s: PathSearch,
    j: int,
)
    requires
        0 <= j <= edges.len(),
        path_discover(edges.take(j), at, current, to, depth, s).done,
    ensures
        path_discover(edges, at, current, to, depth, s) == path_discover(
            edges.take(j),
            at,
            current,
            to,
            depth,
            s,
        ),
    decreases edges.len() - j,
{
    if j == edges.len() {
        assert(edges.take(j) == edges);
    } else {
        assert(edges.take(j + 1).drop_last() == edges.take(j));
        lemma_path_discover_done(edges, at, current, to, depth, s, j + 1);
    }
}

fn shortest_path_from<G: EdgeSource>(g: &G, from: NodeId, to: NodeId, at: Option<i64>) -> (r:
    Result<Option<GraphPath>, AstraeaError>)
    ensures
        r matches Ok(Some(p)) ==> {
            &&& p.start == from
            &&& p.last_node() == to
            &&& path_in(g, at, p)
            &&& is_dist(hops(g, at), from, to, p.steps@.len())
        },
        r matches Ok(Some(p)) ==> (from != to ==> bfs_route(g, at, from, to, p)),
        r matches Ok(None) ==> !reachable(hops(g, at), from, to),
        g.never_fails() ==> r is Ok,
{
    let ghost e = hops(g, at);
    if from == to {
        proof {
            assert(walk_of_len(e, from, from, 0));
        }
        return Ok(Some(GraphPath::new(from)));
    }
    let ghost limit = usize::MAX as int + 1;
    proof {
        g.lemma_known_nodes();
    }
    let ghost universe = g.known_nodes().insert(from);
    let mut visited: HashSet<u64> = HashSet::new();
    let mut parent: HashMap<u64, (EdgeId, NodeId)> = HashMap::new();
    let mut queue: Vec<(NodeId, usize)> = Vec::new();
    visited.insert(from.0);
    queue.push((from, 0));
    proof {
        assert(queue@ == seq![(from, 0usize)]);
        lemma_frontier_init(g, at, from, limit, queue@, visited@, universe);
        assert(from.0 != to.0);
    }
    let mut head: usize = 0;
    let ghost mut steps: nat = 0;
    assert(path_run(g, at, from, to, 0) == (PathSearch {
        visited: visited@,
        parent: parent@,
        queue: queue@,
        head: 0,
        done: false,
    }));
    while head < queue.len()
        invariant
            e == hops(g, at),
            limit == usize::MAX as int + 1,
            from != to,
            universe == g.known_nodes().insert(from),
            forall|n: NodeId, d: Direction, i: int|
                0 <= i < g.edges_of(n, d).len() ==> g.known_nodes().contains(
                    (#[trigger] g.edges_of(n, d)[i]).target,
                ),
            frontier_ok(g, at, from, limit, queue@, head as int, visited@, universe),
            !visited@.contains(to.0),
            forall|k: u64|
                #[trigger] parent@.contains_key(k) ==> k != from.0 && parent_edge(
                    g,
                    at,
                    from,
                    k,
                    parent@[k],
                ) && visited@.contains(parent@[k].1.0),
            forall|k: u64| #[trigger] visited@.contains(k) && k != from.0 ==> parent@.contains_key(k),
            path_run(g, at, from, to, steps) == (PathSearch {
                visited: visited@,
                parent: parent@,
                queue: queue@,
                head: head as nat,
                done: false,
            }),
        decreases 2 * universe.len() - queue@.len() - head,
    {
        proof {
            lemma_frontier_facts(g, at, from, limit, queue@, head as int, visited@, universe);
        }
        let current = queue[head].0;
        let depth = queue[head].1;
        let edges = match g.get_edges(current, Direction::Outgoing) {
            Ok(v) => v,
            Err(err) => {
                return Err(err);
            },
        };
        let ghost len0 = queue@.len();
        let ghost s0 = path_run(g, at, from, to, steps);
        let mut k: usize = 0;
        while k < edges.len()
            invariant
                e == hops(g, at),
                limit == usize::MAX as int + 1,
                from != to,
                universe == g.known_nodes().insert(from),
                forall|n: NodeId, d: Direction, i: int|
                    0 <= i < g.edges_of(n, d).len() ==> g.known_nodes().contains(
                        (#[trigger] g.edges_of(n, d)[i]).target,
                    ),
                frontier_ok(g, at, from, limit, queue@, head as int, visited@, universe),
                !visited@.contains(to.0),
                forall|key: u64|
                    #[trigger] parent@.contains_key(key) ==> key != from.0 && parent_edge(
                        g,
                        at,
                        from,
                        key,
                        parent@[key],
                    ) && visited@.contains(parent@[key].1.0),
                forall|key: u64|
                    #[trigger] visited@.contains(key) && key != from.0 ==> parent@.contains_key(key),
                edges@ == g.edges_of(current, Direction::Outgoing),
                k <= edges@.len(),
                head < len0 <= queue@.len(),
                current == queue@[head as int].0,
                depth == queue@[head as int].1,
                visited@.contains(from.0),
                visited@.contains(current.0),
                is_dist(e, from, current, depth as nat),
                forall|m: int|
                    0 <= m < k && usable(#[trigger] edges@[m], at) ==> visited@.contains(
                        edges@[m].target.0,
                    ),
                s0 == path_run(g, at, from, to, steps),
                s0.head == head,
                !s0.done,
                s0.head < s0.queue.len(),
                s0.queue[head as int] == (current, depth),
                path_discover(edges@.take(k as int), at, current, to, (depth + 1) as usize, s0) == (
                PathSearch {
                    visited: visited@,
                    parent: parent@,
                    queue: queue@,
                    head: head as nat,
                    done: false,
                }),
            decreases edges@.len() - k,
        {
            let edge = edges[k];
            proof {
                assert(edges@.take(k + 1).drop_last() == edges@.take(k as int));
                assert(edges@.take(k + 1).last() == edge);
            }
            if usable_at(&edge, at) {
                let neighbor = edge.target;
                let ghost old_visited = visited@;
                // Reading the length bounds the depth about to be recorded.
                let _queued = queue.len();
                if visited.insert(neighbor.0) {
                    proof {
                        assert(g.edges_of(current, Direction::Outgoing)[k as int] == edge);
                        assert(hop(g, at, current, neighbor));
                        lemma_frontier_new(
                            g,
                            at,
                            from,
                            limit,
                            queue@,
                            head as int,
                            old_visited,
                            universe,
                            neighbor,
                        );
                        assert(NodeId(neighbor.0) == neighbor);
                        assert(step_edge(g, at, current, (edge.id, NodeId(neighbor.0))));
                        assert(is_dist(e, from, NodeId(neighbor.0), depth as nat + 1));
                    }
                    let ghost old_parent = parent@;
                    parent.insert(neighbor.0, (edge.id, current));
                    proof {
                        assert forall|key: u64|
                            #[trigger] parent@.contains_key(key) implies key != from.0
                            && parent_edge(g, at, from, key, parent@[key]) && visited@.contains(
                            parent@[key].1.0,
                        ) by {
                            if key != neighbor.0 {
                                assert(old_parent.contains_key(key));
                            }
                        }
                    }
                    if neighbor == to {
                        proof {
                            lemma_parents_ranked(g, at, from, parent@, visited@);
                        }
                        let path = reconstruct_path(from, to, &parent);
                        proof {
                            lemma_traced_path(g, at, from, to, parent@, path);
                            lemma_path_discover_done(
                                edges@,
                                at,
                                current,
                                to,
                                (depth + 1) as usize,
                                s0,
                                k + 1,
                            );
                            assert(path_run(g, at, from, to, steps + 1).parent == parent@);
                            assert(path_run(g, at, from, to, steps + 1).done);
                        }
                        let outcome: Result<Option<GraphPath>, AstraeaError> = Ok(Some(path));
                        assert(outcome matches Ok(Some(p)) ==> traces_parents(
                            from,
                            to,
                            path_run(g, at, from, to, steps + 1).parent,
                            p,
                        ));
                        return outcome;
                    }
                    proof {
                        if neighbor.0 == to.0 {
                            assert(neighbor == to);
                        }
                    }
                    queue.push((neighbor, depth + 1));
                } else {
                    assert(visited@ =~= old_visited);
                }
            }
            k = k + 1;
        }
        proof {
            assert forall|w: NodeId| #[trigger] hop(g, at, current, w) implies visited@.contains(
                w.0,
            ) by {
                let m = choose|m: int|
                    0 <= m < g.edges_of(current, Direction::Outgoing).len() && (
                    #[trigger] g.edges_of(current, Direction::Outgoing)[m]).target == w && usable(
                        g.edges_of(current, Direction::Outgoing)[m],
                        at,
                    );
                assert(usable(edges@[m], at));
            }
            assert(edges@.take(edges@.len() as int) == edges@);
            steps = steps + 1;
            lemma_frontier_advance(g, at, from, limit, queue@, head as int, visited@, universe);
            lemma_frontier_facts(g, at, from, limit, queue@, head + 1, visited@, universe);
        }
        head = head + 1;
    }
    proof {
        lemma_frontier_facts(g, at, from, limit, queue@, head as int, visited@, universe);
        if reachable(e, from, to) {
            let kk = choose|kk: nat| #[trigger] walk_of_len(e, from, to, kk);
            let d = lemma_has_dist(e, from, to, kk);
            lemma_frontier_complete(g, at, from, limit, queue@, visited@, universe, to, d);
        }
    }
    Ok(None)
}

/// Unweighted shortest path using BFS.
/// Returns None if no path exists.
pub fn shortest_path_unweighted<G: EdgeSource>(storage: &G, from: NodeId, to: NodeId) -> (r:
    Result<Option<GraphPath>, AstraeaError>)
    ensures
        r matches Ok(Some(p)) ==> {
            &&& p.start == from
            &&& p.last_node() == to
            &&& path_in(storage, None, p)
            &&& is_dist(hops(storage, None), from, to, p.steps@.len())
        },
        r matches Ok(Some(p)) ==> (from != to ==> bfs_route(storage, None, from, to, p)),
        r matches Ok(None) ==> !reachable(hops(storage, None), from, to),
        storage.never_fails() ==> r is Ok,
{
    shortest_path_from(storage, from, to, None)
}

/// Unweighted shortest path using BFS, only traversing edges valid at `timestamp`.
pub fn shortest_path_unweighted_at<G: EdgeSource>(
    storage: &G,
    from: NodeId,
    to: NodeId,
    timestamp: i64,
) -> (r: Result<Option<GraphPath>, AstraeaError>)
    ensures
        r matches Ok(Some(p)) ==> {
            &&& p.start == from
            &&& p.last_node() == to
            &&& path_in(storage, Some(timestamp), p)
            &&& is_dist(hops(storage, Some(timestamp)), from, to, p.steps@.len())
        },
        r matches Ok(Some(p)) ==> (from != to ==> bfs_route(storage, Some(timestamp), from, to, p)),
        r matches Ok(None) ==> !reachable(hops(storage, Some(timestamp)), from, to),
        storage.never_fails() ==> r is Ok,
{
    shortest_path_from(storage, from, to, Some(timestamp))
}

/// The node at the other end of `e` from `node`.
pub open spec fn far_end(e: EdgeLink, node: NodeId) -> NodeId {
    if e.source == node {
        e.target
    } else {
        e.source
    }
}

/// An edge as a neighbour entry of `node`: its identifier and far end.
pub open spec fn neighbor_entry(e: EdgeLink, node: NodeId) -> (EdgeId, NodeId) {
    (e.id, far_end(e, node))
}

/// The neighbours of `node`: each edge's identifier with its far end.
pub fn neighbors<G: EdgeSource>(storage: &G, node_id: NodeId, direction: Direction) -> (r: Result<
    Vec<(EdgeId, NodeId)>,
    AstraeaError,
>)
    ensures
        r matches Ok(v) ==> v@ == storage.edges_of(node_id, direction).map_values(
            |e: EdgeLink| neighbor_entry(e, node_id),
        ),
        storage.never_fails() ==> r is Ok,
{
    let edges = match storage.get_edges(node_id, direction) {
        Ok(v) => v,
        Err(err) => {
            return Err(err);
        },
    };
    let mut out: Vec<(EdgeId, NodeId)> = Vec::new();
    let mut i: usize = 0;
    while i < edges.len()
        invariant
            i <= edges@.len(),
            out@ == edges@.take(i as int).map_values(|e: EdgeLink| neighbor_entry(e, node_id)),
        decreases edges@.len() - i,
    {
        let e = edges[i];
        let other = if e.source == node_id {
            e.target
        } else {
            e.source
        };
        out.push((e.id, other));
        i = i + 1;
        assert(edges@.take(i as int) == edges@.take(i - 1).push(e));
    }
    assert(edges@.take(i as int) == edges@);
    Ok(out)
}

/// The neighbours of `node` by edges valid at `timestamp`.
pub fn neighbors_at<G: EdgeSource>(
    storage: &G,
    node_id: NodeId,
    direction: Direction,
    timestamp: i64,
) -> (r: Result<Vec<(EdgeId, NodeId)>, AstraeaError>)
    ensures
        r matches Ok(v) ==> v@ == storage.edges_of(node_id, direction).filter(
            |e: EdgeLink| e.validity.holds(timestamp),
        ).map_values(|e: EdgeLink| neighbor_entry(e, node_id)),
        storage.never_fails() ==> r is Ok,
{
    let edges = match storage.get_edges(node_id, direction) {
        Ok(v) => v,
        Err(err) => {
            return Err(err);
        },
    };
    let ghost valid = |e: EdgeLink| e.validity.holds(timestamp);
    let mut out: Vec<(EdgeId, NodeId)> = Vec::new();
    let mut i: usize = 0;
    while i < edges.len()
        invariant
            i <= edges@.len(),
            valid == (|e: EdgeLink| e.validity.holds(timestamp)),
            out@ == edges@.take(i as int).filter(valid).map_values(
                |e: EdgeLink| neighbor_entry(e, node_id),
            ),
        decreases edges@.len() - i,
    {
        let e = edges[i];
        proof {
            edges@.take(i as int).lemma_filter_push(e, valid);
        }
        assert(edges@.take(i + 1) == edges@.take(i as int).push(e));
        if e.validity.contains(timestamp) {
            let other = if e.source == node_id {
                e.target
            } else {
                e.source
            };
            out.push((e.id, other));
            assert(edges@.take(i as int).filter(valid).push(e).map_values(
                |e: EdgeLink| neighbor_entry(e, node_id),
            ) == out@);
        }
        i = i + 1;
    }
    assert(edges@.take(i as int) == edges@);
    Ok(out)
}

/// A breadth-first search and a shortest-path search agree: the depth at
/// which the search finds a node is the length of every shortest path to it.
pub proof fn lemma_bfs_depth_is_path_length<G: EdgeSource>(
    g: &G,
    at: Option<i64>,
    start: NodeId,
    max_depth: usize,
    r: Seq<(NodeId, usize)>,
    i: int,
    path_len: nat,
)
    requires
        bfs_layers(g, at, start, max_depth, r),
        0 <= i < r.len(),
        is_dist(hops(g, at), start, r[i].0, path_len),
    ensures
        r[i].1 == path_len,
{
    lemma_dist_unique(hops(g, at), start, r[i].0, r[i].1 as nat, path_len);
}

/// Every node a depth-first search finds is reachable from the start by a
/// walk no longer than the depth limit: its depth in the search tree.
pub proof fn lemma_dfs_nodes_reachable<G: EdgeSource>(
    g: &G,
    start: NodeId,
    max_depth: usize,
    r: Seq<NodeId>,
    dep: Seq<nat>,
    i: int,
)
    requires
        dfs_tree(g, start, max_depth, r, dep),
        0 <= i < r.len(),
    ensures
        walk_of_len(hops(g, None), start, r[i], dep[i]),
        dep[i] <= max_depth,
    decreases i,
{
    if i == 0 {
        assert(walk_of_len(hops(g, None), start, start, 0));
    } else {
        assert(found_from(g, r, dep, i));
        let j = choose|j: int| 0 <= j < i && #[trigger] hop(g, None, r[j], r[i]) && dep[i] == dep[j] + 1;
        lemma_dfs_nodes_reachable(g, start, max_depth, r, dep, j);
        lemma_walk_step(hops(g, None), start, r[j], r[i], dep[j]);
    }
}

/// In an edge list, an edge seen from one end in both directions is seen
/// from its other end too, leading back.
pub proof fn lemma_edge_list_far_end_symmetric(g: &EdgeList, u: NodeId, i: int)
    requires
        0 <= i < g.edges_of(u, Direction::Both).len(),
    ensures
        exists|j: int|
            0 <= j < g.edges_of(far_end(g.edges_of(u, Direction::Both)[i], u), Direction::Both).len()
                && far_end(
                #[trigger] g.edges_of(far_end(g.edges_of(u, Direction::Both)[i], u), Direction::Both)[j],
                far_end(g.edges_of(u, Direction::Both)[i], u),
            ) == u,
{
    let e = g.edges_of(u, Direction::Both)[i];
    let v = far_end(e, u);
    let pu = |x: EdgeLink| links(x, u, Direction::Both);
    let pv = |x: EdgeLink| links(x, v, Direction::Both);
    g@.filter_lemma(pu);
    g@.filter_lemma(pv);
    lemma_filter_from(g@, pu, i);
    let k = choose|k: int| 0 <= k < g@.len() && g@[k] == e;
    assert(pu(e));
    assert(pv(g@[k]));
    assert(g@.filter(pv).contains(g@[k]));
    let j = choose|j: int| 0 <= j < g@.filter(pv).len() && g@.filter(pv)[j] == e;
    assert(g.edges_of(v, Direction::Both)[j] == e);
}

} // verus!
