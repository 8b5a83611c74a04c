//! Connected components of a graph whose edges are taken as undirected.

use std::collections::HashSet;

use vstd::prelude::*;

use crate::error::AstraeaError;
use crate::reach::{lemma_walk_step, reachable, walk_of_len};
use crate::traversal::{
    far_end, lemma_edge_list_far_end_symmetric, neighbor_entry, neighbors, EdgeLink, EdgeList,
    EdgeSource,
};
use crate::types::{Direction, EdgeId, NodeId};

verus! {

broadcast use vstd::std_specs::hash::group_hash_axioms;

/// `v` is one of `ns`, and `g` hands out an edge of `u`, in either
/// direction, whose far end is `v`.
pub open spec fn adjacent<G: EdgeSource>(g: &G, ns: Seq<NodeId>, u: NodeId, v: NodeId) -> bool {
    &&& ns.contains(v)
    &&& exists|i: int|
        0 <= i < g.edges_of(u, Direction::Both).len() && far_end(
            #[trigger] g.edges_of(u, Direction::Both)[i],
            u,
        ) == v
}

/// The undirected edge relation among `ns`.
pub open spec fn adjacency<G: EdgeSource>(g: &G, ns: Seq<NodeId>) -> spec_fn(NodeId, NodeId) -> bool {
    |u: NodeId, v: NodeId| adjacent(g, ns, u, v)
}

/// `v` lies in one of the first `k` components.
pub open spec fn in_components(comps: Seq<Seq<NodeId>>, k: int, v: NodeId) -> bool {
    exists|c: int, j: int| 0 <= c < k && 0 <= j < comps[c].len() && #[trigger] comps[c][j] == v
}

/// No node occurs twice in the components, within one or across two.
pub open spec fn all_distinct(comps: Seq<Seq<NodeId>>) -> bool {
    forall|c1: int, i1: int, c2: int, i2: int|
        0 <= c1 < comps.len() && 0 <= i1 < comps[c1].len() && 0 <= c2 < comps.len() && 0 <= i2
            < comps[c2].len() && (c1 != c2 || i1 != i2) ==> #[trigger] comps[c1][i1]
            != #[trigger] comps[c2][i2]
}

/// `comps` are the connected components of `ns` in `g`: none is empty, no
/// node occurs twice, they hold exactly the nodes of `ns`, every node of a
/// component is reachable from its first node, and every neighbour of a node
/// lies in its component or an earlier one.
pub open spec fn components_of<G: EdgeSource>(
    g: &G,
    ns: Seq<NodeId>,
    comps: Seq<Seq<NodeId>>,
) -> bool {
    &&& forall|c: int| 0 <= c < comps.len() ==> #[trigger] comps[c].len() > 0
    &&& all_distinct(comps)
    &&& forall|c: int, i: int|
        0 <= c < comps.len() && 0 <= i < comps[c].len() ==> ns.contains(#[trigger] comps[c][i])
    &&& forall|t: int| 0 <= t < ns.len() ==> in_components(comps, comps.len() as int, #[trigger] ns[t])
    &&& forall|c: int, i: int|
        0 <= c < comps.len() && 0 <= i < comps[c].len() ==> reachable(
            adjacency(g, ns),
            comps[c][0],
            #[trigger] comps[c][i],
        )
    &&& forall|c: int, i: int, v: NodeId|
        0 <= c < comps.len() && 0 <= i < comps[c].len() && #[trigger] adjacent(
            g,
            ns,
            comps[c][i],
            v,
        ) ==> in_components(comps, c + 1, v)
}

/// The identifiers of the nodes of the components and of `comp` are exactly
/// `visited`.
spec fn tracks(visited: Set<u64>, done: Seq<Seq<NodeId>>, comp: Seq<NodeId>) -> bool {
    forall|k: u64|
        visited.contains(k) <==> (exists|c: int, j: int|
            0 <= c < done.len() && 0 <= j < done[c].len() && (#[trigger] done[c][j]).0 == k) || (
        exists|j: int| 0 <= j < comp.len() && (#[trigger] comp[j]).0 == k)
}

/// The state of the search for components: `done` are the components found,
/// `comp` the one being grown from `ns[t]` (empty between components), whose
/// nodes before `head` have been expanded; `visited` holds the identifiers of
/// all nodes found; the nodes of `ns` before `t` have all been found.
#[verifier::opaque]
spec fn cc_ok<G: EdgeSource>(
    g: &G,
    ns: Seq<NodeId>,
    done: Seq<Seq<NodeId>>,
    comp: Seq<NodeId>,
    head: int,
    visited: Set<u64>,
    t: int,
) -> bool {
    let all = done.push(comp);
    &&& 0 <= t <= ns.len()
    &&& 0 <= head <= comp.len()
    &&& comp.len() > 0 ==> t < ns.len() && comp[0] == ns[t]
    &&& comp.len() == 0 ==> head == 0
    &&& forall|c: int| 0 <= c < done.len() ==> #[trigger] done[c].len() > 0
    &&& all_distinct(all)
    &&& forall|c: int, i: int|
        0 <= c < all.len() && 0 <= i < all[c].len() ==> ns.contains(#[trigger] all[c][i])
    &&& forall|s: int| 0 <= s < t ==> visited.contains((#[trigger] ns[s]).0)
    &&& comp.len() > 0 ==> visited.contains(ns[t].0)
    &&& forall|c: int, i: int|
        0 <= c < all.len() && 0 <= i < all[c].len() ==> reachable(
            adjacency(g, ns),
            all[c][0],
            #[trigger] all[c][i],
        )
    &&& forall|c: int, i: int, v: NodeId|
        0 <= c < done.len() && 0 <= i < done[c].len() && #[trigger] adjacent(g, ns, done[c][i], v)
            ==> in_components(done, c + 1, v)
    &&& forall|i: int, v: NodeId|
        0 <= i < head && #[trigger] adjacent(g, ns, comp[i], v) ==> visited.contains(v.0)
    &&& tracks(visited, done, comp)
}

proof fn lemma_cc_init<G: EdgeSource>(g: &G, ns: Seq<NodeId>)
    ensures
        cc_ok(g, ns, Seq::empty(), Seq::empty(), 0, Set::empty(), 0),
{
    reveal(cc_ok);
    let all = Seq::<Seq<NodeId>>::empty().push(Seq::<NodeId>::empty());
    assert(all[0].len() == 0);
}

/// A node of `ns` already found is skipped.
proof fn lemma_cc_skip<G: EdgeSource>(
    g: &G,
    ns: Seq<NodeId>,
    done: Seq<Seq<NodeId>>,
    visited: Set<u64>,
    t: int,
)
    requires
        cc_ok(g, ns, done, Seq::empty(), 0, visited, t),
        t < ns.len(),
        visited.contains(ns[t].0),
    ensures
        cc_ok(g, ns, done, Seq::empty(), 0, visited, t + 1),
{
    reveal(cc_ok);
}

/// A node of `ns` not yet found starts a new component.
proof fn lemma_cc_start<G: EdgeSource>(
    g: &G,
    ns: Seq<NodeId>,
    done: Seq<Seq<NodeId>>,
    visited: Set<u64>,
    t: int,
)
    requires
        cc_ok(g, ns, done, Seq::empty(), 0, visited, t),
        0 <= t < ns.len(),
        !visited.contains(ns[t].0),
    ensures
        cc_ok(g, ns, done, seq![ns[t]], 0, visited.insert(ns[t].0), t),
{
    reveal(cc_ok);
    let v = ns[t];
    let comp = seq![v];
    let visited2 = visited.insert(v.0);
    let all0 = done.push(Seq::<NodeId>::empty());
    let all = done.push(comp);
    assert(comp[0] == v);
    assert forall|c: int| 0 <= c < done.len() implies all[c] == all0[c] by {}
    assert(all_distinct(all)) by {
        assert forall|c1: int, i1: int, c2: int, i2: int|
            0 <= c1 < all.len() && 0 <= i1 < all[c1].len() && 0 <= c2 < all.len() && 0 <= i2
                < all[c2].len() && (c1 != c2 || i1 != i2) implies #[trigger] all[c1][i1]
            != #[trigger] all[c2][i2] by {
            if c1 < done.len() && c2 < done.len() {
                assert(all0[c1][i1] != all0[c2][i2]);
            } else if c1 < done.len() {
                assert(all[c2][i2] == v);
                if all[c1][i1] == v {
                    assert(done[c1][i1].0 == v.0);
                }
            } else if c2 < done.len() {
                assert(all[c1][i1] == v);
                if all[c2][i2] == v {
                    assert(done[c2][i2].0 == v.0);
                }
            }
        }
    }
    assert forall|c: int, i: int| 0 <= c < all.len() && 0 <= i < all[c].len() implies ns.contains(
        #[trigger] all[c][i],
    ) by {
        if c < done.len() {
            assert(all0[c][i] == all[c][i]);
        } else {
            assert(ns[t] == all[c][i]);
        }
    }
    assert forall|c: int, i: int| 0 <= c < all.len() && 0 <= i < all[c].len() implies reachable(
        adjacency(g, ns),
        all[c][0],
        #[trigger] all[c][i],
    ) by {
        if c < done.len() {
            assert(all0[c][i] == all[c][i] && all0[c][0] == all[c][0]);
        } else {
            assert(walk_of_len(adjacency(g, ns), v, v, 0));
        }
    }
    assert(tracks(visited2, done, comp)) by {
        assert forall|k: u64|
            visited2.contains(k) <==> (exists|c: int, j: int|
                0 <= c < done.len() && 0 <= j < done[c].len() && (#[trigger] done[c][j]).0 == k) || (
            exists|j: int| 0 <= j < comp.len() && (#[trigger] comp[j]).0 == k) by {
            if k == v.0 {
                assert(comp[0].0 == k);
            }
            if exists|j: int| 0 <= j < comp.len() && (#[trigger] comp[j]).0 == k {
                assert(comp[0].0 == k);
            }
            if !visited.contains(k) && k != v.0 {
                assert(tracks(visited, done, Seq::empty()));
            }
        }
    }
}

/// A new node `w`, adjacent to the node under expansion, joins the component.
proof fn lemma_cc_grow<G: EdgeSource>(
    g: &G,
    ns: Seq<NodeId>,
    done: Seq<Seq<NodeId>>,
    comp: Seq<NodeId>,
    head: int,
    visited: Set<u64>,
    t: int,
    w: NodeId,
)
    requires
        cc_ok(g, ns, done, comp, head, visited, t),
        0 <= head < comp.len(),
        adjacent(g, ns, comp[head], w),
        !visited.contains(w.0),
    ensures
        cc_ok(g, ns, done, comp.push(w), head, visited.insert(w.0), t),
{
    reveal(cc_ok);
    let comp2 = comp.push(w);
    let visited2 = visited.insert(w.0);
    let all0 = done.push(comp);
    let all = done.push(comp2);
    let n = done.len() as int;
    assert forall|c: int| 0 <= c < done.len() implies all[c] == all0[c] by {}
    assert(all[n] == comp2 && all0[n] == comp);
    assert forall|j: int| 0 <= j < comp.len() implies comp2[j] == comp[j] by {}
    assert(comp2[comp.len() as int] == w);
    assert(all_distinct(all)) by {
        assert forall|c1: int, i1: int, c2: int, i2: int|
            0 <= c1 < all.len() && 0 <= i1 < all[c1].len() && 0 <= c2 < all.len() && 0 <= i2
                < all[c2].len() && (c1 != c2 || i1 != i2) implies #[trigger] all[c1][i1]
            != #[trigger] all[c2][i2] by {
            let new1 = c1 == n && i1 == comp.len();
            let new2 = c2 == n && i2 == comp.len();
            if !new1 && !new2 {
                assert(all[c1][i1] == all0[c1][i1]);
                assert(all[c2][i2] == all0[c2][i2]);
            } else if new1 && !new2 {
                assert(all[c2][i2] == all0[c2][i2]);
                if all0[c2][i2] == w {
                    if c2 < n {
                        assert(done[c2][i2].0 == w.0);
                    } else {
                        assert(comp[i2].0 == w.0);
                    }
                }
            } else if !new1 && new2 {
                assert(all[c1][i1] == all0[c1][i1]);
                if all0[c1][i1] == w {
                    if c1 < n {
                        assert(done[c1][i1].0 == w.0);
                    } else {
                        assert(comp[i1].0 == w.0);
                    }
                }
            }
        }
    }
    assert forall|c: int, i: int| 0 <= c < all.len() && 0 <= i < all[c].len() implies ns.contains(
        #[trigger] all[c][i],
    ) by {
        if c < n || i < comp.len() {
            assert(all[c][i] == all0[c][i]);
        }
    }
    assert forall|c: int, i: int| 0 <= c < all.len() && 0 <= i < all[c].len() implies reachable(
        adjacency(g, ns),
        all[c][0],
        #[trigger] all[c][i],
    ) by {
        assert(all[c][0] == all0[c][0]);
        if c < n || i < comp.len() {
            assert(all[c][i] == all0[c][i]);
        } else {
            let e = adjacency(g, ns);
            assert(reachable(e, all0[n][0], all0[n][head]));
            let k = choose|k: nat| #[trigger] walk_of_len(e, comp[0], comp[head], k);
            lemma_walk_step(e, comp[0], comp[head], w, k);
        }
    }
    assert forall|i: int, v: NodeId|
        0 <= i < head && #[trigger] adjacent(g, ns, comp2[i], v) implies visited2.contains(v.0) by {
        assert(comp2[i] == comp[i]);
    }
    assert(tracks(visited2, done, comp2)) by {
        assert forall|k: u64|
            visited2.contains(k) <==> (exists|c: int, j: int|
                0 <= c < done.len() && 0 <= j < done[c].len() && (#[trigger] done[c][j]).0 == k) || (
            exists|j: int| 0 <= j < comp2.len() && (#[trigger] comp2[j]).0 == k) by {
            if k == w.0 {
                assert(comp2[comp.len() as int].0 == k);
            }
            if exists|j: int| 0 <= j < comp2.len() && (#[trigger] comp2[j]).0 == k {
                let j = choose|j: int| 0 <= j < comp2.len() && (#[trigger] comp2[j]).0 == k;
                if j < comp.len() {
                    assert(comp[j].0 == k);
                }
            }
            if visited.contains(k) {
                if !(exists|c: int, j: int|
                    0 <= c < done.len() && 0 <= j < done[c].len() && (#[trigger] done[c][j]).0
                        == k) {
                    let j = choose|j: int| 0 <= j < comp.len() && (#[trigger] comp[j]).0 == k;
                    assert(comp2[j].0 == k);
                }
            }
        }
    }
}

/// Once every neighbour of the node under expansion has been found, the
/// next node is expanded.
proof fn lemma_cc_advance<G: EdgeSource>(
    g: &G,
    ns: Seq<NodeId>,
    done: Seq<Seq<NodeId>>,
    comp: Seq<NodeId>,
    head: int,
    visited: Set<u64>,
    t: int,
)
    requires
        cc_ok(g, ns, done, comp, head, visited, t),
        0 <= head < comp.len(),
        forall|v: NodeId| #[trigger] adjacent(g, ns, comp[head], v) ==> visited.contains(v.0),
    ensures
        cc_ok(g, ns, done, comp, head + 1, visited, t),
{
    reveal(cc_ok);
}

/// A component with every node expanded is complete.
proof fn lemma_cc_finish<G: EdgeSource>(
    g: &G,
    ns: Seq<NodeId>,
    done: Seq<Seq<NodeId>>,
    comp: Seq<NodeId>,
    visited: Set<u64>,
    t: int,
)
    requires
        cc_ok(g, ns, done, comp, comp.len() as int, visited, t),
        comp.len() > 0,
    ensures
        cc_ok(g, ns, done.push(comp), Seq::empty(), 0, visited, t + 1),
{
    reveal(cc_ok);
    let done2 = done.push(comp);
    let n = done.len() as int;
    let all = done.push(comp);
    let all2 = done2.push(Seq::<NodeId>::empty());
    assert forall|c: int| 0 <= c < done2.len() implies all2[c] == all[c] by {}
    assert(all2[done2.len() as int].len() == 0);
    assert(all_distinct(all2)) by {
        assert forall|c1: int, i1: int, c2: int, i2: int|
            0 <= c1 < all2.len() && 0 <= i1 < all2[c1].len() && 0 <= c2 < all2.len() && 0 <= i2
                < all2[c2].len() && (c1 != c2 || i1 != i2) implies #[trigger] all2[c1][i1]
            != #[trigger] all2[c2][i2] by {
            assert(all2[c1] == all[c1] && all2[c2] == all[c2]);
        }
    }
    assert forall|c: int, i: int| 0 <= c < all2.len() && 0 <= i < all2[c].len() implies ns.contains(
        #[trigger] all2[c][i],
    ) by {
        assert(all2[c] == all[c]);
    }
    assert forall|c: int, i: int| 0 <= c < all2.len() && 0 <= i < all2[c].len() implies reachable(
        adjacency(g, ns),
        all2[c][0],
        #[trigger] all2[c][i],
    ) by {
        assert(all2[c] == all[c]);
    }
    assert forall|c: int, i: int, v: NodeId|
        0 <= c < done2.len() && 0 <= i < done2[c].len() && #[trigger] adjacent(
            g,
            ns,
            done2[c][i],
            v,
        ) implies in_components(done2, c + 1, v) by {
        if c < n {
            assert(done2[c] == done[c]);
            assert(in_components(done, c + 1, v));
            let (c1, j1) = choose|c1: int, j1: int|
                0 <= c1 < c + 1 && 0 <= j1 < done[c1].len() && #[trigger] done[c1][j1] == v;
            assert(done2[c1] == done[c1]);
            assert(done2[c1][j1] == v);
        } else {
            assert(done2[c] == comp);
            assert(visited.contains(v.0));
            if exists|j: int| 0 <= j < comp.len() && (#[trigger] comp[j]).0 == v.0 {
                let j = choose|j: int| 0 <= j < comp.len() && (#[trigger] comp[j]).0 == v.0;
                assert(comp[j] == v);
                assert(done2[n][j] == v);
            } else {
                let (c1, j1) = choose|c1: int, j1: int|
                    0 <= c1 < done.len() && 0 <= j1 < done[c1].len() && (#[trigger] done[c1][j1]).0
                        == v.0;
                assert(done[c1][j1] == v);
                assert(done2[c1] == done[c1]);
                assert(done2[c1][j1] == v);
            }
        }
    }
    assert(tracks(visited, done2, Seq::empty())) by {
        assert forall|k: u64|
            visited.contains(k) <==> (exists|c: int, j: int|
                0 <= c < done2.len() && 0 <= j < done2[c].len() && (#[trigger] done2[c][j]).0 == k)
                || (exists|j: int| 0 <= j < Seq::<NodeId>::empty().len() && (
            #[trigger] Seq::<NodeId>::empty()[j]).0 == k) by {
            if visited.contains(k) {
                if exists|j: int| 0 <= j < comp.len() && (#[trigger] comp[j]).0 == k {
                    let j = choose|j: int| 0 <= j < comp.len() && (#[trigger] comp[j]).0 == k;
                    assert(done2[n][j].0 == k);
                } else {
                    let (c1, j1) = choose|c1: int, j1: int|
                        0 <= c1 < done.len() && 0 <= j1 < done[c1].len() && (
                        #[trigger] done[c1][j1]).0 == k;
                    assert(done2[c1] == done[c1]);
                    assert(done2[c1][j1].0 == k);
                }
            }
            if exists|c: int, j: int|
                0 <= c < done2.len() && 0 <= j < done2[c].len() && (#[trigger] done2[c][j]).0 == k {
                let (c1, j1) = choose|c1: int, j1: int|
                    0 <= c1 < done2.len() && 0 <= j1 < done2[c1].len() && (
                    #[trigger] done2[c1][j1]).0 == k;
                if c1 < n {
                    assert(done2[c1] == done[c1]);
                    assert(done[c1][j1].0 == k);
                } else {
                    assert(comp[j1].0 == k);
                }
            }
        }
    }
}

/// When every node of `ns` has been looked at, the components are found.
proof fn lemma_cc_done<G: EdgeSource>(
    g: &G,
    ns: Seq<NodeId>,
    done: Seq<Seq<NodeId>>,
    visited: Set<u64>,
)
    requires
        cc_ok(g, ns, done, Seq::empty(), 0, visited, ns.len() as int),
    ensures
        components_of(g, ns, done),
{
    reveal(cc_ok);
    let all = done.push(Seq::<NodeId>::empty());
    assert forall|c: int| 0 <= c < done.len() implies all[c] == done[c] by {}
    assert(all_distinct(done)) by {
        assert forall|c1: int, i1: int, c2: int, i2: int|
            0 <= c1 < done.len() && 0 <= i1 < done[c1].len() && 0 <= c2 < done.len() && 0 <= i2
                < done[c2].len() && (c1 != c2 || i1 != i2) implies #[trigger] done[c1][i1]
            != #[trigger] done[c2][i2] by {
            assert(all[c1][i1] != all[c2][i2]);
        }
    }
    assert forall|c: int, i: int| 0 <= c < done.len() && 0 <= i < done[c].len() implies ns.contains(
        #[trigger] done[c][i],
    ) by {
        assert(all[c][i] == done[c][i]);
    }
    assert forall|c: int, i: int| 0 <= c < done.len() && 0 <= i < done[c].len() implies reachable(
        adjacency(g, ns),
        done[c][0],
        #[trigger] done[c][i],
    ) by {
        assert(all[c][i] == done[c][i] && all[c][0] == done[c][0]);
    }
    assert forall|s: int| 0 <= s < ns.len() implies in_components(
        done,
        done.len() as int,
        #[trigger] ns[s],
    ) by {
        assert(visited.contains(ns[s].0));
        if exists|j: int|
            0 <= j < Seq::<NodeId>::empty().len() && (#[trigger] Seq::<NodeId>::empty()[j]).0
                == ns[s].0 {
        }
        let (c1, j1) = choose|c1: int, j1: int|
            0 <= c1 < done.len() && 0 <= j1 < done[c1].len() && (#[trigger] done[c1][j1]).0
                == ns[s].0;
        assert(done[c1][j1] == ns[s]);
    }
}

/// The facts about a search state that its users read directly.
proof fn lemma_cc_facts<G: EdgeSource>(
    g: &G,
    ns: Seq<NodeId>,
    done: Seq<Seq<NodeId>>,
    comp: Seq<NodeId>,
    head: int,
    visited: Set<u64>,
    t: int,
)
    requires
        cc_ok(g, ns, done, comp, head, visited, t),
    ensures
        0 <= head <= comp.len(),
        comp.len() <= ns.len(),
        forall|j: int| 0 <= j < comp.len() ==> visited.contains((#[trigger] comp[j]).0),
{
    reveal(cc_ok);
    let all = done.push(comp);
    let n = done.len() as int;
    assert(all[n] == comp);
    assert forall|j: int| 0 <= j < comp.len() implies visited.contains((#[trigger] comp[j]).0) by {}
    // The component's nodes are distinct nodes of `ns`.
    let u = ns.to_set();
    vstd::seq_lib::seq_to_set_is_finite(ns);
    ns.lemma_cardinality_of_set();
    assert(comp.no_duplicates()) by {
        assert forall|a: int, b: int| 0 <= a < comp.len() && 0 <= b < comp.len() && a != b implies comp[a]
            != comp[b] by {
            assert(all[n][a] != all[n][b]);
        }
    }
    comp.unique_seq_to_set();
    assert(comp.to_set().subset_of(u)) by {
        assert forall|x: NodeId| comp.to_set().contains(x) implies u.contains(x) by {
            let j = choose|j: int| 0 <= j < comp.len() && comp[j] == x;
            assert(ns.contains(all[n][j]));
        }
    }
    vstd::set_lib::lemma_len_subset(comp.to_set(), u);
}

/// A components search in progress: how many nodes of the list have been
/// considered, the identifiers visited, the components finished, and,
/// while `active`, the component being grown breadth-first, `head` of its
/// nodes expanded so far.
pub struct CcState {
    pub t: nat,
    pub visited: Set<u64>,
    pub comps: Seq<Seq<NodeId>>,
    pub comp: Seq<NodeId>,
    pub head: nat,
    pub active: bool,
}

/// Follow the neighbour entries `nbrs` in order: each neighbour that is a
/// node of `ns` and not yet visited is visited and appended to `comp`.
pub open spec fn cc_discover(
    nbrs: Seq<(EdgeId, NodeId)>,
    ns: Seq<NodeId>,
    visited: Set<u64>,
    comp: Seq<NodeId>,
) -> (Set<u64>, Seq<NodeId>)
    decreases nbrs.len(),
{
    if nbrs.len() == 0 {
        (visited, comp)
    } else {
        let prev = cc_discover(nbrs.drop_last(), ns, visited, comp);
        let v = nbrs.last().1;
        if ns.contains(v) && !prev.0.contains(v.0) {
            (prev.0.insert(v.0), prev.1.push(v))
        } else {
            prev
        }
    }
}

/// One step of the search: expand the next node of the component being
/// grown, or finish it when all are expanded; otherwise consider the next
/// node of the list, starting a component from it unless it is visited.
pub open spec fn cc_step<G: EdgeSource>(g: &G, ns: Seq<NodeId>, s: CcState) -> CcState {
    if s.active {
        if s.head < s.comp.len() {
            let cur = s.comp[s.head as int];
            let d = cc_discover(
                g.edges_of(cur, Direction::Both).map_values(|e: EdgeLink| neighbor_entry(e, cur)),
                ns,
                s.visited,
                s.comp,
            );
            CcState { t: s.t, visited: d.0, comps: s.comps, comp: d.1, head: s.head + 1, active: true }
        } else {
            CcState {
                t: s.t + 1,
                visited: s.visited,
                comps: s.comps.push(s.comp),
                comp: Seq::empty(),
                head: 0,
                active: false,
            }
        }
    } else if s.t < ns.len() {
        let start = ns[s.t as int];
        if s.visited.contains(start.0) {
            CcState {
                t: s.t + 1,
                visited: s.visited,
                comps: s.comps,
                comp: s.comp,
                head: s.head,
                active: false,
            }
        } else {
            CcState {
                t: s.t,
                visited: s.visited.insert(start.0),
                comps: s.comps,
                comp: seq![start],
                head: 0,
                active: true,
            }
        }
    } else {
        s
    }
}

/// The search over `ns` after `n` steps.
pub open spec fn cc_run<G: EdgeSource>(g: &G, ns: Seq<NodeId>, n: nat) -> CcState
    decreases n,
{
    if n == 0 {
        CcState {
            t: 0,
            visited: Set::empty(),
            comps: Seq::empty(),
            comp: Seq::empty(),
            head: 0,
            active: false,
        }
    } else {
        cc_step(g, ns, cc_run(g, ns, (n - 1) as nat))
    }
}

/// `comps` lists the components in the order the search finds them, each
/// in breadth-first order: what the search over `ns` has finished once it
/// has considered every node.
pub open spec fn cc_order<G: EdgeSource>(g: &G, ns: Seq<NodeId>, comps: Seq<Seq<NodeId>>) -> bool {
    exists|n: nat|
        (#[trigger] cc_run(g, ns, n)).t >= ns.len() && !cc_run(g, ns, n).active && cc_run(
            g,
            ns,
            n,
        ).comps == comps
}

/// Find all connected components of `nodes`, treating edges as undirected:
/// a breadth-first search from each node not yet found, following edges in
/// both directions to nodes of `nodes`. Every node of `nodes` appears in
/// exactly one component.
pub fn connected_components<G: EdgeSource>(graph: &G, nodes: &[NodeId]) -> (r: Result<
    Vec<Vec<NodeId>>,
    AstraeaError,
>)
    ensures
        r matches Ok(v) ==> components_of(graph, nodes@, v@.map_values(|c: Vec<NodeId>| c@)),
        r matches Ok(v) ==> cc_order(graph, nodes@, v@.map_values(|c: Vec<NodeId>| c@)),
        graph.never_fails() ==> r is Ok,
{
    let ghost ns = nodes@;
    let mut node_set: HashSet<u64> = HashSet::new();
    let mut s: usize = 0;
    while s < nodes.len()
        invariant
            ns == nodes@,
            s <= ns.len(),
            forall|k: u64|
                node_set@.contains(k) <==> exists|i: int| 0 <= i < s && (#[trigger] ns[i]).0 == k,
        decreases ns.len() - s,
    {
        node_set.insert(nodes[s].0);
        proof {
            assert forall|k: u64|
                node_set@.contains(k) <==> exists|i: int| 0 <= i < s + 1 && (#[trigger] ns[i]).0 == k by {
                if k == ns[s as int].0 {
                    assert(ns[s as int].0 == k);
                }
            }
        }
        s = s + 1;
    }
    let mut visited: HashSet<u64> = HashSet::new();
    let mut components: Vec<Vec<NodeId>> = Vec::new();
    let ghost mut done: Seq<Seq<NodeId>> = Seq::empty();
    let ghost mut steps: nat = 0;
    proof {
        lemma_cc_init(graph, ns);
        assert(visited@ =~= Set::<u64>::empty());
    }
    let mut t: usize = 0;
    while t < nodes.len()
        invariant
            ns == nodes@,
            t <= ns.len(),
            forall|k: u64|
                node_set@.contains(k) <==> exists|i: int| 0 <= i < ns.len() && (#[trigger] ns[i]).0 == k,
            done == components@.map_values(|c: Vec<NodeId>| c@),
            cc_ok(graph, ns, done, Seq::empty(), 0, visited@, t as int),
            cc_run(graph, ns, steps) == (CcState {
                t: t as nat,
                visited: visited@,
                comps: done,
                comp: Seq::empty(),
                head: 0,
                active: false,
            }),
        decreases ns.len() - t,
    {
        let start = nodes[t];
        if visited.contains(&start.0) {
            proof {
                lemma_cc_skip(graph, ns, done, visited@, t as int);
                steps = steps + 1;
            }
            t = t + 1;
            continue;
        }
        let ghost visited0 = visited@;
        visited.insert(start.0);
        let mut component: Vec<NodeId> = Vec::new();
        component.push(start);
        proof {
            lemma_cc_start(graph, ns, done, visited0, t as int);
            assert(component@ == seq![ns[t as int]]);
            steps = steps + 1;
        }
        let mut head: usize = 0;
        while head < component.len()
            invariant
                ns == nodes@,
                t < ns.len(),
                forall|k: u64|
                    node_set@.contains(k) <==> exists|i: int|
                        0 <= i < ns.len() && (#[trigger] ns[i]).0 == k,
                done == components@.map_values(|c: Vec<NodeId>| c@),
                component@.len() >= 1,
                cc_ok(graph, ns, done, component@, head as int, visited@, t as int),
                cc_run(graph, ns, steps) == (CcState {
                    t: t as nat,
                    visited: visited@,
                    comps: done,
                    comp: component@,
                    head: head as nat,
                    active: true,
                }),
            decreases 2 * ns.len() - component@.len() - head,
        {
            proof {
                lemma_cc_facts(graph, ns, done, component@, head as int, visited@, t as int);
            }
            let current = component[head];
            let nbrs = match neighbors(graph, current, Direction::Both) {
                Ok(v) => v,
                Err(err) => {
                    return Err(err);
                },
            };
            let ghost len0 = component@.len();
            let ghost visited0 = visited@;
            let ghost comp0 = component@;
            let mut k: usize = 0;
            while k < nbrs.len()
                invariant
                    len0 <= component@.len(),
                    ns == nodes@,
                    t < ns.len(),
                    forall|key: u64|
                        node_set@.contains(key) <==> exists|i: int|
                            0 <= i < ns.len() && (#[trigger] ns[i]).0 == key,
                    done == components@.map_values(|c: Vec<NodeId>| c@),
                    head < component@.len(),
                    current == component@[head as int],
                    cc_ok(graph, ns, done, component@, head as int, visited@, t as int),
                    nbrs@ == graph.edges_of(current, Direction::Both).map_values(
                        |e: EdgeLink| neighbor_entry(e, current),
                    ),
                    k <= nbrs@.len(),
                    forall|m: int|
                        0 <= m < k && ns.contains((#[trigger] nbrs@[m]).1) ==> visited@.contains(
                            nbrs@[m].1.0,
                        ),
                    (visited@, component@) == cc_discover(nbrs@.take(k as int), ns, visited0, comp0),
                decreases nbrs@.len() - k,
            {
                let neighbor = nbrs[k].1;
                proof {
                    assert(nbrs@.take(k + 1).drop_last() == nbrs@.take(k as int));
                    assert(nbrs@.take(k + 1).last() == nbrs@[k as int]);
                }
                proof {
                    assert(NodeId(neighbor.0) == neighbor);
                    if ns.contains(neighbor) {
                        let i = choose|i: int| 0 <= i < ns.len() && ns[i] == neighbor;
                        assert(ns[i].0 == neighbor.0);
                    }
                }
                if node_set.contains(&neighbor.0) {
                    proof {
                        let i = choose|i: int| 0 <= i < ns.len() && (#[trigger] ns[i]).0 == neighbor.0;
                        assert(ns[i] == neighbor);
                    }
                    let ghost old_visited = visited@;
                    if visited.insert(neighbor.0) {
                        proof {
                            let e = graph.edges_of(current, Direction::Both)[k as int];
                            assert(nbrs@[k as int] == neighbor_entry(e, current));
                            assert(adjacent(graph, ns, current, neighbor));
                            lemma_cc_grow(
                                graph,
                                ns,
                                done,
                                component@,
                                head as int,
                                old_visited,
                                t as int,
                                neighbor,
                            );
                        }
                        component.push(neighbor);
                    } else {
                        assert(visited@ =~= old_visited);
                    }
                }
                k = k + 1;
            }
            proof {
                assert forall|v: NodeId| #[trigger] adjacent(graph, ns, current, v) implies visited@.contains(
                    v.0,
                ) by {
                    let m = choose|m: int|
                        0 <= m < graph.edges_of(current, Direction::Both).len() && far_end(
                            #[trigger] graph.edges_of(current, Direction::Both)[m],
                            current,
                        ) == v;
                    assert(nbrs@[m].1 == v);
                }
                lemma_cc_advance(graph, ns, done, component@, head as int, visited@, t as int);
                lemma_cc_facts(graph, ns, done, component@, head + 1, visited@, t as int);
                assert(nbrs@.take(nbrs@.len() as int) == nbrs@);
                steps = steps + 1;
            }
            head = head + 1;
        }
        proof {
            lemma_cc_facts(graph, ns, done, component@, head as int, visited@, t as int);
            lemma_cc_finish(graph, ns, done, component@, visited@, t as int);
            done = done.push(component@);
            steps = steps + 1;
        }
        components.push(component);
        proof {
            assert(done == components@.map_values(|c: Vec<NodeId>| c@));
        }
        t = t + 1;
    }
    proof {
        lemma_cc_done(graph, ns, done, visited@);
    }
    let outcome: Result<Vec<Vec<NodeId>>, AstraeaError> = Ok(components);
    assert(outcome matches Ok(v) ==> cc_run(graph, ns, steps).comps == v@.map_values(
        |c: Vec<NodeId>| c@,
    ));
    outcome
}

/// Adjacency in an edge list goes both ways between nodes of the set.
pub proof fn lemma_edge_list_adjacent_symmetric(g: &EdgeList, ns: Seq<NodeId>, u: NodeId, v: NodeId)
    requires
        adjacent(g, ns, u, v),
        ns.contains(u),
    ensures
        adjacent(g, ns, v, u),
{
    let i = choose|i: int|
        0 <= i < g.edges_of(u, Direction::Both).len() && far_end(
            #[trigger] g.edges_of(u, Direction::Both)[i],
            u,
        ) == v;
    lemma_edge_list_far_end_symmetric(g, u, i);
}

/// For an edge list, each component is closed: every neighbour of a node
/// of a component lies in that same component, so the components are
/// exactly the weakly connected components of the nodes.
pub proof fn lemma_edge_list_components_closed(
    g: &EdgeList,
    ns: Seq<NodeId>,
    comps: Seq<Seq<NodeId>>,
    c: int,
    i: int,
    v: NodeId,
)
    requires
        components_of(g, ns, comps),
        0 <= c < comps.len(),
        0 <= i < comps[c].len(),
        adjacent(g, ns, comps[c][i], v),
    ensures
        comps[c].contains(v),
{
    let u = comps[c][i];
    assert(in_components(comps, c + 1, v));
    let (c1, j1) = choose|c1: int, j1: int|
        0 <= c1 < c + 1 && 0 <= j1 < comps[c1].len() && #[trigger] comps[c1][j1] == v;
    assert(ns.contains(u));
    lemma_edge_list_adjacent_symmetric(g, ns, u, v);
    assert(adjacent(g, ns, comps[c1][j1], u));
    assert(in_components(comps, c1 + 1, u));
    let (c2, j2) = choose|c2: int, j2: int|
        0 <= c2 < c1 + 1 && 0 <= j2 < comps[c2].len() && #[trigger] comps[c2][j2] == u;
    if c2 != c {
        assert(comps[c2][j2] != comps[c][i]);
    }
    assert(comps[c][j1] == v);
}

} // verus!
