//! Strongly connected components by Tarjan's algorithm, run with an explicit
//! work stack in place of recursion.

use std::collections::HashMap;
use std::collections::HashSet;

use vstd::prelude::*;

use crate::components::{all_distinct, in_components};
use crate::error::AstraeaError;
use crate::reach::{lemma_reachable_edge, lemma_reachable_trans, lemma_walk_pred, reachable, walk_of_len};
use crate::traversal::{far_end, neighbor_entry, neighbors, EdgeLink, EdgeSource};
use crate::types::{Direction, NodeId};

verus! {

broadcast use vstd::std_specs::hash::group_hash_axioms;

/// `v` is one of `ns`, and `g` hands out an outgoing edge of `u` whose far
/// end is `v`.
pub open spec fn succ<G: EdgeSource>(g: &G, ns: Seq<NodeId>, u: NodeId, v: NodeId) -> bool {
    &&& ns.contains(v)
    &&& exists|i: int|
        0 <= i < g.edges_of(u, Direction::Outgoing).len() && far_end(
            #[trigger] g.edges_of(u, Direction::Outgoing)[i],
            u,
        ) == v
}

/// The directed edge relation among `ns`.
pub open spec fn arcs<G: EdgeSource>(g: &G, ns: Seq<NodeId>) -> spec_fn(NodeId, NodeId) -> bool {
    |u: NodeId, v: NodeId| succ(g, ns, u, v)
}

/// `v` can be reached from `u` along edges among `ns`.
pub open spec fn reaches<G: EdgeSource>(g: &G, ns: Seq<NodeId>, u: NodeId, v: NodeId) -> bool {
    reachable(arcs(g, ns), u, v)
}

/// `sccs` partition `ns` into strongly connected sets: none is empty, no
/// node occurs twice, they hold exactly the nodes of `ns`, and within each
/// set every node reaches every other.
pub open spec fn scc_partition<G: EdgeSource>(
    g: &G,
    ns: Seq<NodeId>,
    sccs: Seq<Seq<NodeId>>,
) -> bool {
    &&& forall|c: int| 0 <= c < sccs.len() ==> #[trigger] sccs[c].len() > 0
    &&& all_distinct(sccs)
    &&& forall|c: int, i: int|
        0 <= c < sccs.len() && 0 <= i < sccs[c].len() ==> ns.contains(#[trigger] sccs[c][i])
    &&& forall|t: int| 0 <= t < ns.len() ==> in_components(sccs, sccs.len() as int, #[trigger] ns[t])
    &&& forall|c: int, a: int, b: int|
        0 <= c < sccs.len() && 0 <= a < sccs[c].len() && 0 <= b < sccs[c].len() ==> reaches(
            g,
            ns,
            #[trigger] sccs[c][a],
            #[trigger] sccs[c][b],
        )
}

/// `sccs` come in reverse topological order: every successor of a node of a
/// set lies in that set or an earlier one; so no two sets reach each other
/// both ways, and each set is a maximal strongly connected set.
pub open spec fn scc_order<G: EdgeSource>(g: &G, ns: Seq<NodeId>, sccs: Seq<Seq<NodeId>>) -> bool {
    &&& forall|c: int, i: int, v: NodeId|
        0 <= c < sccs.len() && 0 <= i < sccs[c].len() && #[trigger] succ(g, ns, sccs[c][i], v)
            ==> in_components(sccs, c + 1, v)
    &&& forall|c1: int, a: int, c2: int, b: int|
        0 <= c1 < sccs.len() && 0 <= a < sccs[c1].len() && 0 <= c2 < sccs.len() && 0 <= b
            < sccs[c2].len() && #[trigger] reaches(g, ns, sccs[c1][a], sccs[c2][b])
            && #[trigger] reaches(g, ns, sccs[c2][b], sccs[c1][a]) ==> c1 == c2
}

/// A step of the explicit depth-first search.
enum Frame {
    /// Number a new node, push it on the component stack and list its edges.
    Enter { node: NodeId },
    /// Back from the child `child`: take its lowlink, then go on with the
    /// node's remaining neighbours.
    Resume { node: NodeId, child: NodeId, remaining: Vec<NodeId> },
    /// Go on with the node's remaining neighbours.
    Continue { node: NodeId, remaining: Vec<NodeId> },
}

/// Where the search stands, beside its frames.
#[allow(dead_code)]
enum Top {
    /// The top frame enters this node.
    Fresh(NodeId),
    /// The top frame continues the last node of the path.
    Open,
    /// The top frame resumes the last node of the path after this child.
    Returned(NodeId),
    /// No frame is left.
    Idle,
}

spec fn frame_weight(f: Frame) -> nat {
    match f {
        Frame::Enter { .. } => 0,
        Frame::Resume { remaining, .. } => 2 * remaining@.len() + 2,
        Frame::Continue { remaining, .. } => 2 * remaining@.len() + 1,
    }
}

spec fn work_weight(work: Seq<Frame>) -> nat
    decreases work.len(),
{
    if work.len() == 0 {
        0
    } else {
        work_weight(work.drop_last()) + frame_weight(work.last())
    }
}

proof fn lemma_work_weight_push(work: Seq<Frame>, f: Frame)
    ensures
        work_weight(work.push(f)) == work_weight(work) + frame_weight(f),
{
    assert(work.push(f).drop_last() == work);
}

/// Frame `f` resumes `node` after `child`.
spec fn resumes(f: Frame, node: NodeId, child: NodeId) -> bool {
    f matches Frame::Resume { node: n, child: c, .. } && n == node && c == child
}

/// Every neighbour left in frame `f` is a successor of its node.
spec fn frame_ok<G: EdgeSource>(g: &G, ns: Seq<NodeId>, f: Frame) -> bool {
    match f {
        Frame::Enter { .. } => true,
        Frame::Resume { node, remaining, .. } => forall|k: int|
            0 <= k < remaining@.len() ==> succ(g, ns, node, #[trigger] remaining@[k]),
        Frame::Continue { node, remaining } => forall|k: int|
            0 <= k < remaining@.len() ==> succ(g, ns, node, #[trigger] remaining@[k]),
    }
}

/// The first `m` frames resume the nodes of `path` in turn, each after the
/// next node of the path, the last of them after `last_child`.
spec fn resume_chain(work: Seq<Frame>, path: Seq<NodeId>, m: int, last_child: NodeId) -> bool {
    forall|j: int|
        0 <= j < m ==> resumes(
            #[trigger] work[j],
            path[j],
            if j + 1 < path.len() {
                path[j + 1]
            } else {
                last_child
            },
        )
}

/// The neighbours left in frame `f`.
spec fn frame_rem(f: Frame) -> Seq<NodeId> {
    match f {
        Frame::Enter { .. } => Seq::empty(),
        Frame::Resume { remaining, .. } => remaining@,
        Frame::Continue { remaining, .. } => remaining@,
    }
}

/// The first frames hold the neighbours `rems` left to the open nodes.
spec fn rems_match(work: Seq<Frame>, rems: Seq<Seq<NodeId>>, m: int) -> bool {
    forall|j: int| 0 <= j < m ==> frame_rem(#[trigger] work[j]) == rems[j]
}

/// The frames match the path of open nodes and where the search stands.
spec fn frames_ok<G: EdgeSource>(g: &G, ns: Seq<NodeId>, path: Seq<NodeId>, work: Seq<Frame>, top: Top) -> bool {
    &&& forall|j: int| 0 <= j < work.len() ==> frame_ok(g, ns, #[trigger] work[j])
    &&& match top {
        Top::Fresh(y) => {
            &&& work.len() == path.len() + 1
            &&& work.last() matches Frame::Enter { node } && node == y
            &&& resume_chain(work, path, path.len() as int, y)
        },
        Top::Open => {
            &&& path.len() >= 1
            &&& work.len() == path.len()
            &&& work.last() matches Frame::Continue { node, .. } && node == path.last()
            &&& resume_chain(work, path, path.len() - 1, path.last())
        },
        Top::Returned(c) => {
            &&& path.len() >= 1
            &&& work.len() == path.len()
            &&& resume_chain(work, path, path.len() as int, c)
        },
        Top::Idle => work.len() == 0 && path.len() == 0,
    }
}

/// `idx` numbers the `counter` nodes entered so far, all of `node_ids`,
/// distinctly and below `counter`; `low` holds a lowlink for each, no
/// greater than its number.
#[verifier::opaque]
spec fn tj_num(node_ids: Set<u64>, idx: Map<u64, u64>, low: Map<u64, u64>, counter: nat) -> bool {
    &&& node_ids.finite()
    &&& idx.dom() == low.dom()
    &&& idx.dom().subset_of(node_ids)
    &&& idx.dom().len() == counter
    &&& forall|k: u64| #[trigger] idx.contains_key(k) ==> idx[k] < counter && low[k] <= idx[k]
    &&& forall|k1: u64, k2: u64|
        #[trigger] idx.contains_key(k1) && #[trigger] idx.contains_key(k2) && k1 != k2 ==> idx[k1]
            != idx[k2]
}

/// The component stack holds numbered nodes of `ns` in entering order, and
/// `ons` holds their identifiers.
#[verifier::opaque]
spec fn tj_stack(ns: Seq<NodeId>, idx: Map<u64, u64>, st: Seq<NodeId>, ons: Set<u64>) -> bool {
    &&& forall|i: int|
        0 <= i < st.len() ==> idx.contains_key((#[trigger] st[i]).0) && ns.contains(st[i])
    &&& forall|i: int, j: int| 0 <= i < j < st.len() ==> idx[(#[trigger] st[i]).0] < idx[(#[trigger] st[j]).0]
    &&& forall|k: u64| ons.contains(k) <==> exists|i: int| 0 <= i < st.len() && (#[trigger] st[i]).0 == k
}

/// The open nodes are on the stack, in entering order, each an edge from
/// the one before, the first at the bottom of the stack.
#[verifier::opaque]
spec fn tj_path<G: EdgeSource>(
    g: &G,
    ns: Seq<NodeId>,
    idx: Map<u64, u64>,
    st: Seq<NodeId>,
    ons: Set<u64>,
    path: Seq<NodeId>,
) -> bool {
    &&& forall|j: int| 0 <= j < path.len() ==> ons.contains((#[trigger] path[j]).0)
    &&& forall|j: int, k: int|
        0 <= j < k < path.len() ==> idx[(#[trigger] path[j]).0] < idx[(#[trigger] path[k]).0]
    &&& forall|j: int| 0 <= j < path.len() - 1 ==> succ(g, ns, #[trigger] path[j], path[j + 1])
    &&& path.len() > 0 ==> st.len() > 0 && st[0] == path[0]
    &&& path.len() == 0 ==> st.len() == 0
}

/// Each stack node reaches the stack node its lowlink numbers.
#[verifier::opaque]
spec fn tj_low<G: EdgeSource>(
    g: &G,
    ns: Seq<NodeId>,
    idx: Map<u64, u64>,
    low: Map<u64, u64>,
    st: Seq<NodeId>,
) -> bool {
    forall|i: int| 0 <= i < st.len() ==> #[trigger] low_witness(g, ns, idx, low, st, i)
}

/// Stack node `i` reaches the stack node its lowlink numbers.
spec fn low_witness<G: EdgeSource>(
    g: &G,
    ns: Seq<NodeId>,
    idx: Map<u64, u64>,
    low: Map<u64, u64>,
    st: Seq<NodeId>,
    i: int,
) -> bool {
    exists|m: int|
        0 <= m < st.len() && idx[st[m].0] == low[st[i].0] && #[trigger] reaches(g, ns, st[i], st[m])
}

/// Each stack node reaches an open node entered no later.
#[verifier::opaque]
spec fn tj_gray<G: EdgeSource>(
    g: &G,
    ns: Seq<NodeId>,
    idx: Map<u64, u64>,
    st: Seq<NodeId>,
    path: Seq<NodeId>,
) -> bool {
    forall|i: int| 0 <= i < st.len() ==> #[trigger] gray_witness(g, ns, idx, st, path, i)
}

/// Stack node `i` reaches an open node entered no later.
spec fn gray_witness<G: EdgeSource>(
    g: &G,
    ns: Seq<NodeId>,
    idx: Map<u64, u64>,
    st: Seq<NodeId>,
    path: Seq<NodeId>,
    i: int,
) -> bool {
    exists|j: int|
        0 <= j < path.len() && idx[path[j].0] <= idx[st[i].0] && #[trigger] reaches(
            g,
            ns,
            st[i],
            path[j],
        )
}

/// Each open node reaches the stack nodes entered after it.
#[verifier::opaque]
spec fn tj_desc<G: EdgeSource>(
    g: &G,
    ns: Seq<NodeId>,
    idx: Map<u64, u64>,
    st: Seq<NodeId>,
    path: Seq<NodeId>,
) -> bool {
    forall|j: int, i: int|
        0 <= j < path.len() && 0 <= i < st.len() && idx[(#[trigger] path[j]).0] <= idx[(
        #[trigger] st[i]).0] ==> reaches(g, ns, path[j], st[i])
}

/// The components found: none empty, no node twice, all numbered nodes of
/// `ns` off the stack, every numbered node on the stack or in one, and
/// each strongly connected.
#[verifier::opaque]
spec fn tj_sccs<G: EdgeSource>(
    g: &G,
    ns: Seq<NodeId>,
    idx: Map<u64, u64>,
    ons: Set<u64>,
    sccs: Seq<Seq<NodeId>>,
) -> bool {
    &&& forall|c: int| 0 <= c < sccs.len() ==> #[trigger] sccs[c].len() > 0
    &&& all_distinct(sccs)
    &&& forall|c: int, i: int|
        0 <= c < sccs.len() && 0 <= i < sccs[c].len() ==> idx.contains_key(
            (#[trigger] sccs[c][i]).0,
        ) && !ons.contains(sccs[c][i].0) && ns.contains(sccs[c][i])
    &&& forall|k: u64|
        #[trigger] idx.contains_key(k) ==> ons.contains(k) || exists|c: int, i: int|
            0 <= c < sccs.len() && 0 <= i < sccs[c].len() && (#[trigger] sccs[c][i]).0 == k
    &&& forall|c: int, a: int, b: int|
        0 <= c < sccs.len() && 0 <= a < sccs[c].len() && 0 <= b < sccs[c].len() ==> reaches(
            g,
            ns,
            #[trigger] sccs[c][a],
            #[trigger] sccs[c][b],
        )
}

/// The state of the search apart from its frames. `idx` numbers the nodes
/// entered so far (`counter` of them) and `low` holds their lowlinks; `st`
/// is the component stack, whose identifiers `ons` holds; `path` lists the
/// open nodes, from the root of the current tree; `sccs` are the components
/// found.
spec fn tj_core<G: EdgeSource>(
    g: &G,
    ns: Seq<NodeId>,
    node_ids: Set<u64>,
    idx: Map<u64, u64>,
    low: Map<u64, u64>,
    counter: nat,
    st: Seq<NodeId>,
    ons: Set<u64>,
    path: Seq<NodeId>,
    sccs: Seq<Seq<NodeId>>,
) -> bool {
    &&& tj_num(node_ids, idx, low, counter)
    &&& tj_stack(ns, idx, st, ons)
    &&& tj_path(g, ns, idx, st, ons, path)
    &&& tj_low(g, ns, idx, low, st)
    &&& tj_gray(g, ns, idx, st, path)
    &&& tj_desc(g, ns, idx, st, path)
    &&& tj_sccs(g, ns, idx, ons, sccs)
}

/// What the search needs to know of the node or child at the top.
spec fn top_ok<G: EdgeSource>(
    g: &G,
    ns: Seq<NodeId>,
    idx: Map<u64, u64>,
    low: Map<u64, u64>,
    ons: Set<u64>,
    path: Seq<NodeId>,
    top: Top,
) -> bool {
    match top {
        Top::Fresh(y) => {
            &&& !idx.contains_key(y.0)
            &&& ns.contains(y)
            &&& path.len() > 0 ==> succ(g, ns, path.last(), y)
        },
        Top::Returned(c) => {
            &&& idx.contains_key(c.0)
            &&& idx[c.0] > idx[path.last().0]
            &&& succ(g, ns, path.last(), c)
            &&& !ons.contains(c.0) ==> low[c.0] == idx[c.0]
        },
        _ => true,
    }
}

/// Along the path of open nodes, each reaches every later one.
proof fn lemma_path_reaches<G: EdgeSource>(g: &G, ns: Seq<NodeId>, path: Seq<NodeId>, j: int, k: int)
    requires
        forall|m: int| 0 <= m < path.len() - 1 ==> succ(g, ns, #[trigger] path[m], path[m + 1]),
        0 <= j <= k < path.len(),
    ensures
        reaches(g, ns, path[j], path[k]),
    decreases k - j,
{
    let e = arcs(g, ns);
    lemma_reachable_edge(e, path[j], path[j]);
    if j < k {
        lemma_path_reaches(g, ns, path, j, k - 1);
        assert(succ(g, ns, path[k - 1], path[k]));
        lemma_reachable_edge(e, path[k - 1], path[k]);
        lemma_reachable_trans(e, path[j], path[k - 1], path[k]);
    }
}

proof fn lemma_tj_init<G: EdgeSource>(g: &G, ns: Seq<NodeId>, node_ids: Set<u64>)
    requires
        node_ids.finite(),
    ensures
        tj_core(
            g,
            ns,
            node_ids,
            Map::empty(),
            Map::empty(),
            0,
            Seq::empty(),
            Set::empty(),
            Seq::empty(),
            Seq::empty(),
        ),
{
    reveal(tj_num);
    reveal(tj_stack);
    reveal(tj_path);
    reveal(tj_low);
    reveal(tj_gray);
    reveal(tj_desc);
    reveal(tj_sccs);
    assert(Map::<u64, u64>::empty().dom() =~= Set::<u64>::empty());
}

/// The facts about the search state that its steps read directly.
proof fn lemma_tj_facts<G: EdgeSource>(
    g: &G,
    ns: Seq<NodeId>,
    node_ids: Set<u64>,
    idx: Map<u64, u64>,
    low: Map<u64, u64>,
    counter: nat,
    st: Seq<NodeId>,
    ons: Set<u64>,
    path: Seq<NodeId>,
    sccs: Seq<Seq<NodeId>>,
)
    requires
        tj_core(g, ns, node_ids, idx, low, counter, st, ons, path, sccs),
    ensures
        idx.dom() == low.dom(),
        counter <= node_ids.len(),
        forall|k: u64| idx.contains_key(k) ==> node_ids.contains(k),
        forall|k: u64| #[trigger] idx.contains_key(k) ==> idx[k] < counter && low[k] <= idx[k],
        forall|j: int| 0 <= j < path.len() ==> ons.contains((#[trigger] path[j]).0),
        forall|j: int| 0 <= j < path.len() ==> idx.contains_key((#[trigger] path[j]).0),
        forall|k: u64| ons.contains(k) ==> idx.contains_key(k),
        forall|k: u64| ons.contains(k) <==> exists|i: int| 0 <= i < st.len() && (#[trigger] st[i]).0 == k,
        path.len() == 0 ==> st.len() == 0 && ons.is_empty(),
        path.len() > 0 ==> st.len() > 0 && st[0] == path[0],
        forall|j: int| 0 <= j < path.len() - 1 ==> succ(g, ns, #[trigger] path[j], path[j + 1]),
        forall|j: int, k: int|
            0 <= j < k < path.len() ==> idx[(#[trigger] path[j]).0] < idx[(#[trigger] path[k]).0],
        forall|i: int| 0 <= i < st.len() ==> idx.contains_key((#[trigger] st[i]).0) && ns.contains(st[i]),
        forall|i: int, j: int| 0 <= i < j < st.len() ==> idx[(#[trigger] st[i]).0] < idx[(#[trigger] st[j]).0],
        forall|k: u64| node_ids.contains(k) && !idx.contains_key(k) ==> counter < node_ids.len(),
{
    reveal(tj_num);
    reveal(tj_stack);
    reveal(tj_path);
    vstd::set_lib::lemma_len_subset(idx.dom(), node_ids);
    assert forall|k: u64| node_ids.contains(k) && !idx.contains_key(k) implies counter < node_ids.len() by {
        vstd::set_lib::lemma_len_subset(idx.dom().insert(k), node_ids);
    }
    assert forall|j: int| 0 <= j < path.len() implies idx.contains_key((#[trigger] path[j]).0) by {
        assert(ons.contains(path[j].0));
        let i = choose|i: int| 0 <= i < st.len() && (#[trigger] st[i]).0 == path[j].0;
        assert(idx.contains_key(st[i].0));
    }
    assert forall|k: u64| ons.contains(k) implies idx.contains_key(k) by {
        let i = choose|i: int| 0 <= i < st.len() && (#[trigger] st[i]).0 == k;
        assert(idx.contains_key(st[i].0));
    }
    if path.len() == 0 {
        assert(ons =~= Set::<u64>::empty());
    }
}

proof fn lemma_enter_num(node_ids: Set<u64>, idx: Map<u64, u64>, low: Map<u64, u64>, counter: nat, y: NodeId)
    requires
        tj_num(node_ids, idx, low, counter),
        !idx.contains_key(y.0),
        node_ids.contains(y.0),
        counter < u64::MAX,
    ensures
        tj_num(node_ids, idx.insert(y.0, counter as u64), low.insert(y.0, counter as u64), counter + 1),
{
    reveal(tj_num);
    vstd::set_lib::lemma_len_subset(idx.dom(), node_ids);
    assert(idx.insert(y.0, counter as u64).dom() == idx.dom().insert(y.0));
}

proof fn lemma_enter_stack(
    ns: Seq<NodeId>,
    idx: Map<u64, u64>,
    st: Seq<NodeId>,
    ons: Set<u64>,
    counter: nat,
    y: NodeId,
)
    requires
        tj_stack(ns, idx, st, ons),
        !idx.contains_key(y.0),
        forall|k: u64| #[trigger] idx.contains_key(k) ==> idx[k] < counter,
        ns.contains(y),
        counter < u64::MAX,
    ensures
        tj_stack(ns, idx.insert(y.0, counter as u64), st.push(y), ons.insert(y.0)),
{
    reveal(tj_stack);
    let idx2 = idx.insert(y.0, counter as u64);
    let st2 = st.push(y);
    let ons2 = ons.insert(y.0);
    assert forall|i: int| 0 <= i < st.len() implies (#[trigger] st2[i]) == st[i] && st[i].0 != y.0
        && idx2[st[i].0] == idx[st[i].0] by {
        assert(idx.contains_key(st[i].0));
    }
    assert(st2[st.len() as int] == y);
    assert forall|i: int| 0 <= i < st2.len() implies idx2.contains_key((#[trigger] st2[i]).0)
        && ns.contains(st2[i]) by {}
    assert forall|i: int, j: int| 0 <= i < j < st2.len() implies idx2[(#[trigger] st2[i]).0]
        < idx2[(#[trigger] st2[j]).0] by {
        if j < st.len() {
            assert(idx[st[i].0] < idx[st[j].0]);
        } else {
            assert(idx.contains_key(st[i].0));
        }
    }
    assert forall|k: u64| ons2.contains(k) <==> exists|i: int|
        0 <= i < st2.len() && (#[trigger] st2[i]).0 == k by {
        if ons.contains(k) {
            let i = choose|i: int| 0 <= i < st.len() && (#[trigger] st[i]).0 == k;
            assert(st2[i].0 == k);
        }
        if k == y.0 {
            assert(st2[st.len() as int].0 == k);
        }
        if exists|i: int| 0 <= i < st2.len() && (#[trigger] st2[i]).0 == k {
            let i = choose|i: int| 0 <= i < st2.len() && (#[trigger] st2[i]).0 == k;
            if i < st.len() {
                assert(st[i].0 == k);
            }
        }
    }
}

proof fn lemma_enter_path<G: EdgeSource>(
    g: &G,
    ns: Seq<NodeId>,
    idx: Map<u64, u64>,
    st: Seq<NodeId>,
    ons: Set<u64>,
    path: Seq<NodeId>,
    counter: nat,
    y: NodeId,
)
    requires
        tj_path(g, ns, idx, st, ons, path),
        !idx.contains_key(y.0),
        forall|k: u64| #[trigger] idx.contains_key(k) ==> idx[k] < counter,
        forall|j: int| 0 <= j < path.len() ==> idx.contains_key((#[trigger] path[j]).0),
        path.len() > 0 ==> succ(g, ns, path.last(), y),
        counter < u64::MAX,
    ensures
        tj_path(g, ns, idx.insert(y.0, counter as u64), st.push(y), ons.insert(y.0), path.push(y)),
{
    reveal(tj_path);
    let idx2 = idx.insert(y.0, counter as u64);
    let path2 = path.push(y);
    assert forall|j: int| 0 <= j < path.len() implies (#[trigger] path2[j]) == path[j] && path[j].0
        != y.0 && idx2[path[j].0] == idx[path[j].0] by {}
    assert(path2[path.len() as int] == y);
    assert forall|j: int, k: int| 0 <= j < k < path2.len() implies idx2[(#[trigger] path2[j]).0]
        < idx2[(#[trigger] path2[k]).0] by {
        if k < path.len() {
            assert(idx[path[j].0] < idx[path[k].0]);
        }
    }
    assert forall|j: int| 0 <= j < path2.len() - 1 implies succ(
        g,
        ns,
        #[trigger] path2[j],
        path2[j + 1],
    ) by {
        if j < path.len() - 1 {
            assert(succ(g, ns, path[j], path[j + 1]));
        }
    }
}

proof fn lemma_enter_low<G: EdgeSource>(
    g: &G,
    ns: Seq<NodeId>,
    idx: Map<u64, u64>,
    low: Map<u64, u64>,
    st: Seq<NodeId>,
    counter: nat,
    y: NodeId,
)
    requires
        tj_low(g, ns, idx, low, st),
        !idx.contains_key(y.0),
        forall|i: int| 0 <= i < st.len() ==> idx.contains_key((#[trigger] st[i]).0),
    ensures
        tj_low(g, ns, idx.insert(y.0, counter as u64), low.insert(y.0, counter as u64), st.push(y)),
{
    reveal(tj_low);
    let idx2 = idx.insert(y.0, counter as u64);
    let low2 = low.insert(y.0, counter as u64);
    let st2 = st.push(y);
    lemma_reachable_edge(arcs(g, ns), y, y);
    assert forall|i: int| 0 <= i < st2.len() implies #[trigger] low_witness(g, ns, idx2, low2, st2, i) by {
        if i < st.len() {
            assert(st2[i] == st[i] && st[i].0 != y.0);
            assert(low_witness(g, ns, idx, low, st, i));
            let m = choose|m: int|
                0 <= m < st.len() && idx[st[m].0] == low[st[i].0] && #[trigger] reaches(
                    g,
                    ns,
                    st[i],
                    st[m],
                );
            assert(st2[m] == st[m] && st[m].0 != y.0);
            assert(idx2[st2[m].0] == low2[st2[i].0]);
            assert(reaches(g, ns, st2[i], st2[m]));
        } else {
            assert(st2[i] == y);
            assert(idx2[st2[i].0] == low2[st2[i].0]);
            assert(reaches(g, ns, st2[i], st2[i]));
        }
    }
}

proof fn lemma_enter_gray<G: EdgeSource>(
    g: &G,
    ns: Seq<NodeId>,
    idx: Map<u64, u64>,
    st: Seq<NodeId>,
    path: Seq<NodeId>,
    counter: nat,
    y: NodeId,
)
    requires
        tj_gray(g, ns, idx, st, path),
        !idx.contains_key(y.0),
        forall|i: int| 0 <= i < st.len() ==> idx.contains_key((#[trigger] st[i]).0),
        forall|j: int| 0 <= j < path.len() ==> idx.contains_key((#[trigger] path[j]).0),
    ensures
        tj_gray(g, ns, idx.insert(y.0, counter as u64), st.push(y), path.push(y)),
{
    reveal(tj_gray);
    let idx2 = idx.insert(y.0, counter as u64);
    let st2 = st.push(y);
    let path2 = path.push(y);
    lemma_reachable_edge(arcs(g, ns), y, y);
    assert forall|i: int| 0 <= i < st2.len() implies #[trigger] gray_witness(g, ns, idx2, st2, path2, i) by {
        if i < st.len() {
            assert(st2[i] == st[i] && st[i].0 != y.0);
            assert(gray_witness(g, ns, idx, st, path, i));
            let j = choose|j: int|
                0 <= j < path.len() && idx[path[j].0] <= idx[st[i].0] && #[trigger] reaches(
                    g,
                    ns,
                    st[i],
                    path[j],
                );
            assert(path2[j] == path[j] && path[j].0 != y.0);
            assert(idx2[path2[j].0] <= idx2[st2[i].0]);
            assert(reaches(g, ns, st2[i], path2[j]));
        } else {
            assert(st2[i] == y);
            assert(path2[path.len() as int] == y);
            assert(reaches(g, ns, st2[i], path2[path.len() as int]));
        }
    }
}

proof fn lemma_enter_desc<G: EdgeSource>(
    g: &G,
    ns: Seq<NodeId>,
    idx: Map<u64, u64>,
    st: Seq<NodeId>,
    path: Seq<NodeId>,
    counter: nat,
    y: NodeId,
)
    requires
        tj_desc(g, ns, idx, st, path),
        !idx.contains_key(y.0),
        forall|k: u64| #[trigger] idx.contains_key(k) ==> idx[k] < counter,
        forall|i: int| 0 <= i < st.len() ==> idx.contains_key((#[trigger] st[i]).0),
        forall|j: int| 0 <= j < path.len() ==> idx.contains_key((#[trigger] path[j]).0),
        forall|m: int| 0 <= m < path.len() - 1 ==> succ(g, ns, #[trigger] path[m], path[m + 1]),
        path.len() > 0 ==> succ(g, ns, path.last(), y),
        counter < u64::MAX,
    ensures
        tj_desc(g, ns, idx.insert(y.0, counter as u64), st.push(y), path.push(y)),
{
    reveal(tj_desc);
    let e = arcs(g, ns);
    let idx2 = idx.insert(y.0, counter as u64);
    let st2 = st.push(y);
    let path2 = path.push(y);
    lemma_reachable_edge(e, y, y);
    assert forall|j: int, i: int|
        0 <= j < path2.len() && 0 <= i < st2.len() && idx2[(#[trigger] path2[j]).0] <= idx2[(
        #[trigger] st2[i]).0] implies reaches(g, ns, path2[j], st2[i]) by {
        if j < path.len() && i < st.len() {
            assert(path2[j] == path[j] && st2[i] == st[i]);
            assert(path[j].0 != y.0 && st[i].0 != y.0);
            assert(reaches(g, ns, path[j], st[i]));
        } else if j < path.len() {
            assert(path2[j] == path[j] && st2[i] == y);
            lemma_path_reaches(g, ns, path, j, path.len() - 1);
            lemma_reachable_edge(e, path.last(), y);
            lemma_reachable_trans(e, path[j], path.last(), y);
        } else if i < st.len() {
            assert(path2[j] == y && st2[i] == st[i]);
            assert(idx.contains_key(st[i].0));
            assert(st[i].0 != y.0);
        } else {
            assert(path2[j] == y && st2[i] == y);
        }
    }
}

proof fn lemma_enter_sccs<G: EdgeSource>(
    g: &G,
    ns: Seq<NodeId>,
    idx: Map<u64, u64>,
    ons: Set<u64>,
    sccs: Seq<Seq<NodeId>>,
    counter: nat,
    y: NodeId,
)
    requires
        tj_sccs(g, ns, idx, ons, sccs),
        !idx.contains_key(y.0),
    ensures
        tj_sccs(g, ns, idx.insert(y.0, counter as u64), ons.insert(y.0), sccs),
{
    reveal(tj_sccs);
    let idx2 = idx.insert(y.0, counter as u64);
    let ons2 = ons.insert(y.0);
    assert forall|c2: int, i: int|
        0 <= c2 < sccs.len() && 0 <= i < sccs[c2].len() implies idx2.contains_key(
        (#[trigger] sccs[c2][i]).0,
    ) && !ons2.contains(sccs[c2][i].0) && ns.contains(sccs[c2][i]) by {
        assert(idx.contains_key(sccs[c2][i].0));
    }
    assert forall|k: u64| #[trigger] idx2.contains_key(k) implies ons2.contains(k) || exists|
        c2: int,
        i: int,
    | 0 <= c2 < sccs.len() && 0 <= i < sccs[c2].len() && (#[trigger] sccs[c2][i]).0 == k by {
        if k != y.0 {
            assert(idx.contains_key(k));
        }
    }
}

/// Entering a new node numbers it, pushes it on the stack and opens it.
proof fn lemma_tj_enter<G: EdgeSource>(
    g: &G,
    ns: Seq<NodeId>,
    node_ids: Set<u64>,
    idx: Map<u64, u64>,
    low: Map<u64, u64>,
    counter: nat,
    st: Seq<NodeId>,
    ons: Set<u64>,
    path: Seq<NodeId>,
    sccs: Seq<Seq<NodeId>>,
    y: NodeId,
)
    requires
        tj_core(g, ns, node_ids, idx, low, counter, st, ons, path, sccs),
        !idx.contains_key(y.0),
        node_ids.contains(y.0),
        ns.contains(y),
        path.len() > 0 ==> succ(g, ns, path.last(), y),
        counter < u64::MAX,
    ensures
        tj_core(
            g,
            ns,
            node_ids,
            idx.insert(y.0, counter as u64),
            low.insert(y.0, counter as u64),
            counter + 1,
            st.push(y),
            ons.insert(y.0),
            path.push(y),
            sccs,
        ),
{
    lemma_tj_facts(g, ns, node_ids, idx, low, counter, st, ons, path, sccs);
    lemma_enter_num(node_ids, idx, low, counter, y);
    lemma_enter_stack(ns, idx, st, ons, counter, y);
    lemma_enter_path(g, ns, idx, st, ons, path, counter, y);
    lemma_enter_low(g, ns, idx, low, st, counter, y);
    lemma_enter_gray(g, ns, idx, st, path, counter, y);
    lemma_enter_desc(g, ns, idx, st, path, counter, y);
    lemma_enter_sccs(g, ns, idx, ons, sccs, counter, y);
}

/// A stack node reaches the stack node its lowlink numbers.
proof fn lemma_tj_low_of<G: EdgeSource>(
    g: &G,
    ns: Seq<NodeId>,
    idx: Map<u64, u64>,
    low: Map<u64, u64>,
    st: Seq<NodeId>,
    i: int,
) -> (m: int)
    requires
        tj_low(g, ns, idx, low, st),
        0 <= i < st.len(),
    ensures
        0 <= m < st.len(),
        idx[st[m].0] == low[st[i].0],
        reaches(g, ns, st[i], st[m]),
{
    reveal(tj_low);
    assert(low_witness(g, ns, idx, low, st, i));
    choose|m: int| 0 <= m < st.len() && idx[st[m].0] == low[st[i].0] && #[trigger] reaches(g, ns, st[i], st[m])
}

/// A stack node reaches an open node entered no later.
proof fn lemma_tj_gray_of<G: EdgeSource>(
    g: &G,
    ns: Seq<NodeId>,
    idx: Map<u64, u64>,
    st: Seq<NodeId>,
    path: Seq<NodeId>,
    i: int,
) -> (j: int)
    requires
        tj_gray(g, ns, idx, st, path),
        0 <= i < st.len(),
    ensures
        0 <= j < path.len(),
        idx[path[j].0] <= idx[st[i].0],
        reaches(g, ns, st[i], path[j]),
{
    reveal(tj_gray);
    assert(gray_witness(g, ns, idx, st, path, i));
    choose|j: int| 0 <= j < path.len() && idx[path[j].0] <= idx[st[i].0] && #[trigger] reaches(g, ns, st[i], path[j])
}

/// The position on the stack of a node whose identifier is on it.
proof fn lemma_tj_position(ns: Seq<NodeId>, idx: Map<u64, u64>, st: Seq<NodeId>, ons: Set<u64>, x: NodeId) -> (i: int)
    requires
        tj_stack(ns, idx, st, ons),
        ons.contains(x.0),
    ensures
        0 <= i < st.len(),
        st[i] == x,
{
    reveal(tj_stack);
    let i = choose|i: int| 0 <= i < st.len() && (#[trigger] st[i]).0 == x.0;
    assert(st[i] == x);
    i
}

/// Lowering the lowlink of a stack node to the number of a stack node it
/// reaches keeps the search consistent.
proof fn lemma_tj_lower<G: EdgeSource>(
    g: &G,
    ns: Seq<NodeId>,
    node_ids: Set<u64>,
    idx: Map<u64, u64>,
    low: Map<u64, u64>,
    counter: nat,
    st: Seq<NodeId>,
    ons: Set<u64>,
    path: Seq<NodeId>,
    sccs: Seq<Seq<NodeId>>,
    x: NodeId,
    m: int,
)
    requires
        tj_core(g, ns, node_ids, idx, low, counter, st, ons, path, sccs),
        ons.contains(x.0),
        0 <= m < st.len(),
        idx[st[m].0] < low[x.0],
        reaches(g, ns, x, st[m]),
    ensures
        tj_core(g, ns, node_ids, idx, low.insert(x.0, idx[st[m].0]), counter, st, ons, path, sccs),
{
    lemma_tj_facts(g, ns, node_ids, idx, low, counter, st, ons, path, sccs);
    let low2 = low.insert(x.0, idx[st[m].0]);
    assert(tj_num(node_ids, idx, low2, counter)) by {
        reveal(tj_num);
        assert(low2.dom() == low.dom());
    }
    assert(tj_low(g, ns, idx, low2, st)) by {
        reveal(tj_low);
        assert forall|i: int| 0 <= i < st.len() implies #[trigger] low_witness(g, ns, idx, low2, st, i) by {
            if st[i].0 == x.0 {
                assert(st[i] == x);
                assert(reaches(g, ns, st[i], st[m]));
            } else {
                assert(low_witness(g, ns, idx, low, st, i));
                let w = choose|w: int|
                    0 <= w < st.len() && idx[st[w].0] == low[st[i].0] && #[trigger] reaches(
                        g,
                        ns,
                        st[i],
                        st[w],
                    );
                assert(reaches(g, ns, st[i], st[w]));
            }
        }
    }
}

/// The root of the tree has the smallest number on the stack, so its
/// lowlink is its own number.
proof fn lemma_tj_root_low<G: EdgeSource>(
    g: &G,
    ns: Seq<NodeId>,
    node_ids: Set<u64>,
    idx: Map<u64, u64>,
    low: Map<u64, u64>,
    counter: nat,
    st: Seq<NodeId>,
    ons: Set<u64>,
    path: Seq<NodeId>,
    sccs: Seq<Seq<NodeId>>,
)
    requires
        tj_core(g, ns, node_ids, idx, low, counter, st, ons, path, sccs),
        path.len() == 1,
    ensures
        low[path[0].0] == idx[path[0].0],
{
    lemma_tj_facts(g, ns, node_ids, idx, low, counter, st, ons, path, sccs);
    let m = lemma_tj_low_of(g, ns, idx, low, st, 0);
    if m > 0 {
        assert(idx[st[0].0] < idx[st[m].0]);
    }
}

/// An open node that is not the root of a component leaves the path and
/// stays on the stack.
proof fn lemma_tj_finish_open<G: EdgeSource>(
    g: &G,
    ns: Seq<NodeId>,
    node_ids: Set<u64>,
    idx: Map<u64, u64>,
    low: Map<u64, u64>,
    counter: nat,
    st: Seq<NodeId>,
    ons: Set<u64>,
    path: Seq<NodeId>,
    sccs: Seq<Seq<NodeId>>,
)
    requires
        tj_core(g, ns, node_ids, idx, low, counter, st, ons, path, sccs),
        path.len() >= 1,
        low[path.last().0] < idx[path.last().0],
    ensures
        path.len() >= 2,
        tj_core(g, ns, node_ids, idx, low, counter, st, ons, path.drop_last(), sccs),
{
    lemma_tj_facts(g, ns, node_ids, idx, low, counter, st, ons, path, sccs);
    if path.len() == 1 {
        lemma_tj_root_low(g, ns, node_ids, idx, low, counter, st, ons, path, sccs);
    }
    let x = path.last();
    let p = path.len() as int;
    let path2 = path.drop_last();
    assert forall|j: int| 0 <= j < path2.len() implies #[trigger] path2[j] == path[j] by {}
    assert(tj_path(g, ns, idx, st, ons, path2)) by {
        reveal(tj_path);
        assert forall|j: int| 0 <= j < path2.len() - 1 implies succ(g, ns, #[trigger] path2[j], path2[j + 1]) by {
            assert(succ(g, ns, path[j], path[j + 1]));
        }
        assert forall|j: int, k: int| 0 <= j < k < path2.len() implies idx[(#[trigger] path2[j]).0]
            < idx[(#[trigger] path2[k]).0] by {
            assert(idx[path[j].0] < idx[path[k].0]);
        }
    }
    assert(tj_desc(g, ns, idx, st, path2)) by {
        reveal(tj_desc);
        assert forall|j: int, i: int|
            0 <= j < path2.len() && 0 <= i < st.len() && idx[(#[trigger] path2[j]).0] <= idx[(
            #[trigger] st[i]).0] implies reaches(g, ns, path2[j], st[i]) by {
            assert(reaches(g, ns, path[j], st[i]));
        }
    }
    let e = arcs(g, ns);
    let px = lemma_tj_position(ns, idx, st, ons, x);
    let wm = lemma_tj_low_of(g, ns, idx, low, st, px);
    let gw = lemma_tj_gray_of(g, ns, idx, st, path, wm);
    assert(gw < p - 1) by {
        if gw == p - 1 {
            assert(idx[path[gw].0] <= idx[st[wm].0]);
        }
    }
    assert(reaches(g, ns, x, path[gw])) by {
        lemma_reachable_trans(e, x, st[wm], path[gw]);
    }
    assert(tj_gray(g, ns, idx, st, path2)) by {
        reveal(tj_gray);
        assert forall|i: int| 0 <= i < st.len() implies #[trigger] gray_witness(g, ns, idx, st, path2, i) by {
            let j = lemma_tj_gray_of(g, ns, idx, st, path, i);
            if j < p - 1 {
                assert(path2[j] == path[j]);
                assert(reaches(g, ns, st[i], path2[j]));
            } else {
                lemma_reachable_trans(e, st[i], x, path[gw]);
                assert(path2[gw] == path[gw]);
                assert(idx[path[gw].0] <= idx[st[wm].0]);
                assert(reaches(g, ns, st[i], path2[gw]));
            }
        }
    }
}

/// Stack nodes numbered below the node at position `px` lie below it.
proof fn lemma_tj_below(ns: Seq<NodeId>, idx: Map<u64, u64>, st: Seq<NodeId>, ons: Set<u64>, px: int, q: int)
    requires
        tj_stack(ns, idx, st, ons),
        0 <= px < st.len(),
        0 <= q < st.len(),
    ensures
        idx[st[q].0] < idx[st[px].0] <==> q < px,
        q != px ==> st[q].0 != st[px].0,
{
    reveal(tj_stack);
    if q < px {
        assert(idx[st[q].0] < idx[st[px].0]);
    } else if q > px {
        assert(idx[st[px].0] < idx[st[q].0]);
    }
}

proof fn lemma_root_stack_path<G: EdgeSource>(
    g: &G,
    ns: Seq<NodeId>,
    idx: Map<u64, u64>,
    st: Seq<NodeId>,
    ons: Set<u64>,
    path: Seq<NodeId>,
    px: int,
    ons2: Set<u64>,
)
    requires
        tj_stack(ns, idx, st, ons),
        tj_path(g, ns, idx, st, ons, path),
        path.len() >= 1,
        0 <= px < st.len(),
        st[px] == path.last(),
        forall|k: u64| ons2.contains(k) <==> exists|i: int| 0 <= i < px && (#[trigger] st[i]).0 == k,
    ensures
        tj_stack(ns, idx, st.take(px), ons2),
        tj_path(g, ns, idx, st.take(px), ons2, path.drop_last()),
{
    let st2 = st.take(px);
    let path2 = path.drop_last();
    let p = path.len() as int;
    assert forall|i: int| 0 <= i < st2.len() implies #[trigger] st2[i] == st[i] by {}
    assert(tj_stack(ns, idx, st2, ons2)) by {
        reveal(tj_stack);
        assert forall|i: int, j: int| 0 <= i < j < st2.len() implies idx[(#[trigger] st2[i]).0] < idx[(
        #[trigger] st2[j]).0] by {
            assert(idx[st[i].0] < idx[st[j].0]);
        }
        assert forall|k: u64| ons2.contains(k) <==> exists|i: int|
            0 <= i < st2.len() && (#[trigger] st2[i]).0 == k by {
            if ons2.contains(k) {
                let i = choose|i: int| 0 <= i < px && (#[trigger] st[i]).0 == k;
                assert(st2[i].0 == k);
            }
        }
    }
    assert(tj_path(g, ns, idx, st2, ons2, path2)) by {
        reveal(tj_path);
        assert forall|j: int| 0 <= j < path2.len() implies #[trigger] path2[j] == path[j] by {}
        assert forall|j: int| 0 <= j < path2.len() implies ons2.contains((#[trigger] path2[j]).0) by {
            assert(ons.contains(path[j].0));
            reveal(tj_stack);
            let q = choose|q: int| 0 <= q < st.len() && (#[trigger] st[q]).0 == path[j].0;
            assert(idx[path[j].0] < idx[path[p - 1].0]);
            lemma_tj_below(ns, idx, st, ons, px, q);
            assert(q < px);
        }
        assert forall|j: int| 0 <= j < path2.len() - 1 implies succ(g, ns, #[trigger] path2[j], path2[j + 1]) by {
            assert(succ(g, ns, path[j], path[j + 1]));
        }
        assert forall|j: int, k: int| 0 <= j < k < path2.len() implies idx[(#[trigger] path2[j]).0]
            < idx[(#[trigger] path2[k]).0] by {
            assert(idx[path[j].0] < idx[path[k].0]);
        }
        if p == 1 {
            assert(st[0] == path[0]);
            if px > 0 {
                lemma_tj_below(ns, idx, st, ons, px, 0);
            }
        } else {
            assert(idx[path[0].0] < idx[path[p - 1].0]);
            lemma_tj_below(ns, idx, st, ons, px, 0);
        }
    }
}

proof fn lemma_root_low_gray_desc<G: EdgeSource>(
    g: &G,
    ns: Seq<NodeId>,
    idx: Map<u64, u64>,
    low: Map<u64, u64>,
    st: Seq<NodeId>,
    ons: Set<u64>,
    path: Seq<NodeId>,
    px: int,
)
    requires
        tj_stack(ns, idx, st, ons),
        tj_low(g, ns, idx, low, st),
        tj_gray(g, ns, idx, st, path),
        tj_desc(g, ns, idx, st, path),
        forall|k: u64| #[trigger] idx.contains_key(k) ==> low[k] <= idx[k],
        forall|i: int| 0 <= i < st.len() ==> idx.contains_key((#[trigger] st[i]).0),
        forall|j: int, k: int|
            0 <= j < k < path.len() ==> idx[(#[trigger] path[j]).0] < idx[(#[trigger] path[k]).0],
        path.len() >= 1,
        0 <= px < st.len(),
        st[px] == path.last(),
    ensures
        tj_low(g, ns, idx, low, st.take(px)),
        tj_gray(g, ns, idx, st.take(px), path.drop_last()),
        tj_desc(g, ns, idx, st.take(px), path.drop_last()),
{
    let st2 = st.take(px);
    let path2 = path.drop_last();
    let p = path.len() as int;
    assert forall|i: int| 0 <= i < st2.len() implies #[trigger] st2[i] == st[i] by {}
    assert forall|j: int| 0 <= j < path2.len() implies #[trigger] path2[j] == path[j] by {}
    assert(tj_low(g, ns, idx, low, st2)) by {
        reveal(tj_low);
        assert forall|i: int| 0 <= i < st2.len() implies #[trigger] low_witness(g, ns, idx, low, st2, i) by {
            let m = lemma_tj_low_of(g, ns, idx, low, st, i);
            lemma_tj_below(ns, idx, st, ons, px, i);
            lemma_tj_below(ns, idx, st, ons, px, m);
            assert(m < px);
            assert(st2[m] == st[m]);
            assert(reaches(g, ns, st2[i], st2[m]));
        }
    }
    assert(tj_gray(g, ns, idx, st2, path2)) by {
        reveal(tj_gray);
        assert forall|i: int| 0 <= i < st2.len() implies #[trigger] gray_witness(g, ns, idx, st2, path2, i) by {
            let j = lemma_tj_gray_of(g, ns, idx, st, path, i);
            lemma_tj_below(ns, idx, st, ons, px, i);
            assert(j < p - 1);
            assert(reaches(g, ns, st2[i], path2[j]));
        }
    }
    assert(tj_desc(g, ns, idx, st2, path2)) by {
        reveal(tj_desc);
        assert forall|j: int, i: int|
            0 <= j < path2.len() && 0 <= i < st2.len() && idx[(#[trigger] path2[j]).0] <= idx[(
            #[trigger] st2[i]).0] implies reaches(g, ns, path2[j], st2[i]) by {
            assert(reaches(g, ns, path[j], st[i]));
        }
    }
}

proof fn lemma_root_sccs<G: EdgeSource>(
    g: &G,
    ns: Seq<NodeId>,
    idx: Map<u64, u64>,
    st: Seq<NodeId>,
    ons: Set<u64>,
    path: Seq<NodeId>,
    sccs: Seq<Seq<NodeId>>,
    px: int,
    ons2: Set<u64>,
    scc: Seq<NodeId>,
)
    requires
        tj_stack(ns, idx, st, ons),
        tj_gray(g, ns, idx, st, path),
        tj_desc(g, ns, idx, st, path),
        tj_sccs(g, ns, idx, ons, sccs),
        forall|m: int| 0 <= m < path.len() - 1 ==> succ(g, ns, #[trigger] path[m], path[m + 1]),
        path.len() >= 1,
        0 <= px < st.len(),
        st[px] == path.last(),
        forall|k: u64| ons2.contains(k) <==> exists|i: int| 0 <= i < px && (#[trigger] st[i]).0 == k,
        scc.len() == st.len() - px,
        forall|k: int| 0 <= k < scc.len() ==> #[trigger] scc[k] == st[st.len() - 1 - k],
    ensures
        tj_sccs(g, ns, idx, ons2, sccs.push(scc)),
{
    reveal(tj_sccs);
    let sccs2 = sccs.push(scc);
    let n = sccs.len() as int;
    let len = st.len() as int;
    let x = path.last();
    let p = path.len() as int;
    let e = arcs(g, ns);
    assert forall|c: int| 0 <= c < n implies #[trigger] sccs2[c] == sccs[c] by {}
    assert(sccs2[n] == scc);
    assert forall|k: int| 0 <= k < scc.len() implies idx.contains_key((#[trigger] scc[k]).0) && ons.contains(
        scc[k].0,
    ) && ns.contains(scc[k]) && !ons2.contains(scc[k].0) by {
        reveal(tj_stack);
        let q = len - 1 - k;
        assert(scc[k] == st[q]);
        assert(ons.contains(st[q].0));
        if ons2.contains(st[q].0) {
            let i = choose|i: int| 0 <= i < px && (#[trigger] st[i]).0 == st[q].0;
            lemma_tj_below(ns, idx, st, ons, q, i);
        }
    }
    assert forall|k: u64| ons2.contains(k) implies ons.contains(k) by {
        reveal(tj_stack);
        let i = choose|i: int| 0 <= i < px && (#[trigger] st[i]).0 == k;
    }
    assert(all_distinct(sccs2)) by {
        assert forall|c1: int, i1: int, c2: int, i2: int|
            0 <= c1 < sccs2.len() && 0 <= i1 < sccs2[c1].len() && 0 <= c2 < sccs2.len() && 0 <= i2
                < sccs2[c2].len() && (c1 != c2 || i1 != i2) implies #[trigger] sccs2[c1][i1]
            != #[trigger] sccs2[c2][i2] by {
            if c1 < n && c2 < n {
                assert(sccs[c1][i1] != sccs[c2][i2]);
            } else if c1 < n {
                assert(!ons.contains(sccs[c1][i1].0));
                assert(ons.contains(scc[i2].0));
            } else if c2 < n {
                assert(!ons.contains(sccs[c2][i2].0));
                assert(ons.contains(scc[i1].0));
            } else {
                lemma_tj_below(ns, idx, st, ons, len - 1 - i1, len - 1 - i2);
            }
        }
    }
    assert forall|c: int, i: int|
        0 <= c < sccs2.len() && 0 <= i < sccs2[c].len() implies idx.contains_key(
        (#[trigger] sccs2[c][i]).0,
    ) && !ons2.contains(sccs2[c][i].0) && ns.contains(sccs2[c][i]) by {
        if c < n {
            assert(!ons.contains(sccs[c][i].0));
        }
    }
    assert forall|k: u64| #[trigger] idx.contains_key(k) implies ons2.contains(k) || exists|
        c: int,
        i: int,
    | 0 <= c < sccs2.len() && 0 <= i < sccs2[c].len() && (#[trigger] sccs2[c][i]).0 == k by {
        if ons.contains(k) {
            reveal(tj_stack);
            let q = choose|q: int| 0 <= q < st.len() && (#[trigger] st[q]).0 == k;
            if q < px {
                assert(st[q].0 == k);
            } else {
                let kk = len - 1 - q;
                assert(scc[kk] == st[q]);
                assert(sccs2[n][kk].0 == k);
            }
        } else {
            let (c, i) = choose|c: int, i: int|
                0 <= c < sccs.len() && 0 <= i < sccs[c].len() && (#[trigger] sccs[c][i]).0 == k;
            assert(sccs2[c][i].0 == k);
        }
    }
    // Every popped node reaches the root, which reaches every popped node.
    assert forall|k: int| 0 <= k < scc.len() implies reaches(g, ns, #[trigger] scc[k], x) && reaches(
        g,
        ns,
        x,
        scc[k],
    ) by {
        let q = len - 1 - k;
        assert(scc[k] == st[q]);
        lemma_tj_below(ns, idx, st, ons, px, q);
        let j = lemma_tj_gray_of(g, ns, idx, st, path, q);
        lemma_path_reaches(g, ns, path, j, p - 1);
        lemma_reachable_trans(e, st[q], path[j], x);
        reveal(tj_desc);
        assert(reaches(g, ns, path[p - 1], st[q]));
    }
    assert forall|c: int, a: int, b: int|
        0 <= c < sccs2.len() && 0 <= a < sccs2[c].len() && 0 <= b < sccs2[c].len() implies reaches(
        g,
        ns,
        #[trigger] sccs2[c][a],
        #[trigger] sccs2[c][b],
    ) by {
        if c < n {
            assert(reaches(g, ns, sccs[c][a], sccs[c][b]));
        } else {
            assert(reaches(g, ns, scc[a], x) && reaches(g, ns, x, scc[b]));
            lemma_reachable_trans(e, scc[a], x, scc[b]);
        }
    }
}

/// A node whose lowlink is its own number closes a component: the nodes
/// above it on the stack, and it, leave the stack as one component.
proof fn lemma_tj_finish_root<G: EdgeSource>(
    g: &G,
    ns: Seq<NodeId>,
    node_ids: Set<u64>,
    idx: Map<u64, u64>,
    low: Map<u64, u64>,
    counter: nat,
    st: Seq<NodeId>,
    ons: Set<u64>,
    path: Seq<NodeId>,
    sccs: Seq<Seq<NodeId>>,
    px: int,
    ons2: Set<u64>,
    scc: Seq<NodeId>,
)
    requires
        tj_core(g, ns, node_ids, idx, low, counter, st, ons, path, sccs),
        path.len() >= 1,
        0 <= px < st.len(),
        st[px] == path.last(),
        forall|k: u64| ons2.contains(k) <==> exists|i: int| 0 <= i < px && (#[trigger] st[i]).0 == k,
        scc.len() == st.len() - px,
        forall|k: int| 0 <= k < scc.len() ==> #[trigger] scc[k] == st[st.len() - 1 - k],
    ensures
        tj_core(g, ns, node_ids, idx, low, counter, st.take(px), ons2, path.drop_last(), sccs.push(scc)),
{
    lemma_tj_facts(g, ns, node_ids, idx, low, counter, st, ons, path, sccs);
    lemma_root_stack_path(g, ns, idx, st, ons, path, px, ons2);
    lemma_root_low_gray_desc(g, ns, idx, low, st, ons, path, px);
    lemma_root_sccs(g, ns, idx, st, ons, path, sccs, px, ons2, scc);
}

/// When the search is over, with every node of `ns` numbered, the
/// components partition `ns`.
proof fn lemma_tj_final<G: EdgeSource>(
    g: &G,
    ns: Seq<NodeId>,
    node_ids: Set<u64>,
    idx: Map<u64, u64>,
    low: Map<u64, u64>,
    counter: nat,
    sccs: Seq<Seq<NodeId>>,
)
    requires
        tj_core(g, ns, node_ids, idx, low, counter, Seq::empty(), Set::empty(), Seq::empty(), sccs),
        forall|t: int| 0 <= t < ns.len() ==> idx.contains_key((#[trigger] ns[t]).0),
    ensures
        scc_partition(g, ns, sccs),
        all_distinct(sccs),
{
    reveal(tj_sccs);
    assert forall|t: int| 0 <= t < ns.len() implies in_components(
        sccs,
        sccs.len() as int,
        #[trigger] ns[t],
    ) by {
        assert(idx.contains_key(ns[t].0));
        let (c, i) = choose|c: int, i: int|
            0 <= c < sccs.len() && 0 <= i < sccs[c].len() && (#[trigger] sccs[c][i]).0 == ns[t].0;
        assert(sccs[c][i] == ns[t]);
    }
}

/// When the open node at the end of the path finishes, the frames below its
/// continuation resume its parent after it, or none is left.
proof fn lemma_frames_finish<G: EdgeSource>(g: &G, ns: Seq<NodeId>, path: Seq<NodeId>, work0: Seq<Frame>)
    requires
        frames_ok(g, ns, path, work0, Top::Open),
    ensures
        path.len() > 1 ==> frames_ok(g, ns, path.drop_last(), work0.drop_last(), Top::Returned(path.last())),
        path.len() == 1 ==> frames_ok(g, ns, path.drop_last(), work0.drop_last(), Top::Idle),
{
    let work = work0.drop_last();
    let path2 = path.drop_last();
    assert forall|j: int| 0 <= j < work.len() implies frame_ok(g, ns, #[trigger] work[j]) by {
        assert(work[j] == work0[j]);
    }
    if path.len() > 1 {
        assert forall|j: int| 0 <= j < path2.len() implies resumes(
            #[trigger] work[j],
            path2[j],
            if j + 1 < path2.len() {
                path2[j + 1]
            } else {
                path.last()
            },
        ) by {
            assert(work[j] == work0[j]);
            assert(resumes(work0[j], path[j], path[j + 1]));
        }
    }
}

/// Node `u` has dealt with its successor `v`: `u` is not open, or `v` is
/// not among the neighbours it has left.
spec fn dealt(path: Seq<NodeId>, rems: Seq<Seq<NodeId>>, u: NodeId, v: NodeId) -> bool {
    forall|j: int| 0 <= j < path.len() && #[trigger] path[j] == u ==> !rems[j].contains(v)
}

/// `a[j]` is the last of the anchors `a` numbered no later than `u`.
spec fn anchored(a: Seq<NodeId>, idx: Map<u64, u64>, u: NodeId, j: int) -> bool {
    &&& 0 <= j < a.len()
    &&& idx[a[j].0] <= idx[u.0]
    &&& j + 1 < a.len() ==> idx[u.0] < idx[a[j + 1].0]
}

/// Every successor a stack node has dealt with is numbered (or is the node
/// about to be entered), and if it is on the stack, the lowlink of the
/// node's anchor is no greater than its number.
#[verifier::opaque]
spec fn tj_done<G: EdgeSource>(
    g: &G,
    ns: Seq<NodeId>,
    idx: Map<u64, u64>,
    low: Map<u64, u64>,
    st: Seq<NodeId>,
    ons: Set<u64>,
    path: Seq<NodeId>,
    rems: Seq<Seq<NodeId>>,
    anchors: Seq<NodeId>,
    fresh: Option<NodeId>,
) -> bool {
    forall|i: int, j: int, v: NodeId|
        0 <= i < st.len() && #[trigger] anchored(anchors, idx, st[i], j) && #[trigger] succ(
            g,
            ns,
            st[i],
            v,
        ) && dealt(path, rems, st[i], v) ==> (idx.contains_key(v.0) || fresh == Some(v)) && (
        ons.contains(v.0) ==> low[anchors[j].0] <= idx[v.0])
}

/// Every successor of a node of a component found lies in that component
/// or in one found before it.
#[verifier::opaque]
spec fn tj_order<G: EdgeSource>(g: &G, ns: Seq<NodeId>, sccs: Seq<Seq<NodeId>>) -> bool {
    forall|c: int, i: int, v: NodeId|
        0 <= c < sccs.len() && 0 <= i < sccs[c].len() && #[trigger] succ(g, ns, sccs[c][i], v)
            ==> in_components(sccs, c + 1, v)
}

/// The anchors of the stack: the open nodes, and after a child's return the
/// child too while it stays on the stack.
spec fn anchors_of(path: Seq<NodeId>, top: Top, ons: Set<u64>) -> Seq<NodeId> {
    match top {
        Top::Returned(c) => if ons.contains(c.0) {
            path.push(c)
        } else {
            path
        },
        _ => path,
    }
}

/// The node about to be entered, if any.
spec fn fresh_of(top: Top) -> Option<NodeId> {
    match top {
        Top::Fresh(y) => Some(y),
        _ => None,
    }
}

proof fn lemma_order_init<G: EdgeSource>(g: &G, ns: Seq<NodeId>, sccs: Seq<Seq<NodeId>>)
    requires
        sccs.len() == 0,
    ensures
        tj_order(g, ns, sccs),
{
    reveal(tj_order);
}

/// With nothing on the stack, nothing is owed.
proof fn lemma_done_empty<G: EdgeSource>(
    g: &G,
    ns: Seq<NodeId>,
    idx: Map<u64, u64>,
    low: Map<u64, u64>,
    st: Seq<NodeId>,
    ons: Set<u64>,
    path: Seq<NodeId>,
    rems: Seq<Seq<NodeId>>,
    anchors: Seq<NodeId>,
    fresh: Option<NodeId>,
)
    requires
        st.len() == 0,
    ensures
        tj_done(g, ns, idx, low, st, ons, path, rems, anchors, fresh),
{
    reveal(tj_done);
}

/// Entering a new node, with all its successors left to deal with.
proof fn lemma_done_enter<G: EdgeSource>(
    g: &G,
    ns: Seq<NodeId>,
    idx: Map<u64, u64>,
    low: Map<u64, u64>,
    counter: nat,
    st: Seq<NodeId>,
    ons: Set<u64>,
    path: Seq<NodeId>,
    rems: Seq<Seq<NodeId>>,
    y: NodeId,
    r: Seq<NodeId>,
)
    requires
        tj_done(g, ns, idx, low, st, ons, path, rems, path, Some(y)),
        !idx.contains_key(y.0),
        forall|k: u64| #[trigger] idx.contains_key(k) ==> idx[k] < counter && low[k] <= idx[k],
        forall|i: int| 0 <= i < st.len() ==> idx.contains_key((#[trigger] st[i]).0),
        forall|j: int| 0 <= j < path.len() ==> idx.contains_key((#[trigger] path[j]).0),
        forall|v: NodeId| #[trigger] succ(g, ns, y, v) ==> r.contains(v),
        rems.len() == path.len(),
        counter < u64::MAX,
    ensures
        tj_done(
            g,
            ns,
            idx.insert(y.0, counter as u64),
            low.insert(y.0, counter as u64),
            st.push(y),
            ons.insert(y.0),
            path.push(y),
            rems.push(r),
            path.push(y),
            None,
        ),
{
    reveal(tj_done);
    let idx2 = idx.insert(y.0, counter as u64);
    let low2 = low.insert(y.0, counter as u64);
    let st2 = st.push(y);
    let ons2 = ons.insert(y.0);
    let path2 = path.push(y);
    let rems2 = rems.push(r);
    assert forall|i: int, j: int, v: NodeId|
        0 <= i < st2.len() && #[trigger] anchored(path2, idx2, st2[i], j) && #[trigger] succ(
            g,
            ns,
            st2[i],
            v,
        ) && dealt(path2, rems2, st2[i], v) implies (idx2.contains_key(v.0) || None::<NodeId> == Some(v)) && (
        ons2.contains(v.0) ==> low2[path2[j].0] <= idx2[v.0]) by {
        if i == st.len() {
            assert(st2[i] == y);
            assert(path2[path.len() as int] == y);
            assert(rems2[path.len() as int] == r);
            assert(r.contains(v));
            assert(!dealt(path2, rems2, st2[i], v));
        } else {
            let u = st[i];
            assert(st2[i] == u);
            assert(idx.contains_key(u.0));
            assert(u.0 != y.0);
            if j == path.len() {
                assert(path2[j] == y);
                assert(idx2[path2[j].0] == counter);
                assert(idx2[u.0] == idx[u.0]);
            }
            assert(j < path.len());
            assert(path2[j] == path[j]);
            assert(path[j].0 != y.0);
            assert(anchored(path, idx, u, j)) by {
                if j + 1 < path.len() {
                    assert(path2[j + 1] == path[j + 1]);
                    assert(path[j + 1].0 != y.0);
                }
            }
            assert(dealt(path, rems, u, v)) by {
                assert forall|k: int| 0 <= k < path.len() && #[trigger] path[k] == u implies !rems[k].contains(v) by {
                    assert(path2[k] == path[k]);
                    assert(rems2[k] == rems[k]);
                }
            }
            assert(idx.contains_key(v.0) || Some(y) == Some(v));
            if ons2.contains(v.0) {
                if v.0 == y.0 {
                    assert(low2[path2[j].0] == low[path[j].0]);
                    assert(low[path[j].0] <= idx[path[j].0]);
                } else {
                    assert(ons.contains(v.0));
                }
            }
        }
    }
}

/// Lowering lowlinks keeps every bound on an anchor's lowlink.
proof fn lemma_done_lower<G: EdgeSource>(
    g: &G,
    ns: Seq<NodeId>,
    idx: Map<u64, u64>,
    low: Map<u64, u64>,
    st: Seq<NodeId>,
    ons: Set<u64>,
    path: Seq<NodeId>,
    rems: Seq<Seq<NodeId>>,
    anchors: Seq<NodeId>,
    fresh: Option<NodeId>,
    x: NodeId,
    val: u64,
)
    requires
        tj_done(g, ns, idx, low, st, ons, path, rems, anchors, fresh),
        low.contains_key(x.0),
        val <= low[x.0],
    ensures
        tj_done(g, ns, idx, low.insert(x.0, val), st, ons, path, rems, anchors, fresh),
{
    reveal(tj_done);
}

/// Dealing with the last remaining neighbour `v` of the open node at the end
/// of the path.
proof fn lemma_done_pop<G: EdgeSource>(
    g: &G,
    ns: Seq<NodeId>,
    idx: Map<u64, u64>,
    low: Map<u64, u64>,
    st: Seq<NodeId>,
    ons: Set<u64>,
    path: Seq<NodeId>,
    rems: Seq<Seq<NodeId>>,
)
    requires
        tj_done(g, ns, idx, low, st, ons, path, rems, path, None),
        path.len() >= 1,
        rems.len() == path.len(),
        rems.last().len() > 0,
        forall|j: int, k: int|
            0 <= j < k < path.len() ==> idx[(#[trigger] path[j]).0] < idx[(#[trigger] path[k]).0],
        idx.contains_key(rems.last().last().0) && ons.contains(rems.last().last().0) ==> low[path.last().0]
            <= idx[rems.last().last().0],
        forall|k: u64| ons.contains(k) ==> idx.contains_key(k),
    ensures
        tj_done(
            g,
            ns,
            idx,
            low,
            st,
            ons,
            path,
            rems.update(rems.len() - 1, rems.last().drop_last()),
            path,
            if idx.contains_key(rems.last().last().0) {
                None
            } else {
                Some(rems.last().last())
            },
        ),
{
    reveal(tj_done);
    let last = rems.len() - 1;
    let r = rems.last();
    let v0 = r.last();
    let r2 = r.drop_last();
    let rems2 = rems.update(last, r2);
    let x = path.last();
    let fresh2 = if idx.contains_key(v0.0) {
        None
    } else {
        Some(v0)
    };
    assert(r == r2.push(v0));
    assert forall|i: int, j: int, v: NodeId|
        0 <= i < st.len() && #[trigger] anchored(path, idx, st[i], j) && #[trigger] succ(
            g,
            ns,
            st[i],
            v,
        ) && dealt(path, rems2, st[i], v) implies (idx.contains_key(v.0) || fresh2 == Some(v)) && (
        ons.contains(v.0) ==> low[path[j].0] <= idx[v.0]) by {
        let u = st[i];
        if u == x && v == v0 {
            assert(path[last] == x);
            if j < last {
                assert(idx[path[j + 1].0] <= idx[path[last].0]) by {
                    if j + 1 < last {
                        assert(idx[path[j + 1].0] < idx[path[last].0]);
                    }
                }
            }
            assert(j == last);
            assert(path[j] == x);
        } else {
            assert(dealt(path, rems, u, v)) by {
                assert forall|k: int| 0 <= k < path.len() && #[trigger] path[k] == u implies !rems[k].contains(v) by {
                    if k == last {
                        assert(!r2.contains(v));
                        if r.contains(v) {
                            let q = choose|q: int| 0 <= q < r.len() && r[q] == v;
                            if q < r2.len() {
                                assert(r2[q] == v);
                            } else {
                                assert(v == v0);
                                assert(u == x);
                            }
                        }
                    } else {
                        assert(rems2[k] == rems[k]);
                    }
                }
            }
            assert(anchored(path, idx, st[i], j));
            assert(succ(g, ns, st[i], v));
            assert(idx.contains_key(v.0) || None::<NodeId> == Some(v));
            assert(ons.contains(v.0) ==> low[path[j].0] <= idx[v.0]);
        }
    }
}

/// An open node with no neighbours left to deal with leaves the path; it
/// stays an anchor while on the stack.
proof fn lemma_done_finish<G: EdgeSource>(
    g: &G,
    ns: Seq<NodeId>,
    idx: Map<u64, u64>,
    low: Map<u64, u64>,
    st: Seq<NodeId>,
    ons: Set<u64>,
    path: Seq<NodeId>,
    rems: Seq<Seq<NodeId>>,
)
    requires
        tj_done(g, ns, idx, low, st, ons, path, rems, path, None),
        path.len() >= 1,
        rems.len() == path.len(),
        rems.last().len() == 0,
    ensures
        tj_done(g, ns, idx, low, st, ons, path.drop_last(), rems.drop_last(), path, None),
{
    reveal(tj_done);
    let path2 = path.drop_last();
    let rems2 = rems.drop_last();
    assert forall|i: int, j: int, v: NodeId|
        0 <= i < st.len() && #[trigger] anchored(path, idx, st[i], j) && #[trigger] succ(
            g,
            ns,
            st[i],
            v,
        ) && dealt(path2, rems2, st[i], v) implies (idx.contains_key(v.0) || None::<NodeId> == Some(v)) && (
        ons.contains(v.0) ==> low[path[j].0] <= idx[v.0]) by {
        let u = st[i];
        assert(dealt(path, rems, u, v)) by {
            assert forall|k: int| 0 <= k < path.len() && #[trigger] path[k] == u implies !rems[k].contains(v) by {
                if k < path.len() - 1 {
                    assert(path2[k] == path[k]);
                    assert(rems2[k] == rems[k]);
                }
            }
        }
    }
}

/// Taking a returned child's lowlink: the nodes anchored at the child are
/// now anchored at its parent.
proof fn lemma_done_resume<G: EdgeSource>(
    g: &G,
    ns: Seq<NodeId>,
    idx: Map<u64, u64>,
    low: Map<u64, u64>,
    st: Seq<NodeId>,
    ons: Set<u64>,
    path: Seq<NodeId>,
    rems: Seq<Seq<NodeId>>,
    c: NodeId,
    val: u64,
)
    requires
        tj_done(g, ns, idx, low, st, ons, path, rems, anchors_of(path, Top::Returned(c), ons), None),
        path.len() >= 1,
        idx[path.last().0] < idx[c.0],
        forall|j: int, k: int|
            0 <= j < k < path.len() ==> idx[(#[trigger] path[j]).0] < idx[(#[trigger] path[k]).0],
        low.contains_key(path.last().0),
        val <= low[path.last().0],
        val <= low[c.0],
    ensures
        tj_done(g, ns, idx, low.insert(path.last().0, val), st, ons, path, rems, path, None),
{
    reveal(tj_done);
    let a = anchors_of(path, Top::Returned(c), ons);
    let x = path.last();
    let low2 = low.insert(x.0, val);
    let last = path.len() - 1;
    assert forall|i: int, j: int, v: NodeId|
        0 <= i < st.len() && #[trigger] anchored(path, idx, st[i], j) && #[trigger] succ(
            g,
            ns,
            st[i],
            v,
        ) && dealt(path, rems, st[i], v) implies (idx.contains_key(v.0) || None::<NodeId> == Some(v)) && (
        ons.contains(v.0) ==> low2[path[j].0] <= idx[v.0]) by {
        let u = st[i];
        if ons.contains(c.0) {
            assert(a == path.push(c));
            assert(a[last + 1] == c);
            if j == last && idx[c.0] <= idx[u.0] {
                assert(anchored(a, idx, u, last + 1));
            } else {
                assert(a[j] == path[j]);
                if j + 1 < path.len() {
                    assert(a[j + 1] == path[j + 1]);
                }
                assert(anchored(a, idx, u, j));
            }
        } else {
            assert(a == path);
            assert(anchored(a, idx, u, j));
        }
        if j < last {
            assert(idx[path[j].0] < idx[path[last].0]);
            assert(path[j].0 != x.0);
        }
    }
}

/// Closing a component keeps what the remaining stack nodes have dealt with.
proof fn lemma_done_root<G: EdgeSource>(
    g: &G,
    ns: Seq<NodeId>,
    idx: Map<u64, u64>,
    low: Map<u64, u64>,
    st: Seq<NodeId>,
    ons: Set<u64>,
    path: Seq<NodeId>,
    rems: Seq<Seq<NodeId>>,
    px: int,
    ons2: Set<u64>,
)
    requires
        tj_done(g, ns, idx, low, st, ons, path, rems, path, None),
        tj_stack(ns, idx, st, ons),
        forall|j: int, k: int|
            0 <= j < k < path.len() ==> idx[(#[trigger] path[j]).0] < idx[(#[trigger] path[k]).0],
        path.len() >= 1,
        rems.len() == path.len(),
        0 <= px < st.len(),
        st[px] == path.last(),
        forall|k: u64| ons2.contains(k) <==> exists|i: int| 0 <= i < px && (#[trigger] st[i]).0 == k,
    ensures
        tj_done(
            g,
            ns,
            idx,
            low,
            st.take(px),
            ons2,
            path.drop_last(),
            rems.drop_last(),
            path.drop_last(),
            None,
        ),
{
    reveal(tj_done);
    let st2 = st.take(px);
    let path2 = path.drop_last();
    let rems2 = rems.drop_last();
    let last = path.len() - 1;
    let x = path.last();
    assert forall|i: int, j: int, v: NodeId|
        0 <= i < st2.len() && #[trigger] anchored(path2, idx, st2[i], j) && #[trigger] succ(
            g,
            ns,
            st2[i],
            v,
        ) && dealt(path2, rems2, st2[i], v) implies (idx.contains_key(v.0) || None::<NodeId> == Some(v)) && (
        ons2.contains(v.0) ==> low[path2[j].0] <= idx[v.0]) by {
        let u = st[i];
        assert(st2[i] == u);
        lemma_tj_below(ns, idx, st, ons, px, i);
        assert(path2[j] == path[j]);
        assert(anchored(path, idx, u, j)) by {
            if j + 1 < path.len() {
                if j + 1 < path2.len() {
                    assert(path2[j + 1] == path[j + 1]);
                } else {
                    assert(path[j + 1] == x);
                }
            }
        }
        assert(dealt(path, rems, u, v)) by {
            assert forall|k: int| 0 <= k < path.len() && #[trigger] path[k] == u implies !rems[k].contains(v) by {
                if k < last {
                    assert(path2[k] == path[k]);
                    assert(rems2[k] == rems[k]);
                } else {
                    assert(u == x);
                }
            }
        }
        if ons2.contains(v.0) {
            reveal(tj_stack);
            let q = choose|q: int| 0 <= q < px && (#[trigger] st[q]).0 == v.0;
            assert(ons.contains(v.0));
        }
    }
}

/// The component closed at the root holds every successor of its nodes
/// that is not in an earlier component.
proof fn lemma_root_order<G: EdgeSource>(
    g: &G,
    ns: Seq<NodeId>,
    idx: Map<u64, u64>,
    low: Map<u64, u64>,
    st: Seq<NodeId>,
    ons: Set<u64>,
    path: Seq<NodeId>,
    rems: Seq<Seq<NodeId>>,
    sccs: Seq<Seq<NodeId>>,
    px: int,
    scc: Seq<NodeId>,
)
    requires
        tj_done(g, ns, idx, low, st, ons, path, rems, path, None),
        tj_stack(ns, idx, st, ons),
        tj_sccs(g, ns, idx, ons, sccs),
        tj_order(g, ns, sccs),
        forall|j: int, k: int|
            0 <= j < k < path.len() ==> idx[(#[trigger] path[j]).0] < idx[(#[trigger] path[k]).0],
        path.len() >= 1,
        rems.len() == path.len(),
        rems.last().len() == 0,
        0 <= px < st.len(),
        st[px] == path.last(),
        low[path.last().0] == idx[path.last().0],
        scc.len() == st.len() - px,
        forall|k: int| 0 <= k < scc.len() ==> #[trigger] scc[k] == st[st.len() - 1 - k],
    ensures
        tj_order(g, ns, sccs.push(scc)),
{
    reveal(tj_order);
    let sccs2 = sccs.push(scc);
    let n = sccs.len() as int;
    let len = st.len() as int;
    let last = path.len() - 1;
    let x = path.last();
    assert forall|c: int| 0 <= c < n implies #[trigger] sccs2[c] == sccs[c] by {}
    assert(sccs2[n] == scc);
    assert forall|c: int, i: int, v: NodeId|
        0 <= c < sccs2.len() && 0 <= i < sccs2[c].len() && #[trigger] succ(g, ns, sccs2[c][i], v)
            implies in_components(sccs2, c + 1, v) by {
        if c < n {
            assert(in_components(sccs, c + 1, v));
            let (c1, i1) = choose|c1: int, i1: int|
                0 <= c1 < c + 1 && 0 <= i1 < sccs[c1].len() && #[trigger] sccs[c1][i1] == v;
            assert(sccs2[c1][i1] == v);
        } else {
            let q = len - 1 - i;
            let u = st[q];
            assert(scc[i] == u);
            lemma_tj_below(ns, idx, st, ons, px, q);
            assert(anchored(path, idx, u, last));
            assert(dealt(path, rems, u, v)) by {
                assert forall|k: int| 0 <= k < path.len() && #[trigger] path[k] == u implies !rems[k].contains(v) by {
                    if k < last {
                        assert(idx[path[k].0] < idx[path[last].0]);
                    }
                }
            }
            reveal(tj_done);
            assert(anchored(path, idx, st[q], last) && succ(g, ns, st[q], v));
            assert(idx.contains_key(v.0));
            if ons.contains(v.0) {
                reveal(tj_stack);
                let q2 = choose|q2: int| 0 <= q2 < st.len() && (#[trigger] st[q2]).0 == v.0;
                assert(st[q2] == v);
                lemma_tj_below(ns, idx, st, ons, px, q2);
                let k2 = len - 1 - q2;
                assert(scc[k2] == v);
                assert(sccs2[n][k2] == v);
            } else {
                reveal(tj_sccs);
                let (c1, i1) = choose|c1: int, i1: int|
                    0 <= c1 < sccs.len() && 0 <= i1 < sccs[c1].len() && (#[trigger] sccs[c1][i1]).0 == v.0;
                assert(sccs[c1][i1] == v);
                assert(sccs2[c1][i1] == v);
            }
        }
    }
}

/// A walk from a node of component `c` ends in component `c` or an
/// earlier one.
proof fn lemma_walk_stays_earlier<G: EdgeSource>(
    g: &G,
    ns: Seq<NodeId>,
    sccs: Seq<Seq<NodeId>>,
    c: int,
    a: int,
    w: NodeId,
    k: nat,
)
    requires
        tj_order(g, ns, sccs),
        0 <= c < sccs.len(),
        0 <= a < sccs[c].len(),
        walk_of_len(arcs(g, ns), sccs[c][a], w, k),
    ensures
        in_components(sccs, c + 1, w),
    decreases k,
{
    if k == 0 {
        assert(sccs[c][a] == w);
    } else {
        let u = lemma_walk_pred(arcs(g, ns), sccs[c][a], w, (k - 1) as nat);
        lemma_walk_stays_earlier(g, ns, sccs, c, a, u, (k - 1) as nat);
        let (c1, i1) = choose|c1: int, i1: int|
            0 <= c1 < c + 1 && 0 <= i1 < sccs[c1].len() && #[trigger] sccs[c1][i1] == u;
        reveal(tj_order);
        assert(succ(g, ns, sccs[c1][i1], w));
        let (c2, i2) = choose|c2: int, i2: int|
            0 <= c2 < c1 + 1 && 0 <= i2 < sccs[c2].len() && #[trigger] sccs[c2][i2] == w;
        assert(sccs[c2][i2] == w);
    }
}

/// The components come in reverse topological order, and no two of them
/// reach each other both ways: each is a maximal strongly connected set.
proof fn lemma_order_maximal<G: EdgeSource>(g: &G, ns: Seq<NodeId>, sccs: Seq<Seq<NodeId>>)
    requires
        tj_order(g, ns, sccs),
        all_distinct(sccs),
    ensures
        scc_order(g, ns, sccs),
{
    reveal(tj_order);
    assert forall|c1: int, a: int, c2: int, b: int|
        0 <= c1 < sccs.len() && 0 <= a < sccs[c1].len() && 0 <= c2 < sccs.len() && 0 <= b < sccs[c2].len()
            && #[trigger] reaches(g, ns, sccs[c1][a], sccs[c2][b]) && #[trigger] reaches(g, ns, sccs[c2][b], sccs[c1][a])
            implies c1 == c2 by {
        let e = arcs(g, ns);
        let k1 = choose|k: nat| #[trigger] walk_of_len(e, sccs[c1][a], sccs[c2][b], k);
        lemma_walk_stays_earlier(g, ns, sccs, c1, a, sccs[c2][b], k1);
        let (d1, j1) = choose|d1: int, j1: int|
            0 <= d1 < c1 + 1 && 0 <= j1 < sccs[d1].len() && #[trigger] sccs[d1][j1] == sccs[c2][b];
        if d1 != c2 || j1 != b {
            assert(sccs[d1][j1] != sccs[c2][b]);
        }
        let k2 = choose|k: nat| #[trigger] walk_of_len(e, sccs[c2][b], sccs[c1][a], k);
        lemma_walk_stays_earlier(g, ns, sccs, c2, b, sccs[c1][a], k2);
        let (d2, j2) = choose|d2: int, j2: int|
            0 <= d2 < c2 + 1 && 0 <= j2 < sccs[d2].len() && #[trigger] sccs[d2][j2] == sccs[c1][a];
        if d2 != c1 || j2 != a {
            assert(sccs[d2][j2] != sccs[c1][a]);
        }
    }
}

/// The identifiers of `ns` form a finite set no larger than `ns`.
proof fn lemma_ids_bounded(ns: Seq<NodeId>, ids: Set<u64>)
    requires
        forall|k: u64| ids.contains(k) <==> exists|i: int| 0 <= i < ns.len() && (#[trigger] ns[i]).0 == k,
    ensures
        ids.finite(),
        ids.len() <= ns.len(),
{
    let s = ns.map_values(|n: NodeId| n.0);
    assert forall|k: u64| ids.contains(k) <==> s.to_set().contains(k) by {
        if ids.contains(k) {
            let i = choose|i: int| 0 <= i < ns.len() && (#[trigger] ns[i]).0 == k;
            assert(s[i] == k);
        }
        if s.to_set().contains(k) {
            let i = choose|i: int| 0 <= i < s.len() && s[i] == k;
            assert(ns[i].0 == k);
        }
    }
    assert(ids =~= s.to_set());
    vstd::seq_lib::seq_to_set_is_finite(s);
    s.lemma_cardinality_of_set();
}

#[verifier::rlimit(100)]
#[verifier::spinoff_prover]
/// Find all strongly connected components of `nodes` using Tarjan's
/// algorithm, following outgoing edges to nodes of `nodes`. The depth-first
/// search runs on an explicit work stack instead of recursion, so deep
/// graphs do not exhaust the call stack.
pub fn strongly_connected_components<G: EdgeSource>(graph: &G, nodes: &[NodeId]) -> (r: Result<
    Vec<Vec<NodeId>>,
    AstraeaError,
>)
    ensures
        r matches Ok(v) ==> scc_partition(graph, nodes@, v@.map_values(|c: Vec<NodeId>| c@)),
        r matches Ok(v) ==> scc_order(graph, nodes@, v@.map_values(|c: Vec<NodeId>| c@)),
        graph.never_fails() ==> r is Ok,
{
    let ghost ns = nodes@;
    let mut node_set: HashSet<u64> = HashSet::new();
    let mut s: usize = 0;
    while s < nodes.len()
        invariant
            ns == nodes@,
            s <= ns.len(),
            forall|k: u64|
                node_set@.contains(k) <==> exists|i: int| 0 <= i < s && (#[trigger] ns[i]).0 == k,
        decreases ns.len() - s,
    {
        node_set.insert(nodes[s].0);
        proof {
            assert forall|k: u64|
                node_set@.contains(k) <==> exists|i: int| 0 <= i < s + 1 && (#[trigger] ns[i]).0 == k by {
                if k == ns[s as int].0 {
                    assert(ns[s as int].0 == k);
                }
            }
        }
        s = s + 1;
    }
    let ghost node_ids = node_set@;
    let count = nodes.len();
    proof {
        assert(count as int == ns.len());
        lemma_ids_bounded(ns, node_ids);
        lemma_tj_init(graph, ns, node_ids);
    }
    let mut index_counter: u64 = 0;
    let mut stack: Vec<NodeId> = Vec::new();
    let mut on_stack: HashSet<u64> = HashSet::new();
    let mut index_map: HashMap<u64, u64> = HashMap::new();
    let mut lowlink: HashMap<u64, u64> = HashMap::new();
    let mut result: Vec<Vec<NodeId>> = Vec::new();
    let ghost mut sccs: Seq<Seq<NodeId>> = Seq::empty();
    let ghost mut path: Seq<NodeId> = Seq::empty();
    let ghost mut rems: Seq<Seq<NodeId>> = Seq::empty();
    proof {
        lemma_order_init(graph, ns, sccs);
        assert(on_stack@ =~= Set::<u64>::empty());
        assert(index_map@ =~= Map::<u64, u64>::empty());
        assert(lowlink@ =~= Map::<u64, u64>::empty());
    }
    let mut t: usize = 0;
    while t < nodes.len()
        invariant
            ns == nodes@,
            t <= ns.len(),
            ns.len() <= usize::MAX,
            node_ids == node_set@,
            node_ids.len() <= ns.len(),
            forall|k: u64|
                node_set@.contains(k) <==> exists|i: int| 0 <= i < ns.len() && (#[trigger] ns[i]).0 == k,
            sccs == result@.map_values(|c: Vec<NodeId>| c@),
            path.len() == 0,
            stack@.len() == 0,
            tj_order(graph, ns, sccs),
            tj_core(
                graph,
                ns,
                node_ids,
                index_map@,
                lowlink@,
                index_counter as nat,
                stack@,
                on_stack@,
                path,
                sccs,
            ),
            forall|u: int| 0 <= u < t ==> index_map@.contains_key((#[trigger] ns[u]).0),
        decreases ns.len() - t,
    {
        let start = nodes[t];
        if index_map.contains_key(&start.0) {
            t = t + 1;
            continue;
        }
        let mut work: Vec<Frame> = Vec::new();
        work.push(Frame::Enter { node: start });
        let ghost mut top = Top::Fresh(start);
        proof {
            rems = Seq::empty();
            lemma_done_empty(
                graph,
                ns,
                index_map@,
                lowlink@,
                stack@,
                on_stack@,
                path,
                rems,
                anchors_of(path, top, on_stack@),
                fresh_of(top),
            );
            assert(ns[t as int] == start);
            assert(work@.last() == Frame::Enter { node: start });
        }
        while work.len() > 0
            invariant
                ns == nodes@,
                t < ns.len(),
                ns.len() <= usize::MAX,
                start == ns[t as int],
                node_ids == node_set@,
                node_ids.len() <= ns.len(),
                forall|k: u64|
                    node_set@.contains(k) <==> exists|i: int| 0 <= i < ns.len() && (#[trigger] ns[i]).0 == k,
                sccs == result@.map_values(|c: Vec<NodeId>| c@),
                tj_core(
                    graph,
                    ns,
                    node_ids,
                    index_map@,
                    lowlink@,
                    index_counter as nat,
                    stack@,
                    on_stack@,
                    path,
                    sccs,
                ),
                frames_ok(graph, ns, path, work@, top),
                top_ok(graph, ns, index_map@, lowlink@, on_stack@, path, top),
                rems.len() == path.len(),
                rems_match(work@, rems, path.len() as int),
                tj_done(
                    graph,
                    ns,
                    index_map@,
                    lowlink@,
                    stack@,
                    on_stack@,
                    path,
                    rems,
                    anchors_of(path, top, on_stack@),
                    fresh_of(top),
                ),
                tj_order(graph, ns, sccs),
                top == Top::Fresh(start) || index_map@.contains_key(start.0),
                forall|u: int| 0 <= u < t ==> index_map@.contains_key((#[trigger] ns[u]).0),
            decreases node_ids.len() - index_counter, work_weight(work@),
        {
            proof {
                lemma_tj_facts(
                    graph,
                    ns,
                    node_ids,
                    index_map@,
                    lowlink@,
                    index_counter as nat,
                    stack@,
                    on_stack@,
                    path,
                    sccs,
                );
                assert(work@ == work@.drop_last().push(work@.last()));
            }
            let ghost work0 = work@;
            let frame = match work.pop() {
                Some(f) => f,
                None => {
                    proof {
                        assert(false);
                    }
                    return Ok(result);
                },
            };
            match frame {
                Frame::Enter { node } => {
                    let ghost idx0 = index_map@;
                    let ghost low0 = lowlink@;
                    let ghost st0 = stack@;
                    let ghost ons0 = on_stack@;
                    let ghost path0 = path;
                    let ghost counter0 = index_counter as nat;
                    proof {
                        assert(top == Top::Fresh(node));
                        assert(node_ids.contains(node.0)) by {
                            let i = choose|i: int| 0 <= i < ns.len() && ns[i] == node;
                            assert(ns[i].0 == node.0);
                        }
                        assert(index_counter < node_ids.len());
                        assert(index_counter < u64::MAX);
                        lemma_tj_enter(
                            graph,
                            ns,
                            node_ids,
                            index_map@,
                            lowlink@,
                            index_counter as nat,
                            stack@,
                            on_stack@,
                            path,
                            sccs,
                            node,
                        );
                    }
                    index_map.insert(node.0, index_counter);
                    lowlink.insert(node.0, index_counter);
                    index_counter = index_counter + 1;
                    stack.push(node);
                    on_stack.insert(node.0);
                    proof {
                        path = path.push(node);
                    }
                    let nbrs = match neighbors(graph, node, Direction::Outgoing) {
                        Ok(v) => v,
                        Err(err) => {
                            return Err(err);
                        },
                    };
                    let mut remaining: Vec<NodeId> = Vec::new();
                    let mut k: usize = 0;
                    while k < nbrs.len()
                        invariant
                            k <= nbrs@.len(),
                            nbrs@ == graph.edges_of(node, Direction::Outgoing).map_values(
                                |e: EdgeLink| neighbor_entry(e, node),
                            ),
                            forall|kk: u64|
                                node_set@.contains(kk) <==> exists|i: int|
                                    0 <= i < ns.len() && (#[trigger] ns[i]).0 == kk,
                            forall|q: int| 0 <= q < remaining@.len() ==> succ(graph, ns, node, #[trigger] remaining@[q]),
                            forall|q: int| 0 <= q < k && ns.contains((#[trigger] nbrs@[q]).1) ==> remaining@.contains(nbrs@[q].1),
                        decreases nbrs@.len() - k,
                    {
                        let n = nbrs[k].1;
                        let ghost rem_before = remaining@;
                        proof {
                            if ns.contains(n) {
                                let i = choose|i: int| 0 <= i < ns.len() && ns[i] == n;
                                assert(ns[i].0 == n.0);
                            }
                        }
                        if node_set.contains(&n.0) {
                            proof {
                                let i = choose|i: int| 0 <= i < ns.len() && (#[trigger] ns[i]).0 == n.0;
                                assert(ns[i] == n);
                                let e = graph.edges_of(node, Direction::Outgoing)[k as int];
                                assert(nbrs@[k as int] == neighbor_entry(e, node));
                            }
                            remaining.push(n);
                            proof {
                                assert(remaining@[remaining@.len() - 1] == n);
                                assert forall|q: int| 0 <= q < k + 1 && ns.contains((#[trigger] nbrs@[q]).1) implies remaining@.contains(nbrs@[q].1) by {
                                    if q < k {
                                        let w = choose|w: int| 0 <= w < rem_before.len() && rem_before[w] == nbrs@[q].1;
                                        assert(remaining@[w] == rem_before[w]);
                                    }
                                }
                            }
                        }
                        k = k + 1;
                    }
                    proof {
                        assert forall|v: NodeId| #[trigger] succ(graph, ns, node, v) implies remaining@.contains(v) by {
                            let i = choose|i: int|
                                0 <= i < graph.edges_of(node, Direction::Outgoing).len() && far_end(
                                    #[trigger] graph.edges_of(node, Direction::Outgoing)[i],
                                    node,
                                ) == v;
                            assert(nbrs@[i].1 == v);
                        }
                        lemma_done_enter(
                            graph,
                            ns,
                            idx0,
                            low0,
                            counter0,
                            st0,
                            ons0,
                            path0,
                            rems,
                            node,
                            remaining@,
                        );
                        rems = rems.push(remaining@);
                    }
                    proof {
                        lemma_work_weight_push(work@, Frame::Continue { node, remaining });
                    }
                    work.push(Frame::Continue { node, remaining });
                    proof {
                        top = Top::Open;
                        assert forall|j: int| 0 <= j < path.len() implies frame_rem(#[trigger] work@[j]) == rems[j] by {
                            if j < path.len() - 1 {
                                assert(work@[j] == work0[j]);
                            }
                        }
                        lemma_tj_facts(
                            graph,
                            ns,
                            node_ids,
                            index_map@,
                            lowlink@,
                            index_counter as nat,
                            stack@,
                            on_stack@,
                            path,
                            sccs,
                        );
                        assert forall|j: int| 0 <= j < work@.len() implies frame_ok(graph, ns, #[trigger] work@[j]) by {
                            if j < work@.len() - 1 {
                                assert(work@[j] == work0[j]);
                            }
                        }
                        assert(resume_chain(work@, path, path.len() - 1, path.last())) by {
                            assert forall|j: int| 0 <= j < path.len() - 1 implies resumes(
                                #[trigger] work@[j],
                                path[j],
                                if j + 1 < path.len() {
                                    path[j + 1]
                                } else {
                                    path.last()
                                },
                            ) by {
                                assert(work@[j] == work0[j]);
                                assert(resumes(work0[j], path[j], path[j + 1]));
                            }
                        }
                    }
                },
                Frame::Resume { node, child, remaining } => {
                    proof {
                        assert(top == Top::Returned(child));
                        assert(resumes(work0.last(), path.last(), child));
                        assert(node == path.last());
                    }
                    let child_low = match lowlink.get(&child.0) {
                        Some(v) => *v,
                        None => {
                            proof {
                                assert(false);
                            }
                            0
                        },
                    };
                    let node_low = match lowlink.get(&node.0) {
                        Some(v) => *v,
                        None => {
                            proof {
                                assert(false);
                            }
                            0
                        },
                    };
                    proof {
                        let val: u64 = if child_low < node_low {
                            child_low
                        } else {
                            node_low
                        };
                        lemma_done_resume(
                            graph,
                            ns,
                            index_map@,
                            lowlink@,
                            stack@,
                            on_stack@,
                            path,
                            rems,
                            child,
                            val,
                        );
                        if child_low >= node_low {
                            assert(lowlink@.insert(node.0, node_low) =~= lowlink@);
                        }
                    }
                    if child_low < node_low {
                        proof {
                            if !on_stack@.contains(child.0) {
                                assert(false);
                            }
                            let pc = lemma_tj_position(ns, index_map@, stack@, on_stack@, child);
                            reveal(tj_stack);
                            let m = lemma_tj_low_of(graph, ns, index_map@, lowlink@, stack@, pc);
                            lemma_reachable_edge(arcs(graph, ns), node, child);
                            lemma_reachable_trans(arcs(graph, ns), node, child, stack@[m]);
                            lemma_tj_lower(
                                graph,
                                ns,
                                node_ids,
                                index_map@,
                                lowlink@,
                                index_counter as nat,
                                stack@,
                                on_stack@,
                                path,
                                sccs,
                                node,
                                m,
                            );
                        }
                        lowlink.insert(node.0, child_low);
                    }
                    proof {
                        lemma_work_weight_push(work@, Frame::Continue { node, remaining });
                    }
                    work.push(Frame::Continue { node, remaining });
                    proof {
                        top = Top::Open;
                        assert(frame_ok(graph, ns, work0.last()));
                        assert forall|j: int| 0 <= j < path.len() implies frame_rem(#[trigger] work@[j]) == rems[j] by {
                            if j < path.len() - 1 {
                                assert(work@[j] == work0[j]);
                            } else {
                                assert(frame_rem(work0[j]) == rems[j]);
                            }
                        }
                        assert forall|j: int| 0 <= j < work@.len() implies frame_ok(graph, ns, #[trigger] work@[j]) by {
                            if j < work@.len() - 1 {
                                assert(work@[j] == work0[j]);
                            }
                        }
                        assert(resume_chain(work@, path, path.len() - 1, path.last())) by {
                            assert forall|j: int| 0 <= j < path.len() - 1 implies resumes(
                                #[trigger] work@[j],
                                path[j],
                                if j + 1 < path.len() {
                                    path[j + 1]
                                } else {
                                    path.last()
                                },
                            ) by {
                                assert(work@[j] == work0[j]);
                                assert(resumes(work0[j], path[j], path[j + 1]));
                            }
                        }
                    }
                },
                Frame::Continue { node, remaining } => {
                    proof {
                        assert(top == Top::Open);
                        assert(node == path.last());
                        assert(frame_ok(graph, ns, work0.last()));
                    }
                    let mut remaining = remaining;
                    let ghost rem0_len = remaining@.len();
                    let ghost rems_prefix = rems.drop_last();
                    proof {
                        assert(frame_rem(work0.last()) == rems[path.len() - 1]);
                        assert(rems == rems_prefix.push(remaining@));
                    }
                    let mut descend: Option<NodeId> = None;
                    while remaining.len() > 0
                        invariant_except_break
                            descend is None,
                        invariant
                            ns == nodes@,
                            node_ids == node_set@,
                            path.len() >= 1,
                            node == path.last(),
                            remaining@.len() <= rem0_len,
                            rems == rems_prefix.push(remaining@),
                            rems.len() == path.len(),
                            tj_done(
                                graph,
                                ns,
                                index_map@,
                                lowlink@,
                                stack@,
                                on_stack@,
                                path,
                                rems,
                                path,
                                descend,
                            ),
                            forall|q: int| 0 <= q < remaining@.len() ==> succ(graph, ns, node, #[trigger] remaining@[q]),
                            tj_core(
                                graph,
                                ns,
                                node_ids,
                                index_map@,
                                lowlink@,
                                index_counter as nat,
                                stack@,
                                on_stack@,
                                path,
                                sccs,
                            ),
                        ensures
                            descend matches Some(nb) ==> !index_map@.contains_key(nb.0) && succ(graph, ns, node, nb)
                                && remaining@.len() < rem0_len,
                            descend is None ==> remaining@.len() == 0,
                        decreases remaining@.len(),
                    {
                        let ghost rem_before = remaining@;
                        let ghost rems_before = rems;
                        proof {
                            lemma_tj_facts(
                                graph,
                                ns,
                                node_ids,
                                index_map@,
                                lowlink@,
                                index_counter as nat,
                                stack@,
                                on_stack@,
                                path,
                                sccs,
                            );
                        }
                        let nb = match remaining.pop() {
                            Some(v) => v,
                            None => {
                                proof {
                                    assert(false);
                                }
                                break;
                            },
                        };
                        proof {
                            assert(rem_before == remaining@.push(nb));
                            assert(succ(graph, ns, node, rem_before[rem_before.len() - 1]));
                            assert forall|q: int| 0 <= q < remaining@.len() implies succ(graph, ns, node, #[trigger] remaining@[q]) by {
                                assert(remaining@[q] == rem_before[q]);
                            }
                        }
                        proof {
                            assert(rems_before.last() == rem_before);
                            assert(rem_before.last() == nb);
                            assert(rems_before.update(rems_before.len() - 1, rem_before.drop_last())
                                =~= rems_prefix.push(remaining@));
                        }
                        if !index_map.contains_key(&nb.0) {
                            proof {
                                lemma_done_pop(
                                    graph,
                                    ns,
                                    index_map@,
                                    lowlink@,
                                    stack@,
                                    on_stack@,
                                    path,
                                    rems_before,
                                );
                                rems = rems_prefix.push(remaining@);
                            }
                            descend = Some(nb);
                            break;
                        } else if on_stack.contains(&nb.0) {
                            proof {
                                lemma_tj_facts(
                                    graph,
                                    ns,
                                    node_ids,
                                    index_map@,
                                    lowlink@,
                                    index_counter as nat,
                                    stack@,
                                    on_stack@,
                                    path,
                                    sccs,
                                );
                            }
                            let neighbor_idx = match index_map.get(&nb.0) {
                                Some(v) => *v,
                                None => {
                                    proof {
                                        assert(false);
                                    }
                                    0
                                },
                            };
                            let node_low = match lowlink.get(&node.0) {
                                Some(v) => *v,
                                None => {
                                    proof {
                                        assert(false);
                                    }
                                    0
                                },
                            };
                            if neighbor_idx < node_low {
                                proof {
                                    lemma_done_lower(
                                        graph,
                                        ns,
                                        index_map@,
                                        lowlink@,
                                        stack@,
                                        on_stack@,
                                        path,
                                        rems_before,
                                        path,
                                        None,
                                        node,
                                        neighbor_idx,
                                    );
                                    let pn = lemma_tj_position(ns, index_map@, stack@, on_stack@, nb);
                                    lemma_reachable_edge(arcs(graph, ns), node, nb);
                                    lemma_tj_lower(
                                        graph,
                                        ns,
                                        node_ids,
                                        index_map@,
                                        lowlink@,
                                        index_counter as nat,
                                        stack@,
                                        on_stack@,
                                        path,
                                        sccs,
                                        node,
                                        pn,
                                    );
                                }
                                lowlink.insert(node.0, neighbor_idx);
                            }
                        }
                        proof {
                            lemma_done_pop(
                                graph,
                                ns,
                                index_map@,
                                lowlink@,
                                stack@,
                                on_stack@,
                                path,
                                rems_before,
                            );
                            rems = rems_prefix.push(remaining@);
                        }
                    }
                    match descend {
                        Some(nb) => {
                            proof {
                                lemma_work_weight_push(work@, Frame::Resume { node, child: nb, remaining });
                            }
                            work.push(Frame::Resume { node, child: nb, remaining });
                            let ghost work1 = work@;
                            proof {
                                lemma_work_weight_push(work@, Frame::Enter { node: nb });
                            }
                            work.push(Frame::Enter { node: nb });
                            proof {
                                top = Top::Fresh(nb);
                                assert(ns.contains(nb));
                                assert forall|j: int| 0 <= j < path.len() implies frame_rem(#[trigger] work@[j]) == rems[j] by {
                                    if j < path.len() - 1 {
                                        assert(work@[j] == work0[j]);
                                        assert(frame_rem(work0[j]) == rems[j]);
                                    } else {
                                        assert(work@[j] == work1.last());
                                    }
                                }
                                assert forall|j: int| 0 <= j < work@.len() implies frame_ok(graph, ns, #[trigger] work@[j]) by {
                                    if j < work@.len() - 2 {
                                        assert(work@[j] == work0[j]);
                                    } else if j == work@.len() - 2 {
                                        assert(work@[j] == work1.last());
                                    }
                                }
                                assert(resume_chain(work@, path, path.len() as int, nb)) by {
                                    assert forall|j: int| 0 <= j < path.len() implies resumes(
                                        #[trigger] work@[j],
                                        path[j],
                                        if j + 1 < path.len() {
                                            path[j + 1]
                                        } else {
                                            nb
                                        },
                                    ) by {
                                        if j < path.len() - 1 {
                                            assert(work@[j] == work0[j]);
                                            assert(resumes(work0[j], path[j], path[j + 1]));
                                        } else {
                                            assert(work@[j] == work1.last());
                                        }
                                    }
                                }
                            }
                        },
                        None => {
                            proof {
                                lemma_tj_facts(
                                    graph,
                                    ns,
                                    node_ids,
                                    index_map@,
                                    lowlink@,
                                    index_counter as nat,
                                    stack@,
                                    on_stack@,
                                    path,
                                    sccs,
                                );
                                assert(index_map@.contains_key(path[path.len() - 1].0));
                            }
                            let node_low = match lowlink.get(&node.0) {
                                Some(v) => *v,
                                None => {
                                    proof {
                                        assert(false);
                                    }
                                    0
                                },
                            };
                            let node_idx = match index_map.get(&node.0) {
                                Some(v) => *v,
                                None => {
                                    proof {
                                        assert(false);
                                    }
                                    0
                                },
                            };
                            if node_low == node_idx {
                                let ghost st0 = stack@;
                                let ghost ons0 = on_stack@;
                                let ghost idx0 = index_map@;
                                let ghost px = lemma_tj_position(ns, index_map@, stack@, on_stack@, node);
                                proof {
                                    reveal(tj_stack);
                                }
                                let mut scc: Vec<NodeId> = Vec::new();
                                loop
                                    invariant_except_break
                                        px < stack@.len(),
                                    invariant
                                        0 <= px < st0.len(),
                                        st0[px] == node,
                                        index_map@ == idx0,
                                        forall|i: int| 0 <= i < st0.len() ==> idx0.contains_key((#[trigger] st0[i]).0),
                                        forall|i: int, j: int|
                                            0 <= i < j < st0.len() ==> idx0[(#[trigger] st0[i]).0] < idx0[(#[trigger] st0[j]).0],
                                        px <= stack@.len() <= st0.len(),
                                        stack@ == st0.take(stack@.len() as int),
                                        scc@.len() == st0.len() - stack@.len(),
                                        forall|q: int| 0 <= q < scc@.len() ==> #[trigger] scc@[q] == st0[st0.len() - 1 - q],
                                        forall|k: u64|
                                            on_stack@.contains(k) <==> exists|i: int|
                                                0 <= i < stack@.len() && (#[trigger] st0[i]).0 == k,
                                    ensures
                                        stack@.len() == px,
                                    decreases stack@.len(),
                                {
                                    let ghost len_before = stack@.len();
                                    let w = match stack.pop() {
                                        Some(v) => v,
                                        None => {
                                            proof {
                                                assert(false);
                                            }
                                            break;
                                        },
                                    };
                                    proof {
                                        assert(w == st0[len_before - 1]);
                                        assert(stack@ == st0.take(len_before - 1));
                                    }
                                    on_stack.remove(&w.0);
                                    scc.push(w);
                                    proof {
                                        assert forall|k: u64|
                                            on_stack@.contains(k) <==> exists|i: int|
                                                0 <= i < stack@.len() && (#[trigger] st0[i]).0 == k by {
                                            if exists|i: int| 0 <= i < len_before && (#[trigger] st0[i]).0 == k {
                                                let i = choose|i: int| 0 <= i < len_before && (#[trigger] st0[i]).0 == k;
                                                if i < len_before - 1 {
                                                    assert(idx0[st0[i].0] < idx0[st0[len_before - 1].0]);
                                                }
                                            }
                                        }
                                        assert forall|q: int| 0 <= q < scc@.len() implies #[trigger] scc@[q]
                                            == st0[st0.len() - 1 - q] by {
                                            if q < scc@.len() - 1 {
                                                assert(scc@[q] == scc@.drop_last()[q]);
                                            }
                                        }
                                    }
                                    if w == node {
                                        proof {
                                            if len_before - 1 != px {
                                                if len_before - 1 > px {
                                                    assert(idx0[st0[px].0] < idx0[st0[len_before - 1].0]);
                                                }
                                            }
                                        }
                                        break;
                                    }
                                }
                                proof {
                                    assert(stack@ == st0.take(px));
                                    assert forall|k: u64| on_stack@.contains(k) <==> exists|i: int|
                                        0 <= i < px && (#[trigger] st0[i]).0 == k by {}
                                    lemma_tj_finish_root(
                                        graph,
                                        ns,
                                        node_ids,
                                        index_map@,
                                        lowlink@,
                                        index_counter as nat,
                                        st0,
                                        ons0,
                                        path,
                                        sccs,
                                        px,
                                        on_stack@,
                                        scc@,
                                    );
                                    lemma_frames_finish(graph, ns, path, work0);
                                    lemma_tj_facts(
                                        graph,
                                        ns,
                                        node_ids,
                                        index_map@,
                                        lowlink@,
                                        index_counter as nat,
                                        st0,
                                        ons0,
                                        path,
                                        sccs,
                                    );
                                    lemma_root_order(
                                        graph,
                                        ns,
                                        index_map@,
                                        lowlink@,
                                        st0,
                                        ons0,
                                        path,
                                        rems,
                                        sccs,
                                        px,
                                        scc@,
                                    );
                                    lemma_done_root(
                                        graph,
                                        ns,
                                        index_map@,
                                        lowlink@,
                                        st0,
                                        ons0,
                                        path,
                                        rems,
                                        px,
                                        on_stack@,
                                    );
                                    assert(!on_stack@.contains(node.0)) by {
                                        if on_stack@.contains(node.0) {
                                            let i = choose|i: int| 0 <= i < px && (#[trigger] st0[i]).0 == node.0;
                                            assert(idx0[st0[i].0] < idx0[st0[px].0]);
                                        }
                                    }
                                    rems = rems.drop_last();
                                    assert forall|j: int| 0 <= j < path.len() - 1 implies frame_rem(#[trigger] work@[j]) == rems[j] by {
                                        assert(work@[j] == work0[j]);
                                        assert(frame_rem(work0[j]) == rems_prefix[j]);
                                    }
                                    if path.len() > 1 {
                                        top = Top::Returned(node);
                                        let p2 = path.drop_last();
                                        assert(path[path.len() - 2] == p2.last());
                                        assert(succ(graph, ns, path[path.len() - 2], path[path.len() - 1]));
                                        assert(index_map@[path[path.len() - 2].0] < index_map@[path[path.len() - 1].0]);
                                    } else {
                                        top = Top::Idle;
                                    }
                                }
                                let ghost scc_view = scc@;
                                result.push(scc);
                                proof {
                                    sccs = sccs.push(scc_view);
                                    path = path.drop_last();
                                    assert(sccs == result@.map_values(|c: Vec<NodeId>| c@));
                                }
                            } else {
                                proof {
                                    lemma_tj_finish_open(
                                        graph,
                                        ns,
                                        node_ids,
                                        index_map@,
                                        lowlink@,
                                        index_counter as nat,
                                        stack@,
                                        on_stack@,
                                        path,
                                        sccs,
                                    );
                                    lemma_frames_finish(graph, ns, path, work0);
                                    lemma_done_finish(
                                        graph,
                                        ns,
                                        index_map@,
                                        lowlink@,
                                        stack@,
                                        on_stack@,
                                        path,
                                        rems,
                                    );
                                    assert(path.drop_last().push(path.last()) =~= path);
                                    rems = rems.drop_last();
                                    assert forall|j: int| 0 <= j < path.len() - 1 implies frame_rem(#[trigger] work@[j]) == rems[j] by {
                                        assert(work@[j] == work0[j]);
                                        assert(frame_rem(work0[j]) == rems_prefix[j]);
                                    }
                                    let p2 = path.drop_last();
                                    assert(path[path.len() - 2] == p2.last());
                                    assert(succ(graph, ns, path[path.len() - 2], path[path.len() - 1]));
                                    assert(index_map@[path[path.len() - 2].0] < index_map@[path[path.len() - 1].0]);
                                    path = path.drop_last();
                                    top = Top::Returned(node);
                                }
                            }
                        },
                    }
                },
            }
        }
        proof {
            assert(top == Top::Idle) by {
                match top {
                    Top::Fresh(_) => {},
                    Top::Open => {},
                    Top::Returned(_) => {},
                    Top::Idle => {},
                }
            }
            lemma_tj_facts(
                graph,
                ns,
                node_ids,
                index_map@,
                lowlink@,
                index_counter as nat,
                stack@,
                on_stack@,
                path,
                sccs,
            );
        }
        t = t + 1;
    }
    proof {
        lemma_tj_facts(
            graph,
            ns,
            node_ids,
            index_map@,
            lowlink@,
            index_counter as nat,
            stack@,
            on_stack@,
            path,
            sccs,
        );
        assert(stack@ =~= Seq::<NodeId>::empty());
        assert(on_stack@ =~= Set::<u64>::empty());
        assert(path =~= Seq::<NodeId>::empty());
        lemma_tj_final(graph, ns, node_ids, index_map@, lowlink@, index_counter as nat, sccs);
        lemma_order_maximal(graph, ns, sccs);
    }
    Ok(result)
}

} // verus!
