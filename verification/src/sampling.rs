//! GraphSAGE-style neighbour sampling: grow a computation subgraph outward
//! from target nodes, keeping at most a fixed number of neighbours of each
//! frontier node per layer, and lay the sampled edges out as a symmetric CSR.

use std::collections::HashMap;

use rand::rngs::ThreadRng;
use rand::seq::SliceRandom;

use vstd::prelude::*;

use crate::error::AstraeaError;
use crate::traversal::{neighbor_entry, neighbors, EdgeLink, EdgeSource};
use crate::types::{Direction, EdgeId, NodeId};

verus! {

broadcast use vstd::std_specs::hash::group_hash_axioms;

/// `rand::rngs::ThreadRng`, the thread-local random generator, carried opaquely.
#[verifier::external_type_specification]
#[verifier::external_body]
pub struct ExThreadRng(ThreadRng);

/// `pick` lists the positions `0..n`, each once, in some order.
pub open spec fn is_permutation(pick: Seq<int>, n: nat) -> bool {
    &&& pick.len() == n
    &&& forall|k: int| 0 <= k < n ==> 0 <= #[trigger] pick[k] < n
    &&& forall|a: int, b: int| 0 <= a < b < n ==> #[trigger] pick[a] != #[trigger] pick[b]
}

/// `SliceRandom::shuffle` of `rand`: reorders `v` at random by swapping its
/// elements among themselves, so the result is a permutation of the input.
/// Which permutation comes out is left open.
#[verifier::external_body]
fn shuffle(v: &mut Vec<usize>, rng: &mut ThreadRng)
    ensures
        exists|pick: Seq<int>|
            #[trigger] is_permutation(pick, old(v)@.len()) && final(v)@ == Seq::new(
                old(v)@.len(),
                |k: int| old(v)@[pick[k]],
            ),
{
    v.shuffle(rng);
}

/// The neighbour entries of `node` that a read of its edges in both
/// directions gives, in order.
pub open spec fn both_neighbors<G: EdgeSource>(g: &G, node: NodeId) -> Seq<(EdgeId, NodeId)> {
    g.edges_of(node, Direction::Both).map_values(|e: EdgeLink| neighbor_entry(e, node))
}

/// The first `fan` entries of `pick` are distinct positions below `n`.
pub open spec fn picks_sample(pick: Seq<int>, n: nat, fan: nat) -> bool {
    &&& fan <= pick.len()
    &&& forall|k: int| 0 <= k < fan ==> 0 <= #[trigger] pick[k] < n
    &&& forall|a: int, b: int| 0 <= a < b < fan ==> #[trigger] pick[a] != #[trigger] pick[b]
}

/// What is kept of the neighbour list `list` with room for `fan`: all of it
/// when it fits; otherwise the entries at the first `fan` positions that
/// `pick` names (the first `fan` entries when `pick` names no such sample).
pub open spec fn sample_of(list: Seq<(EdgeId, NodeId)>, fan: nat, pick: Seq<int>) -> Seq<
    (EdgeId, NodeId),
> {
    if list.len() <= fan {
        list
    } else if picks_sample(pick, list.len(), fan) {
        Seq::new(fan, |k: int| list[pick[k]])
    } else {
        list.take(fan as int)
    }
}

/// The state of a sampling run.
pub struct Sampling {
    /// Every node found so far, each once, the targets first.
    pub found: Seq<NodeId>,
    /// The sampled edges in order: (node sampled from, neighbour, edge).
    pub edges: Seq<(NodeId, NodeId, EdgeId)>,
    /// The nodes first found in the current layer, in order.
    pub next: Seq<NodeId>,
}

/// Record the sampled neighbours `s` of `node` in order: each edge, and
/// each neighbour not found before.
pub open spec fn add_sampled(st: Sampling, node: NodeId, s: Seq<(EdgeId, NodeId)>) -> Sampling
    decreases s.len(),
{
    if s.len() == 0 {
        st
    } else {
        let prev = add_sampled(st, node, s.drop_last());
        let nb = s.last().1;
        let edges = prev.edges.push((node, nb, s.last().0));
        if prev.found.contains(nb) {
            Sampling { found: prev.found, edges, next: prev.next }
        } else {
            Sampling { found: prev.found.push(nb), edges, next: prev.next.push(nb) }
        }
    }
}

/// One layer: sample the neighbours of each frontier node in turn, the
/// last one with the last of `picks`, and so on back.
pub open spec fn sample_layer<G: EdgeSource>(
    g: &G,
    st: Sampling,
    frontier: Seq<NodeId>,
    fan: nat,
    picks: Seq<Seq<int>>,
) -> Sampling
    decreases frontier.len(),
{
    if frontier.len() == 0 {
        st
    } else {
        let node = frontier.last();
        add_sampled(
            sample_layer(g, st, frontier.drop_last(), fan, picks.drop_last()),
            node,
            sample_of(both_neighbors(g, node), fan, picks.last()),
        )
    }
}

/// `s` with each element kept at its first occurrence only.
pub open spec fn first_occurrences(s: Seq<NodeId>) -> Seq<NodeId>
    decreases s.len(),
{
    if s.len() == 0 {
        s
    } else {
        let prev = first_occurrences(s.drop_last());
        if prev.contains(s.last()) {
            prev
        } else {
            prev.push(s.last())
        }
    }
}

/// The run over the layers of `fanout`, the last layer with the last of
/// `picks`, and so on back. Its `next` is the frontier the run ends with:
/// the targets themselves before any layer.
pub open spec fn sample_layers<G: EdgeSource>(
    g: &G,
    targets: Seq<NodeId>,
    fanout: Seq<usize>,
    picks: Seq<Seq<Seq<int>>>,
) -> Sampling
    decreases fanout.len(),
{
    if fanout.len() == 0 {
        Sampling { found: first_occurrences(targets), edges: Seq::empty(), next: targets }
    } else {
        let prev = sample_layers(g, targets, fanout.drop_last(), picks.drop_last());
        sample_layer(
            g,
            Sampling { found: prev.found, edges: prev.edges, next: Seq::empty() },
            prev.next,
            fanout.last() as nat,
            picks.last(),
        )
    }
}

/// The sampled edge `t` joins `x` and `y`, one way round or the other.
pub open spec fn joins(t: (NodeId, NodeId, EdgeId), x: NodeId, y: NodeId) -> bool {
    (t.0 == x && t.1 == y) || (t.0 == y && t.1 == x)
}

/// The first of the sampled `edges` that joins `x` and `y`, if any.
pub open spec fn first_join(edges: Seq<(NodeId, NodeId, EdgeId)>, x: NodeId, y: NodeId) -> Option<
    EdgeId,
>
    decreases edges.len(),
{
    if edges.len() == 0 {
        None
    } else {
        match first_join(edges.drop_last(), x, y) {
            Some(e) => Some(e),
            None => if joins(edges.last(), x, y) {
                Some(edges.last().2)
            } else {
                None
            },
        }
    }
}

/// Row `i` of the CSR lists, columns strictly ascending, exactly the
/// positions of the nodes that a sampled edge joins to `found[i]`, each with
/// the first such edge.
pub open spec fn row_holds(
    found: Seq<NodeId>,
    edges: Seq<(NodeId, NodeId, EdgeId)>,
    row_ptr: Seq<usize>,
    col: Seq<usize>,
    eids: Seq<EdgeId>,
    i: int,
) -> bool {
    let lo = row_ptr[i] as int;
    let hi = row_ptr[i + 1] as int;
    &&& lo <= hi <= col.len()
    &&& forall|p: int|
        lo <= p < hi ==> (#[trigger] col[p]) < found.len() && first_join(
            edges,
            found[i],
            found[col[p] as int],
        ) == Some(eids[p])
    &&& forall|p: int, q: int| lo <= p < q < hi ==> #[trigger] col[p] < #[trigger] col[q]
    &&& forall|c: int|
        0 <= c < found.len() && (#[trigger] first_join(edges, found[i], found[c])) is Some
            ==> exists|p: int| lo <= p < hi && col[p] == c
}

/// `row_ptr`, `col`, `eids` lay out the adjacency of `found` under the
/// sampled `edges`, both directions, row by row.
pub open spec fn sampled_csr(
    found: Seq<NodeId>,
    edges: Seq<(NodeId, NodeId, EdgeId)>,
    row_ptr: Seq<usize>,
    col: Seq<usize>,
    eids: Seq<EdgeId>,
) -> bool {
    &&& row_ptr.len() == found.len() + 1
    &&& row_ptr[0] == 0
    &&& row_ptr[found.len() as int] == col.len()
    &&& eids.len() == col.len()
    &&& forall|i: int| 0 <= i < found.len() ==> #[trigger] row_holds(found, edges, row_ptr, col, eids, i)
}

/// A sampled computation subgraph for mini-batch training.
#[derive(Debug, Clone)]
pub struct SampledSubgraph {
    /// All node IDs involved: the targets first, then the sampled neighbours.
    pub node_ids: Vec<NodeId>,
    /// CSR row offsets over `node_ids`.
    pub row_ptr: Vec<usize>,
    /// CSR column of each entry: a position in `node_ids`.
    pub col_idx: Vec<usize>,
    /// The sampled edge behind each entry.
    pub edge_ids: Vec<EdgeId>,
    /// Positions of the target nodes within `node_ids`.
    pub target_indices: Vec<usize>,
}

/// `sub` is what the run over `fanout` from `targets`, with the random
/// choices `picks`, produces.
pub open spec fn sampled_by<G: EdgeSource>(
    g: &G,
    targets: Seq<NodeId>,
    fanout: Seq<usize>,
    picks: Seq<Seq<Seq<int>>>,
    sub: SampledSubgraph,
) -> bool {
    let st = sample_layers(g, targets, fanout, picks);
    &&& sub.node_ids@ == st.found
    &&& sampled_csr(st.found, st.edges, sub.row_ptr@, sub.col_idx@, sub.edge_ids@)
}

/// `index` maps the id of each node of `found`, which holds no node twice,
/// to its position.
spec fn indexed(found: Seq<NodeId>, index: Map<u64, usize>) -> bool {
    &&& found.no_duplicates()
    &&& forall|p: int|
        #![trigger found[p]]
        0 <= p < found.len() ==> index.contains_key(found[p].0) && index[found[p].0] == p
    &&& forall|k: u64|
        #[trigger] index.contains_key(k) ==> index[k] < found.len() && found[index[k] as int].0 == k
}

/// The position triples `ex` stand for the sampled edges `es` over `found`.
spec fn placed(
    found: Seq<NodeId>,
    ex: Seq<(usize, usize, EdgeId)>,
    es: Seq<(NodeId, NodeId, EdgeId)>,
) -> bool {
    &&& ex.len() == es.len()
    &&& forall|k: int|
        0 <= k < ex.len() ==> {
            &&& (#[trigger] ex[k]).0 < found.len()
            &&& ex[k].1 < found.len()
            &&& found[ex[k].0 as int] == es[k].0
            &&& found[ex[k].1 as int] == es[k].1
            &&& ex[k].2 == es[k].2
        }
}

proof fn lemma_indexed_lookup(found: Seq<NodeId>, index: Map<u64, usize>, x: NodeId)
    requires
        indexed(found, index),
    ensures
        index.contains_key(x.0) <==> found.contains(x),
        index.contains_key(x.0) ==> found[index[x.0] as int] == x,
{
    if index.contains_key(x.0) {
        assert(found[index[x.0] as int] == x);
    }
    if found.contains(x) {
        let p = choose|p: int| 0 <= p < found.len() && found[p] == x;
        assert(index.contains_key(found[p].0));
    }
}

proof fn lemma_indexed_push(found: Seq<NodeId>, index: Map<u64, usize>, x: NodeId)
    requires
        indexed(found, index),
        !found.contains(x),
        found.len() <= usize::MAX,
    ensures
        indexed(found.push(x), index.insert(x.0, found.len() as usize)),
{
    let f2 = found.push(x);
    let i2 = index.insert(x.0, found.len() as usize);
    assert forall|p: int| 0 <= p < found.len() implies found[p] != x by {
        if found[p] == x {
            assert(found.contains(x));
        }
    }
    assert forall|p: int| #![trigger f2[p]] 0 <= p < f2.len() implies i2.contains_key(f2[p].0)
        && i2[f2[p].0] == p by {
        if p < found.len() {
            assert(f2[p] == found[p]);
            if found[p].0 == x.0 {
                assert(found[p] == x);
            }
        }
    }
    assert forall|k: u64| #[trigger] i2.contains_key(k) implies i2[k] < f2.len() && f2[i2[k] as int].0
        == k by {
        if k != x.0 {
            assert(index.contains_key(k));
        }
    }
}

/// Keep what fits of `list` with room for `fan`: all of it, or `fan`
/// entries at random distinct positions.
fn choose_sample(list: Vec<(EdgeId, NodeId)>, fan: usize, rng: &mut ThreadRng) -> (r: Vec<
    (EdgeId, NodeId),
>)
    ensures
        exists|pick: Seq<int>| r@ == #[trigger] sample_of(list@, fan as nat, pick),
{
    let n = list.len();
    if n <= fan {
        assert(list@ == sample_of(list@, fan as nat, Seq::empty()));
        return list;
    }
    let mut idx: Vec<usize> = Vec::new();
    let mut i: usize = 0;
    while i < n
        invariant
            i <= n,
            idx@ == Seq::new(i as nat, |k: int| k as usize),
        decreases n - i,
    {
        idx.push(i);
        i = i + 1;
        assert(idx@ == Seq::new(i as nat, |k: int| k as usize));
    }
    let ghost before = idx@;
    shuffle(&mut idx, rng);
    let ghost perm = choose|pick: Seq<int>|
        is_permutation(pick, before.len()) && idx@ == Seq::new(
            before.len(),
            |k: int| before[pick[k]],
        );
    let ghost pk = idx@.map_values(|x: usize| x as int);
    assert forall|k: int| 0 <= k < n implies #[trigger] pk[k] == perm[k] && idx@[k] < n by {
        assert(idx@[k] == before[perm[k]]);
    }
    assert(picks_sample(pk, n as nat, fan as nat)) by {
        assert forall|a: int, b: int| 0 <= a < b < fan implies #[trigger] pk[a] != #[trigger] pk[b] by {
            assert(pk[a] == perm[a] && pk[b] == perm[b]);
        }
    }
    let mut out: Vec<(EdgeId, NodeId)> = Vec::new();
    let mut t: usize = 0;
    while t < fan
        invariant
            t <= fan < n,
            n == list@.len(),
            idx@.len() == n,
            pk == idx@.map_values(|x: usize| x as int),
            forall|k: int| 0 <= k < n ==> #[trigger] idx@[k] < n,
            out@ == Seq::new(t as nat, |k: int| list@[pk[k]]),
        decreases fan - t,
    {
        let x = idx[t];
        out.push(list[x]);
        t = t + 1;
        assert(out@ == Seq::new(t as nat, |k: int| list@[pk[k]]));
    }
    assert(out@ == sample_of(list@, fan as nat, pk));
    out
}

/// The sampling run itself: the nodes found, and the sampled edges as
/// position triples over them.
fn sample_nodes<G: EdgeSource>(
    graph: &G,
    target_nodes: &[NodeId],
    fanout: &[usize],
    rng: &mut ThreadRng,
) -> (r: Result<(Vec<NodeId>, Vec<(usize, usize, EdgeId)>), AstraeaError>)
    ensures
        r matches Ok((found, ex)) ==> found@.no_duplicates() && exists|picks: Seq<Seq<Seq<int>>>|
            {
                let st = #[trigger] sample_layers(graph, target_nodes@, fanout@, picks);
                &&& st.found == found@
                &&& placed(found@, ex@, st.edges)
            },
        graph.never_fails() ==> r is Ok,
{
    let n_targets = target_nodes.len();
    let mut all_nodes: Vec<NodeId> = Vec::new();
    let mut index: HashMap<u64, usize> = HashMap::new();
    let mut t: usize = 0;
    while t < n_targets
        invariant
            n_targets == target_nodes@.len(),
            t <= n_targets,
            all_nodes@ == first_occurrences(target_nodes@.take(t as int)),
            all_nodes@.len() <= t,
            indexed(all_nodes@, index@),
            forall|q: int| 0 <= q < t ==> all_nodes@.contains(#[trigger] target_nodes@[q]),
        decreases n_targets - t,
    {
        let nid = target_nodes[t];
        proof {
            lemma_indexed_lookup(all_nodes@, index@, nid);
            assert(target_nodes@.take(t + 1).drop_last() == target_nodes@.take(t as int));
        }
        let ghost found0 = all_nodes@;
        if !index.contains_key(&nid.0) {
            proof {
                lemma_indexed_push(all_nodes@, index@, nid);
            }
            index.insert(nid.0, all_nodes.len());
            all_nodes.push(nid);
        }
        t = t + 1;
        proof {
            assert forall|q: int| 0 <= q < t implies all_nodes@.contains(#[trigger] target_nodes@[q]) by {
                if q == t - 1 {
                    lemma_indexed_lookup(all_nodes@, index@, nid);
                } else {
                    let w = choose|w: int| 0 <= w < found0.len() && found0[w] == target_nodes@[q];
                    assert(all_nodes@[w] == target_nodes@[q]);
                }
            }
        }
    }
    assert(target_nodes@.take(n_targets as int) == target_nodes@);
    let mut edges: Vec<(usize, usize, EdgeId)> = Vec::new();
    let mut frontier: Vec<NodeId> = vstd::slice::slice_to_vec(target_nodes);
    let ghost mut picks: Seq<Seq<Seq<int>>> = Seq::empty();
    let ghost mut st: Sampling = sample_layers(graph, target_nodes@, fanout@.take(0), picks);
    let mut l: usize = 0;
    while l < fanout.len()
        invariant
            n_targets == target_nodes@.len(),
            l <= fanout@.len(),
            picks.len() == l,
            st == sample_layers(graph, target_nodes@, fanout@.take(l as int), picks),
            st.found == all_nodes@,
            st.next == frontier@,
            placed(all_nodes@, edges@, st.edges),
            indexed(all_nodes@, index@),
            forall|q: int| 0 <= q < frontier@.len() ==> all_nodes@.contains(#[trigger] frontier@[q]),
        decreases fanout@.len() - l,
    {
        let fan = fanout[l];
        let mut next_frontier: Vec<NodeId> = Vec::new();
        let ghost st0 = Sampling { found: st.found, edges: st.edges, next: Seq::empty() };
        let ghost mut layer_picks: Seq<Seq<int>> = Seq::empty();
        let ghost mut cur = st0;
        let mut k: usize = 0;
        while k < frontier.len()
            invariant
                k <= frontier@.len(),
                layer_picks.len() == k,
                cur == sample_layer(graph, st0, frontier@.take(k as int), fan as nat, layer_picks),
                cur.found == all_nodes@,
                cur.next == next_frontier@,
                placed(all_nodes@, edges@, cur.edges),
                indexed(all_nodes@, index@),
                forall|q: int| 0 <= q < frontier@.len() ==> all_nodes@.contains(#[trigger] frontier@[q]),
                forall|q: int|
                    0 <= q < next_frontier@.len() ==> all_nodes@.contains(#[trigger] next_frontier@[q]),
            decreases frontier@.len() - k,
        {
            let node = frontier[k];
            let nbrs = match neighbors(graph, node, Direction::Both) {
                Ok(v) => v,
                Err(err) => {
                    return Err(err);
                },
            };
            let ghost list = nbrs@;
            let sampled = choose_sample(nbrs, fan, rng);
            let ghost pick = choose|pick: Seq<int>| sampled@ == sample_of(list, fan as nat, pick);
            proof {
                lemma_indexed_lookup(all_nodes@, index@, node);
            }
            let node_pos: usize = match index.get(&node.0) {
                Some(p) => *p,
                None => 0,
            };
            let ghost before = cur;
            let ghost s = sampled@;
            let mut j: usize = 0;
            while j < sampled.len()
                invariant
                    j <= s.len(),
                    s == sampled@,
                    cur == add_sampled(before, node, s.take(j as int)),
                    cur.found == all_nodes@,
                    cur.next == next_frontier@,
                    placed(all_nodes@, edges@, cur.edges),
                    indexed(all_nodes@, index@),
                    node_pos < all_nodes@.len(),
                    all_nodes@[node_pos as int] == node,
                    forall|q: int|
                        0 <= q < frontier@.len() ==> all_nodes@.contains(#[trigger] frontier@[q]),
                    forall|q: int|
                        0 <= q < next_frontier@.len() ==> all_nodes@.contains(
                            #[trigger] next_frontier@[q],
                        ),
                decreases s.len() - j,
            {
                let (e, nb) = sampled[j];
                proof {
                    lemma_indexed_lookup(all_nodes@, index@, nb);
                    assert(s.take(j + 1).drop_last() == s.take(j as int));
                }
                let ghost found0 = all_nodes@;
                let ghost next0 = next_frontier@;
                match index.get(&nb.0) {
                    Some(p) => {
                        edges.push((node_pos, *p, e));
                    },
                    None => {
                        let p = all_nodes.len();
                        proof {
                            lemma_indexed_push(all_nodes@, index@, nb);
                        }
                        index.insert(nb.0, p);
                        all_nodes.push(nb);
                        next_frontier.push(nb);
                        edges.push((node_pos, p, e));
                    },
                }
                proof {
                    cur = add_sampled(before, node, s.take(j + 1));
                    assert forall|q: int| 0 <= q < frontier@.len() implies all_nodes@.contains(
                        #[trigger] frontier@[q],
                    ) by {
                        let w = choose|w: int| 0 <= w < found0.len() && found0[w] == frontier@[q];
                        assert(all_nodes@[w] == frontier@[q]);
                    }
                    assert forall|q: int| 0 <= q < next_frontier@.len() implies all_nodes@.contains(
                        #[trigger] next_frontier@[q],
                    ) by {
                        if q < next0.len() {
                            let w = choose|w: int| 0 <= w < found0.len() && found0[w] == next0[q];
                            assert(all_nodes@[w] == next_frontier@[q]);
                        } else {
                            assert(all_nodes@[found0.len() as int] == next_frontier@[q]);
                        }
                    }
                }
                j = j + 1;
            }
            proof {
                assert(s.take(s.len() as int) == s);
                assert(list == both_neighbors(graph, node));
                let lp2 = layer_picks.push(pick);
                assert(frontier@.take(k + 1).drop_last() == frontier@.take(k as int));
                assert(lp2.drop_last() == layer_picks);
                assert(frontier@.take(k + 1).last() == node);
                layer_picks = lp2;
            }
            k = k + 1;
        }
        proof {
            assert(frontier@.take(frontier@.len() as int) == frontier@);
            let p2 = picks.push(layer_picks);
            assert(fanout@.take(l + 1).drop_last() == fanout@.take(l as int));
            assert(p2.drop_last() == picks);
            picks = p2;
            st = cur;
        }
        frontier = next_frontier;
        l = l + 1;
    }
    assert(fanout@.take(fanout@.len() as int) == fanout@);
    Ok((all_nodes, edges))
}

/// The columns of `row` strictly ascend.
spec fn sorted_cols(row: Seq<(usize, EdgeId)>) -> bool {
    forall|a: int, b: int| #![trigger row[a], row[b]] 0 <= a < b < row.len() ==> row[a].0 < row[b].0
}

/// `row` has an entry in column `c`.
spec fn has_col(row: Seq<(usize, EdgeId)>, c: int) -> bool {
    exists|p: int| 0 <= p < row.len() && (#[trigger] row[p]).0 == c
}

/// `row` is row `r` of the adjacency of `found` under the sampled `es`.
spec fn row_matches(
    row: Seq<(usize, EdgeId)>,
    found: Seq<NodeId>,
    es: Seq<(NodeId, NodeId, EdgeId)>,
    r: int,
) -> bool {
    &&& sorted_cols(row)
    &&& forall|p: int|
        0 <= p < row.len() ==> (#[trigger] row[p]).0 < found.len() && first_join(
            es,
            found[r],
            found[row[p].0 as int],
        ) == Some(row[p].1)
    &&& forall|c: int|
        0 <= c < found.len() && (#[trigger] first_join(es, found[r], found[c])) is Some
            ==> has_col(row, c)
}

proof fn lemma_first_join_push(
    es: Seq<(NodeId, NodeId, EdgeId)>,
    t: (NodeId, NodeId, EdgeId),
    x: NodeId,
    y: NodeId,
)
    ensures
        first_join(es.push(t), x, y) == if first_join(es, x, y) is Some {
            first_join(es, x, y)
        } else if joins(t, x, y) {
            Some(t.2)
        } else {
            None
        },
{
    assert(es.push(t).drop_last() == es);
}

/// A sampled edge at positions `a`, `b` joins the nodes at positions `r`,
/// `c` exactly when it connects those positions.
proof fn lemma_joins_positions(
    found: Seq<NodeId>,
    t: (NodeId, NodeId, EdgeId),
    a: int,
    b: int,
    r: int,
    c: int,
)
    requires
        found.no_duplicates(),
        0 <= a < found.len(),
        0 <= b < found.len(),
        0 <= r < found.len(),
        0 <= c < found.len(),
        found[a] == t.0,
        found[b] == t.1,
    ensures
        joins(t, found[r], found[c]) <==> ((a == r && b == c) || (a == c && b == r)),
{
}

/// A row that no entry of the new edge `t` touches stays right.
proof fn lemma_row_untouched(
    row: Seq<(usize, EdgeId)>,
    found: Seq<NodeId>,
    es: Seq<(NodeId, NodeId, EdgeId)>,
    t: (NodeId, NodeId, EdgeId),
    r: int,
)
    requires
        row_matches(row, found, es, r),
        forall|c: int| 0 <= c < found.len() ==> !joins(t, found[r], #[trigger] found[c]),
    ensures
        row_matches(row, found, es.push(t), r),
{
    assert forall|p: int| 0 <= p < row.len() implies (#[trigger] row[p]).0 < found.len() && first_join(
        es.push(t),
        found[r],
        found[row[p].0 as int],
    ) == Some(row[p].1) by {
        lemma_first_join_push(es, t, found[r], found[row[p].0 as int]);
    }
    assert forall|c: int|
        0 <= c < found.len() && (#[trigger] first_join(es.push(t), found[r], found[c])) is Some
            implies has_col(row, c) by {
        lemma_first_join_push(es, t, found[r], found[c]);
    }
}

/// Inserting column `c` with the new edge's id keeps row `r` right when the
/// new edge joins `found[r]` to `found[c]` only.
proof fn lemma_row_inserted(
    old_row: Seq<(usize, EdgeId)>,
    row: Seq<(usize, EdgeId)>,
    found: Seq<NodeId>,
    es: Seq<(NodeId, NodeId, EdgeId)>,
    t: (NodeId, NodeId, EdgeId),
    r: int,
    c: usize,
)
    requires
        row_matches(old_row, found, es, r),
        0 <= r < found.len(),
        c < found.len(),
        forall|c2: int| 0 <= c2 < found.len() ==> (joins(t, found[r], #[trigger] found[c2]) <==> c2 == c),
        sorted_cols(row),
        has_col(row, c as int),
        has_col(old_row, c as int) ==> row == old_row,
        forall|p: int| 0 <= p < row.len() ==> #[trigger] row[p] == (c, t.2) || old_row.contains(row[p]),
        forall|p: int| 0 <= p < old_row.len() ==> row.contains(#[trigger] old_row[p]),
    ensures
        row_matches(row, found, es.push(t), r),
{
    assert forall|p: int| 0 <= p < row.len() implies (#[trigger] row[p]).0 < found.len() && first_join(
        es.push(t),
        found[r],
        found[row[p].0 as int],
    ) == Some(row[p].1) by {
        if row[p] == (c, t.2) && !old_row.contains(row[p]) {
            lemma_first_join_push(es, t, found[r], found[c as int]);
            if first_join(es, found[r], found[c as int]) is Some {
                assert(has_col(old_row, c as int));
                assert(row == old_row);
            }
        } else {
            let q = choose|q: int| 0 <= q < old_row.len() && old_row[q] == row[p];
            assert(old_row[q] == row[p]);
            lemma_first_join_push(es, t, found[r], found[row[p].0 as int]);
        }
    }
    assert forall|c2: int|
        0 <= c2 < found.len() && (#[trigger] first_join(es.push(t), found[r], found[c2])) is Some
            implies has_col(row, c2) by {
        lemma_first_join_push(es, t, found[r], found[c2]);
        if first_join(es, found[r], found[c2]) is Some {
            assert(has_col(old_row, c2));
            let q = choose|q: int| 0 <= q < old_row.len() && (#[trigger] old_row[q]).0 == c2;
            assert(row.contains(old_row[q]));
            let w = choose|w: int| 0 <= w < row.len() && row[w] == old_row[q];
            assert(row[w].0 == c2);
        }
    }
}

/// Put column `c` with edge `e` into the sorted `row`, unless the row
/// already has that column.
fn insert_entry(row: &mut Vec<(usize, EdgeId)>, c: usize, e: EdgeId)
    requires
        sorted_cols(old(row)@),
    ensures
        sorted_cols(final(row)@),
        has_col(final(row)@, c as int),
        has_col(old(row)@, c as int) ==> final(row)@ == old(row)@,
        forall|p: int|
            0 <= p < final(row)@.len() ==> #[trigger] final(row)@[p] == (c, e) || old(row)@.contains(
                final(row)@[p],
            ),
        forall|p: int| 0 <= p < old(row)@.len() ==> final(row)@.contains(#[trigger] old(row)@[p]),
{
    let mut p: usize = 0;
    while p < row.len() && row[p].0 < c
        invariant
            p <= row@.len(),
            row@ == old(row)@,
            forall|q: int| 0 <= q < p ==> (#[trigger] row@[q]).0 < c,
        decreases row@.len() - p,
    {
        p = p + 1;
    }
    if p < row.len() && row[p].0 == c {
        assert(has_col(row@, c as int)) by {
            assert(row@[p as int].0 == c);
        }
        return;
    }
    let ghost old_row = row@;
    assert(!has_col(old_row, c as int)) by {
        if has_col(old_row, c as int) {
            let q = choose|q: int| 0 <= q < old_row.len() && (#[trigger] old_row[q]).0 == c;
            if q > p {
                assert(old_row[p as int].0 < old_row[q].0);
            }
        }
    }
    row.insert(p, (c, e));
    proof {
        let nr = row@;
        assert(nr == old_row.insert(p as int, (c, e)));
        assert forall|q: int| p <= q < old_row.len() implies c < (#[trigger] old_row[q]).0 by {
            if q > p {
                assert(old_row[p as int].0 < old_row[q].0);
            }
        }
        assert forall|a: int, b: int| #![trigger nr[a], nr[b]] 0 <= a < b < nr.len() implies nr[a].0
            < nr[b].0 by {
            if b < p {
                assert(nr[a] == old_row[a] && nr[b] == old_row[b]);
            } else if b == p {
                assert(nr[a] == old_row[a]);
            } else if a < p {
                assert(nr[a] == old_row[a] && nr[b] == old_row[b - 1]);
            } else if a == p {
                assert(nr[b] == old_row[b - 1]);
            } else {
                assert(nr[a] == old_row[a - 1] && nr[b] == old_row[b - 1]);
            }
        }
        assert(nr[p as int] == (c, e));
        assert forall|q: int| 0 <= q < nr.len() implies #[trigger] nr[q] == (c, e) || old_row.contains(
            nr[q],
        ) by {
            if q < p {
                assert(nr[q] == old_row[q]);
            } else if q > p {
                assert(nr[q] == old_row[q - 1]);
            }
        }
        assert forall|q: int| 0 <= q < old_row.len() implies nr.contains(#[trigger] old_row[q]) by {
            if q < p {
                assert(nr[q] == old_row[q]);
            } else {
                assert(nr[q + 1] == old_row[q]);
            }
        }
    }
}

/// The rows of the adjacency of `found` under the sampled edges, given as
/// position triples `ex`.
fn adjacency_rows(
    n: usize,
    ex: &Vec<(usize, usize, EdgeId)>,
    Ghost(found): Ghost<Seq<NodeId>>,
    Ghost(es): Ghost<Seq<(NodeId, NodeId, EdgeId)>>,
) -> (rows: Vec<Vec<(usize, EdgeId)>>)
    requires
        n == found.len(),
        found.no_duplicates(),
        placed(found, ex@, es),
    ensures
        rows@.len() == n,
        forall|r: int| 0 <= r < n ==> row_matches(#[trigger] rows@[r]@, found, es, r),
{
    let mut rows: Vec<Vec<(usize, EdgeId)>> = Vec::new();
    let mut r: usize = 0;
    while r < n
        invariant
            r <= n,
            n == found.len(),
            rows@.len() == r,
            forall|q: int| 0 <= q < r ==> row_matches(#[trigger] rows@[q]@, found, es.take(0), q),
        decreases n - r,
    {
        let empty: Vec<(usize, EdgeId)> = Vec::new();
        proof {
            assert forall|c: int|
                0 <= c < found.len() && (#[trigger] first_join(es.take(0), found[r as int], found[c]))
                    is Some implies has_col(empty@, c) by {
                assert(es.take(0).len() == 0);
            }
        }
        rows.push(empty);
        r = r + 1;
    }
    let mut k: usize = 0;
    while k < ex.len()
        invariant
            k <= ex@.len(),
            n == found.len(),
            found.no_duplicates(),
            placed(found, ex@, es),
            rows@.len() == n,
            forall|q: int| 0 <= q < n ==> row_matches(#[trigger] rows@[q]@, found, es.take(k as int), q),
        decreases ex@.len() - k,
    {
        let (i, j, e) = ex[k];
        let ghost t = es[k as int];
        let ghost ek = es.take(k as int);
        let ghost rows0 = rows@;
        proof {
            assert(es.take(k + 1) == ek.push(t));
            assert(ex@[k as int] == (i, j, e));
            assert forall|r2: int, c2: int| 0 <= r2 < n && 0 <= c2 < n implies (#[trigger] joins(
                t,
                found[r2],
                found[c2],
            ) <==> ((i == r2 && j == c2) || (i == c2 && j == r2))) by {
                lemma_joins_positions(found, t, i as int, j as int, r2, c2);
            }
        }
        insert_entry(&mut rows[i], j, e);
        let ghost rows1 = rows@;
        proof {
            lemma_row_inserted(rows0[i as int]@, rows1[i as int]@, found, ek, t, i as int, j);
        }
        insert_entry(&mut rows[j], i, e);
        proof {
            if i == j {
                assert(has_col(rows1[i as int]@, i as int));
                assert(rows@[j as int]@ == rows1[j as int]@);
            } else {
                assert(rows1[j as int] == rows0[j as int]);
                lemma_row_inserted(rows0[j as int]@, rows@[j as int]@, found, ek, t, j as int, i);
            }
            assert forall|q: int| 0 <= q < n implies row_matches(
                #[trigger] rows@[q]@,
                found,
                es.take(k + 1),
                q,
            ) by {
                if q != i && q != j {
                    assert(rows@[q] == rows0[q]);
                    lemma_row_untouched(rows0[q]@, found, ek, t, q);
                }
            }
        }
        k = k + 1;
    }
    assert(es.take(ex@.len() as int) == es);
    rows
}

/// Entries `row_ptr[q]..row_ptr[q + 1]` of `col` and `eids` hold `row`.
spec fn laid(
    row: Seq<(usize, EdgeId)>,
    row_ptr: Seq<usize>,
    col: Seq<usize>,
    eids: Seq<EdgeId>,
    q: int,
) -> bool {
    &&& row_ptr[q] + row.len() == row_ptr[q + 1]
    &&& row_ptr[q + 1] <= col.len()
    &&& row_ptr[q + 1] <= eids.len()
    &&& forall|p: int|
        0 <= p < row.len() ==> col[row_ptr[q] + p] == (#[trigger] row[p]).0 && eids[row_ptr[q] + p]
            == row[p].1
}

proof fn lemma_row_holds(
    row: Seq<(usize, EdgeId)>,
    found: Seq<NodeId>,
    es: Seq<(NodeId, NodeId, EdgeId)>,
    row_ptr: Seq<usize>,
    col: Seq<usize>,
    eids: Seq<EdgeId>,
    i: int,
)
    requires
        row_matches(row, found, es, i),
        laid(row, row_ptr, col, eids, i),
    ensures
        row_holds(found, es, row_ptr, col, eids, i),
{
    let lo = row_ptr[i] as int;
    let hi = row_ptr[i + 1] as int;
    assert forall|p: int| lo <= p < hi implies (#[trigger] col[p]) < found.len() && first_join(
        es,
        found[i],
        found[col[p] as int],
    ) == Some(eids[p]) by {
        assert(row[p - lo].0 == col[lo + (p - lo)]);
    }
    assert forall|p: int, q: int| lo <= p < q < hi implies #[trigger] col[p] < #[trigger] col[q] by {
        assert(row[p - lo].0 == col[lo + (p - lo)]);
        assert(row[q - lo].0 == col[lo + (q - lo)]);
    }
    assert forall|c: int|
        0 <= c < found.len() && (#[trigger] first_join(es, found[i], found[c])) is Some implies exists|
        p: int,
    | lo <= p < hi && col[p] == c by {
        let w = choose|w: int| 0 <= w < row.len() && (#[trigger] row[w]).0 == c;
        assert(col[lo + w] == row[w].0);
    }
}

/// Lay the rows out one after another as CSR arrays.
fn lay_out(
    rows: &Vec<Vec<(usize, EdgeId)>>,
    Ghost(found): Ghost<Seq<NodeId>>,
    Ghost(es): Ghost<Seq<(NodeId, NodeId, EdgeId)>>,
) -> (r: (Vec<usize>, Vec<usize>, Vec<EdgeId>))
    requires
        rows@.len() == found.len(),
        forall|q: int| 0 <= q < found.len() ==> row_matches(#[trigger] rows@[q]@, found, es, q),
    ensures
        sampled_csr(found, es, r.0@, r.1@, r.2@),
{
    let n = rows.len();
    let mut row_ptr: Vec<usize> = Vec::new();
    let mut col: Vec<usize> = Vec::new();
    let mut eids: Vec<EdgeId> = Vec::new();
    row_ptr.push(0);
    let mut i: usize = 0;
    while i < n
        invariant
            n == rows@.len(),
            i <= n,
            row_ptr@.len() == i + 1,
            row_ptr@[0] == 0,
            row_ptr@[i as int] == col@.len(),
            eids@.len() == col@.len(),
            forall|q: int| 0 <= q < i ==> #[trigger] laid(rows@[q]@, row_ptr@, col@, eids@, q),
        decreases n - i,
    {
        let row = &rows[i];
        let ghost col0 = col@;
        let ghost eids0 = eids@;
        let ghost ptr0 = row_ptr@;
        let mut p: usize = 0;
        while p < row.len()
            invariant
                p <= row@.len(),
                col@.len() == col0.len() + p,
                eids@.len() == col@.len(),
                eids0.len() == col0.len(),
                forall|x: int| 0 <= x < col0.len() ==> #[trigger] col@[x] == col0[x],
                forall|x: int| 0 <= x < col0.len() ==> #[trigger] eids@[x] == eids0[x],
                forall|x: int|
                    0 <= x < p ==> col@[col0.len() + x] == (#[trigger] row@[x]).0 && eids@[col0.len()
                        + x] == row@[x].1,
            decreases row@.len() - p,
        {
            col.push(row[p].0);
            eids.push(row[p].1);
            p = p + 1;
        }
        row_ptr.push(col.len());
        proof {
            assert forall|q: int| 0 <= q <= i implies #[trigger] laid(
                rows@[q]@,
                row_ptr@,
                col@,
                eids@,
                q,
            ) by {
                if q < i {
                    assert(laid(rows@[q]@, ptr0, col0, eids0, q));
                    assert(row_ptr@[q] == ptr0[q] && row_ptr@[q + 1] == ptr0[q + 1]);
                    assert forall|x: int| 0 <= x < rows@[q]@.len() implies col@[row_ptr@[q] + x] == (
                    #[trigger] rows@[q]@[x]).0 && eids@[row_ptr@[q] + x] == rows@[q]@[x].1 by {
                        assert(col0[ptr0[q] + x] == rows@[q]@[x].0);
                    }
                }
            }
        }
        i = i + 1;
    }
    proof {
        assert forall|q: int| 0 <= q < n implies #[trigger] row_holds(
            found,
            es,
            row_ptr@,
            col@,
            eids@,
            q,
        ) by {
            assert(laid(rows@[q]@, row_ptr@, col@, eids@, q));
            lemma_row_holds(rows@[q]@, found, es, row_ptr@, col@, eids@, q);
        }
    }
    (row_ptr, col, eids)
}

/// Sample a k-hop neighbourhood around `target_nodes` with a fixed fanout
/// per layer: for each layer, each node of the frontier keeps all its
/// neighbours (edges in both directions) when there are at most
/// `fanout[layer]` of them, else that many picked at random; neighbours not
/// seen before join the subgraph and form the next frontier. The sampled
/// edges are laid out as a CSR over the subgraph's nodes, in both
/// directions, one entry per neighbouring pair with the first edge sampled
/// between them, columns ascending.
pub fn sample_subgraph<G: EdgeSource>(
    graph: &G,
    target_nodes: &[NodeId],
    fanout: &[usize],
    rng: &mut ThreadRng,
) -> (r: Result<SampledSubgraph, AstraeaError>)
    ensures
        r matches Ok(sub) ==> sub.target_indices@.len() == target_nodes@.len(),
        r matches Ok(sub) ==> forall|i: int|
            0 <= i < target_nodes@.len() ==> {
                &&& #[trigger] sub.target_indices@[i] < sub.node_ids@.len()
                &&& sub.node_ids@[sub.target_indices@[i] as int] == target_nodes@[i]
            },
        r matches Ok(sub) ==> exists|picks: Seq<Seq<Seq<int>>>|
            #[trigger] sampled_by(graph, target_nodes@, fanout@, picks, sub),
        graph.never_fails() ==> r is Ok,
{
    let (node_ids, ex) = match sample_nodes(graph, target_nodes, fanout, rng) {
        Ok(v) => v,
        Err(err) => {
            return Err(err);
        },
    };
    let ghost picks = choose|picks: Seq<Seq<Seq<int>>>|
        {
            let st = #[trigger] sample_layers(graph, target_nodes@, fanout@, picks);
            &&& st.found == node_ids@
            &&& placed(node_ids@, ex@, st.edges)
        };
    proof {
        lemma_sample_layers_grow(graph, target_nodes@, fanout@, picks);
        lemma_first_occurrences(target_nodes@);
        let fo = first_occurrences(target_nodes@);
        assert forall|i: int| 0 <= i < target_nodes@.len() implies node_ids@.contains(
            #[trigger] target_nodes@[i],
        ) by {
            assert(fo.contains(target_nodes@[i]));
            let w = choose|w: int| 0 <= w < fo.len() && fo[w] == target_nodes@[i];
            assert(node_ids@.take(fo.len() as int)[w] == node_ids@[w]);
        }
    }
    let target_indices = target_positions(&node_ids, target_nodes);
    let ghost st = sample_layers(graph, target_nodes@, fanout@, picks);
    let rows = adjacency_rows(node_ids.len(), &ex, Ghost(st.found), Ghost(st.edges));
    let (row_ptr, col_idx, edge_ids) = lay_out(&rows, Ghost(st.found), Ghost(st.edges));
    let sub = SampledSubgraph { node_ids, row_ptr, col_idx, edge_ids, target_indices };
    let result: Result<SampledSubgraph, AstraeaError> = Ok(sub);
    assert(result matches Ok(s) ==> sampled_by(graph, target_nodes@, fanout@, picks, s));
    result
}

/// The position in `found` of each target; every target is found.
fn target_positions(found: &Vec<NodeId>, targets: &[NodeId]) -> (r: Vec<usize>)
    requires
        forall|i: int| 0 <= i < targets@.len() ==> found@.contains(#[trigger] targets@[i]),
    ensures
        r@.len() == targets@.len(),
        forall|i: int|
            0 <= i < targets@.len() ==> {
                &&& #[trigger] r@[i] < found@.len()
                &&& found@[r@[i] as int] == targets@[i]
            },
{
    let mut out: Vec<usize> = Vec::new();
    let mut t: usize = 0;
    while t < targets.len()
        invariant
            t <= targets@.len(),
            out@.len() == t,
            forall|i: int| 0 <= i < targets@.len() ==> found@.contains(#[trigger] targets@[i]),
            forall|i: int|
                0 <= i < t ==> {
                    &&& #[trigger] out@[i] < found@.len()
                    &&& found@[out@[i] as int] == targets@[i]
                },
        decreases targets@.len() - t,
    {
        let want = targets[t];
        assert(found@.contains(targets@[t as int]));
        let mut p: usize = 0;
        while p < found.len() && found[p].0 != want.0
            invariant
                p <= found@.len(),
                want == targets@[t as int],
                found@.contains(want),
                forall|q: int| 0 <= q < p ==> found@[q] != want,
            decreases found@.len() - p,
        {
            p = p + 1;
        }
        if p == found.len() {
            assert(false);
        }
        out.push(p);
        t = t + 1;
    }
    out
}

/// Whether it joins `x` to `y` or `y` to `x`, the first sampled edge
/// between two nodes is the same.
proof fn lemma_first_join_symmetric(edges: Seq<(NodeId, NodeId, EdgeId)>, x: NodeId, y: NodeId)
    ensures
        first_join(edges, x, y) == first_join(edges, y, x),
    decreases edges.len(),
{
    if edges.len() > 0 {
        lemma_first_join_symmetric(edges.drop_last(), x, y);
    }
}

/// The sampled adjacency is symmetric: an entry for column `c` in row `i`
/// is matched by an entry for column `i` in row `c`, with the same edge.
pub proof fn lemma_sampled_adjacency_symmetric(
    found: Seq<NodeId>,
    edges: Seq<(NodeId, NodeId, EdgeId)>,
    row_ptr: Seq<usize>,
    col: Seq<usize>,
    eids: Seq<EdgeId>,
    i: int,
    p: int,
)
    requires
        sampled_csr(found, edges, row_ptr, col, eids),
        0 <= i < found.len(),
        row_ptr[i] <= p < row_ptr[i + 1],
    ensures
        col[p] < found.len(),
        exists|q: int|
            row_ptr[col[p] as int] <= q < row_ptr[col[p] + 1] && #[trigger] col[q] == i && eids[q]
                == eids[p],
{
    assert(row_holds(found, edges, row_ptr, col, eids, i));
    let c = col[p] as int;
    assert(row_holds(found, edges, row_ptr, col, eids, c));
    lemma_first_join_symmetric(edges, found[i], found[c]);
    assert(first_join(edges, found[c], found[i]) is Some);
    let q = choose|q: int| row_ptr[c] <= q < row_ptr[c + 1] && col[q] == i;
    assert(col[q] == i);
}

/// Keeping the first occurrence of each element leaves no element twice,
/// and leaves a sequence without repeats as it is.
proof fn lemma_first_occurrences(s: Seq<NodeId>)
    ensures
        first_occurrences(s).no_duplicates(),
        s.no_duplicates() ==> first_occurrences(s) == s,
        forall|k: int| 0 <= k < s.len() ==> first_occurrences(s).contains(#[trigger] s[k]),
    decreases s.len(),
{
    if s.len() > 0 {
        let prev = first_occurrences(s.drop_last());
        lemma_first_occurrences(s.drop_last());
        if s.no_duplicates() {
            assert(s.drop_last().no_duplicates());
            if prev.contains(s.last()) {
                let w = choose|w: int| 0 <= w < prev.len() && prev[w] == s.last();
                assert(s[w] == s[s.len() - 1]);
            }
            assert(s.drop_last().push(s.last()) == s);
        }
        assert forall|k: int| 0 <= k < s.len() implies first_occurrences(s).contains(#[trigger] s[k]) by {
            if k < s.len() - 1 {
                assert(s.drop_last()[k] == s[k]);
                let w = choose|w: int| 0 <= w < prev.len() && prev[w] == s[k];
                if !prev.contains(s.last()) {
                    assert(prev.push(s.last())[w] == s[k]);
                }
            } else if !prev.contains(s.last()) {
                assert(prev.push(s.last())[prev.len() as int] == s[k]);
            }
        }
    }
}

/// Recording sampled neighbours only appends nodes not found before.
proof fn lemma_add_sampled_grows(st: Sampling, node: NodeId, s: Seq<(EdgeId, NodeId)>)
    requires
        st.found.no_duplicates(),
    ensures
        add_sampled(st, node, s).found.no_duplicates(),
        add_sampled(st, node, s).found.len() >= st.found.len(),
        add_sampled(st, node, s).found.take(st.found.len() as int) == st.found,
    decreases s.len(),
{
    if s.len() > 0 {
        lemma_add_sampled_grows(st, node, s.drop_last());
        let prev = add_sampled(st, node, s.drop_last());
        let nb = s.last().1;
        if !prev.found.contains(nb) {
            assert forall|a: int, b: int|
                0 <= a < prev.found.len() + 1 && 0 <= b < prev.found.len() + 1 && a != b implies
                prev.found.push(nb)[a] != prev.found.push(nb)[b] by {
                if a == prev.found.len() {
                    assert(prev.found[b] != nb);
                } else if b == prev.found.len() {
                    assert(prev.found[a] != nb);
                }
            }
            assert(prev.found.push(nb).take(st.found.len() as int) == prev.found.take(
                st.found.len() as int,
            ));
        }
    }
}

/// A layer only appends nodes not found before.
proof fn lemma_sample_layer_grows<G: EdgeSource>(
    g: &G,
    st: Sampling,
    frontier: Seq<NodeId>,
    fan: nat,
    picks: Seq<Seq<int>>,
)
    requires
        st.found.no_duplicates(),
    ensures
        sample_layer(g, st, frontier, fan, picks).found.no_duplicates(),
        sample_layer(g, st, frontier, fan, picks).found.len() >= st.found.len(),
        sample_layer(g, st, frontier, fan, picks).found.take(st.found.len() as int) == st.found,
    decreases frontier.len(),
{
    if frontier.len() > 0 {
        lemma_sample_layer_grows(g, st, frontier.drop_last(), fan, picks.drop_last());
        let prev = sample_layer(g, st, frontier.drop_last(), fan, picks.drop_last());
        let node = frontier.last();
        let s = sample_of(both_neighbors(g, node), fan, picks.last());
        lemma_add_sampled_grows(prev, node, s);
        let next = add_sampled(prev, node, s);
        assert(next.found.take(st.found.len() as int) == next.found.take(prev.found.len() as int).take(
            st.found.len() as int,
        ));
    }
}

/// A sampling run finds no node twice, and its first nodes are the
/// targets, each at its first occurrence.
proof fn lemma_sample_layers_grow<G: EdgeSource>(
    g: &G,
    targets: Seq<NodeId>,
    fanout: Seq<usize>,
    picks: Seq<Seq<Seq<int>>>,
)
    ensures
        sample_layers(g, targets, fanout, picks).found.no_duplicates(),
        sample_layers(g, targets, fanout, picks).found.len() >= first_occurrences(targets).len(),
        sample_layers(g, targets, fanout, picks).found.take(first_occurrences(targets).len() as int)
            == first_occurrences(targets),
    decreases fanout.len(),
{
    lemma_first_occurrences(targets);
    if fanout.len() > 0 {
        lemma_sample_layers_grow(g, targets, fanout.drop_last(), picks.drop_last());
        let prev = sample_layers(g, targets, fanout.drop_last(), picks.drop_last());
        let st = Sampling { found: prev.found, edges: prev.edges, next: Seq::empty() };
        lemma_sample_layer_grows(g, st, prev.next, fanout.last() as nat, picks.last());
        let next = sample_layers(g, targets, fanout, picks);
        let m = first_occurrences(targets).len() as int;
        assert(next.found.take(m) == next.found.take(prev.found.len() as int).take(m));
    }
}

/// A sampling run finds each node at most once.
pub proof fn lemma_sampled_nodes_distinct<G: EdgeSource>(
    g: &G,
    targets: Seq<NodeId>,
    fanout: Seq<usize>,
    picks: Seq<Seq<Seq<int>>>,
)
    ensures
        sample_layers(g, targets, fanout, picks).found.no_duplicates(),
{
    lemma_sample_layers_grow(g, targets, fanout, picks);
}

/// With no target listed twice, the subgraph's nodes begin with the
/// targets in order, so `target_indices[i]` is the position of
/// `targets[i]`.
pub proof fn lemma_targets_lead<G: EdgeSource>(
    g: &G,
    targets: Seq<NodeId>,
    fanout: Seq<usize>,
    picks: Seq<Seq<Seq<int>>>,
)
    requires
        targets.no_duplicates(),
    ensures
        sample_layers(g, targets, fanout, picks).found.len() >= targets.len(),
        forall|i: int|
            0 <= i < targets.len() ==> #[trigger] sample_layers(g, targets, fanout, picks).found[i]
                == targets[i],
{
    lemma_sample_layers_grow(g, targets, fanout, picks);
    lemma_first_occurrences(targets);
    let found = sample_layers(g, targets, fanout, picks).found;
    assert forall|i: int| 0 <= i < targets.len() implies #[trigger] found[i] == targets[i] by {
        assert(found.take(targets.len() as int)[i] == found[i]);
    }
}

/// Each frontier node keeps exactly as many neighbours as fit in the
/// fanout, every one of them from its neighbour list, and all of them
/// when they fit.
pub proof fn lemma_sample_within_fanout(list: Seq<(EdgeId, NodeId)>, fan: nat, pick: Seq<int>)
    ensures
        sample_of(list, fan, pick).len() == if list.len() <= fan {
            list.len()
        } else {
            fan
        },
        forall|k: int|
            0 <= k < sample_of(list, fan, pick).len() ==> list.contains(
                #[trigger] sample_of(list, fan, pick)[k],
            ),
        list.len() <= fan ==> sample_of(list, fan, pick) == list,
{
    let s = sample_of(list, fan, pick);
    assert forall|k: int| 0 <= k < s.len() implies list.contains(#[trigger] s[k]) by {
        if list.len() <= fan {
            assert(list[k] == s[k]);
        } else if picks_sample(pick, list.len(), fan) {
            assert(list[pick[k]] == s[k]);
        } else {
            assert(list[k] == s[k]);
        }
    }
}


/// The number of edges a layer with room for `fan` samples from the
/// frontier: each node keeps all its neighbours or `fan` of them, whichever
/// is fewer.
pub open spec fn layer_edge_count<G: EdgeSource>(g: &G, frontier: Seq<NodeId>, fan: nat) -> nat
    decreases frontier.len(),
{
    if frontier.len() == 0 {
        0
    } else {
        let degree = both_neighbors(g, frontier.last()).len();
        layer_edge_count(g, frontier.drop_last(), fan) + if degree <= fan {
            degree
        } else {
            fan
        }
    }
}

proof fn lemma_add_sampled_edges(st: Sampling, node: NodeId, s: Seq<(EdgeId, NodeId)>)
    ensures
        add_sampled(st, node, s).edges.len() == st.edges.len() + s.len(),
    decreases s.len(),
{
    if s.len() > 0 {
        lemma_add_sampled_edges(st, node, s.drop_last());
    }
}

proof fn lemma_layer_edges<G: EdgeSource>(g: &G, st: Sampling, frontier: Seq<NodeId>, fan: nat, picks: Seq<Seq<int>>)
    ensures
        sample_layer(g, st, frontier, fan, picks).edges.len() == st.edges.len() + layer_edge_count(g, frontier, fan),
    decreases frontier.len(),
{
    if frontier.len() > 0 {
        let node = frontier.last();
        lemma_layer_edges(g, st, frontier.drop_last(), fan, picks.drop_last());
        let prev = sample_layer(g, st, frontier.drop_last(), fan, picks.drop_last());
        let kept = sample_of(both_neighbors(g, node), fan, picks.last());
        lemma_add_sampled_edges(prev, node, kept);
        lemma_sample_within_fanout(both_neighbors(g, node), fan, picks.last());
    }
}

/// Each layer samples with its own fanout: the run over `fanout` is the run
/// over all but its last entry, followed by a layer in which every node of
/// that run's last frontier keeps as many of its neighbours as the last
/// fanout allows (all of them when they fit). The run over no fanout
/// samples nothing and has the targets as its frontier.
pub proof fn lemma_layer_uses_its_fanout<G: EdgeSource>(
    g: &G,
    targets: Seq<NodeId>,
    fanout: Seq<usize>,
    picks: Seq<Seq<Seq<int>>>,
)
    ensures
        fanout.len() == 0 ==> sample_layers(g, targets, fanout, picks).edges.len() == 0
            && sample_layers(g, targets, fanout, picks).next == targets,
        fanout.len() > 0 ==> ({
            let prev = sample_layers(g, targets, fanout.drop_last(), picks.drop_last());
            sample_layers(g, targets, fanout, picks).edges.len() == prev.edges.len() + layer_edge_count(
                g,
                prev.next,
                fanout.last() as nat,
            )
        }),
{
    if fanout.len() > 0 {
        let prev = sample_layers(g, targets, fanout.drop_last(), picks.drop_last());
        let st = Sampling { found: prev.found, edges: prev.edges, next: Seq::empty() };
        lemma_layer_edges(g, st, prev.next, fanout.last() as nat, picks.last());
    }
}

} // verus!
