//! The graph database handle: an in-memory store of nodes and edges with
//! identifier allocation, endpoint checks, cascading deletes, label and
//! edge-type lookups, and the edge reads that the traversals use. Each node
//! and edge carries a payload of the caller's choosing (properties,
//! embedding, weight), which the graph stores and hands back untouched.

use vstd::prelude::*;

use crate::error::AstraeaError;
use crate::traversal::{endpoints, lemma_filter_from, links, neighbor_entry, EdgeLink, EdgeSource};
use crate::types::{Direction, EdgeId, NodeId, ValidityInterval};

verus! {

/// Reports whether a vector index snapshot was loaded (and how many deltas
/// were reconciled) or rebuilt from storage.
#[derive(Debug, Clone, Copy, PartialEq, Eq, Structural)]
pub enum VectorIndexInit {
    /// The snapshot was loaded; `inserted` embeddings were added and
    /// `removed` node ids stripped to match storage.
    Loaded { inserted: usize, removed: usize },
    /// The snapshot was unusable and a fresh index of `count` embeddings
    /// was built.
    Rebuilt { count: usize },
}

/// A stored node: its identifier, labels and payload.
pub struct StoredNode<N> {
    pub id: NodeId,
    pub labels: Vec<String>,
    pub data: N,
}

/// A stored edge: its identity, endpoints and validity, its type and payload.
pub struct StoredEdge<E> {
    pub link: EdgeLink,
    pub edge_type: String,
    pub data: E,
}

/// Some node of `ns` has identifier `id`.
pub open spec fn has_node<N>(ns: Seq<StoredNode<N>>, id: NodeId) -> bool {
    exists|i: int| 0 <= i < ns.len() && (#[trigger] ns[i]).id == id
}

/// The position of the node with identifier `id` in `ns`, if any.
pub open spec fn node_pos<N>(ns: Seq<StoredNode<N>>, id: NodeId) -> Option<int> {
    if has_node(ns, id) {
        Some(choose|i: int| 0 <= i < ns.len() && (#[trigger] ns[i]).id == id)
    } else {
        None
    }
}

/// Some edge of `es` has identifier `id`.
pub open spec fn has_edge<E>(es: Seq<StoredEdge<E>>, id: EdgeId) -> bool {
    exists|i: int| 0 <= i < es.len() && (#[trigger] es[i]).link.id == id
}

/// The position of the edge with identifier `id` in `es`, if any.
pub open spec fn edge_pos<E>(es: Seq<StoredEdge<E>>, id: EdgeId) -> Option<int> {
    if has_edge(es, id) {
        Some(choose|i: int| 0 <= i < es.len() && (#[trigger] es[i]).link.id == id)
    } else {
        None
    }
}

/// The graph is consistent: no two nodes share an identifier, no two edges
/// share an identifier, and both ends of every edge are nodes of the graph.
pub open spec fn consistent<N, E>(ns: Seq<StoredNode<N>>, es: Seq<StoredEdge<E>>) -> bool {
    &&& unique_node_ids(ns)
    &&& unique_edge_ids(es)
    &&& forall|k: int|
        0 <= k < es.len() ==> has_node(ns, (#[trigger] es[k]).link.source) && has_node(
            ns,
            es[k].link.target,
        )
}

/// No two nodes of `ns` share an identifier.
pub open spec fn unique_node_ids<N>(ns: Seq<StoredNode<N>>) -> bool {
    forall|i: int, j: int| 0 <= i < j < ns.len() ==> (#[trigger] ns[i]).id != (#[trigger] ns[j]).id
}

/// No two edges of `es` share an identifier.
pub open spec fn unique_edge_ids<E>(es: Seq<StoredEdge<E>>) -> bool {
    forall|i: int, j: int|
        0 <= i < j < es.len() ==> (#[trigger] es[i]).link.id != (#[trigger] es[j]).link.id
}

/// The edge links of `es`, in order.
pub open spec fn links_of<E>(es: Seq<StoredEdge<E>>) -> Seq<EdgeLink> {
    es.map_values(|e: StoredEdge<E>| e.link)
}

/// `ns` with the node `n` put in: replacing the node with its identifier,
/// or appended when there is none.
pub open spec fn put_node<N>(ns: Seq<StoredNode<N>>, n: StoredNode<N>) -> Seq<StoredNode<N>> {
    match node_pos(ns, n.id) {
        Some(i) => ns.update(i, n),
        None => ns.push(n),
    }
}

/// `es` with the edge `e` put in: replacing the edge with its identifier,
/// or appended when there is none.
pub open spec fn put_edge<E>(es: Seq<StoredEdge<E>>, e: StoredEdge<E>) -> Seq<StoredEdge<E>> {
    match edge_pos(es, e.link.id) {
        Some(i) => es.update(i, e),
        None => es.push(e),
    }
}

/// The next identifier a counter hands out after `c`: one more, wrapping
/// around at the top.
pub open spec fn bump(c: u64) -> u64 {
    if c == u64::MAX {
        0
    } else {
        (c + 1) as u64
    }
}

/// The node and edge data the graph holds, with its identifier counters.
struct Store<N, E> {
    nodes: Vec<StoredNode<N>>,
    edges: Vec<StoredEdge<E>>,
    next_node_id: u64,
    next_edge_id: u64,
}

/// The primary graph database handle: nodes and edges in memory, each with
/// a payload, and counters that allocate identifiers.
pub struct Graph<N, E> {
    store: Store<N, E>,
}

impl<N, E> Graph<N, E> {
    #[verifier::type_invariant]
    spec fn well_formed(self) -> bool {
        consistent(self.store.nodes@, self.store.edges@)
    }

    /// The nodes, in the order they were first stored.
    pub closed spec fn node_seq(&self) -> Seq<StoredNode<N>> {
        self.store.nodes@
    }

    /// The edges, in the order they were first stored.
    pub closed spec fn edge_seq(&self) -> Seq<StoredEdge<E>> {
        self.store.edges@
    }

    /// The identifier the next created node gets.
    pub closed spec fn next_node(&self) -> u64 {
        self.store.next_node_id
    }

    /// The identifier the next created edge gets.
    pub closed spec fn next_edge(&self) -> u64 {
        self.store.next_edge_id
    }

    /// An empty graph whose counters start at 1.
    pub fn new() -> (r: Self)
        ensures
            r.node_seq() == Seq::<StoredNode<N>>::empty(),
            r.edge_seq() == Seq::<StoredEdge<E>>::empty(),
            r.next_node() == 1,
            r.next_edge() == 1,
    {
        Self::with_start_ids(1, 1)
    }

    /// An empty graph whose counters start at the given identifiers (for
    /// recovery).
    pub fn with_start_ids(next_node_id: u64, next_edge_id: u64) -> (r: Self)
        ensures
            r.node_seq() == Seq::<StoredNode<N>>::empty(),
            r.edge_seq() == Seq::<StoredEdge<E>>::empty(),
            r.next_node() == next_node_id,
            r.next_edge() == next_edge_id,
    {
        Graph { store: Store { nodes: Vec::new(), edges: Vec::new(), next_node_id, next_edge_id } }
    }

    /// The graph is consistent.
    pub fn is_consistent(&self) -> (r: bool)
        ensures
            r,
            consistent(self.node_seq(), self.edge_seq()),
    {
        proof {
            use_type_invariant(self);
        }
        true
    }

    /// The node with identifier `id`, if the graph holds one.
    pub fn get_node(&self, id: NodeId) -> (r: Option<&StoredNode<N>>)
        ensures
            r is Some <==> has_node(self.node_seq(), id),
            r matches Some(n) ==> *n == self.node_seq()[node_pos(self.node_seq(), id)->0],
    {
        proof {
            use_type_invariant(self);
        }
        match self.find_node(id) {
            Some(i) => Some(&self.store.nodes[i]),
            None => None,
        }
    }

    /// The edge with identifier `id`, if the graph holds one.
    pub fn get_edge(&self, id: EdgeId) -> (r: Option<&StoredEdge<E>>)
        ensures
            r is Some <==> has_edge(self.edge_seq(), id),
            r matches Some(e) ==> *e == self.edge_seq()[edge_pos(self.edge_seq(), id)->0],
    {
        proof {
            use_type_invariant(self);
        }
        match self.find_edge(id) {
            Some(i) => Some(&self.store.edges[i]),
            None => None,
        }
    }

    fn find_node(&self, id: NodeId) -> (r: Option<usize>)
        requires
            consistent(self.node_seq(), self.edge_seq()),
        ensures
            r is Some <==> has_node(self.node_seq(), id),
            r matches Some(i) ==> node_pos(self.node_seq(), id) == Some(i as int) && i
                < self.node_seq().len(),
    {
        find_node_in(&self.store.nodes, id)
    }

    fn find_edge(&self, id: EdgeId) -> (r: Option<usize>)
        requires
            consistent(self.node_seq(), self.edge_seq()),
        ensures
            r is Some <==> has_edge(self.edge_seq(), id),
            r matches Some(i) ==> edge_pos(self.edge_seq(), id) == Some(i as int) && i
                < self.edge_seq().len(),
    {
        find_edge_in(&self.store.edges, id)
    }
}

fn find_node_in<N>(nodes: &Vec<StoredNode<N>>, id: NodeId) -> (r: Option<usize>)
    requires
        forall|i: int, j: int|
            0 <= i < j < nodes@.len() ==> (#[trigger] nodes@[i]).id != (#[trigger] nodes@[j]).id,
    ensures
        r is Some <==> has_node(nodes@, id),
        r matches Some(i) ==> node_pos(nodes@, id) == Some(i as int) && i < nodes@.len(),
{
    let mut i: usize = 0;
    while i < nodes.len()
        invariant
            i <= nodes@.len(),
            forall|k: int| 0 <= k < i ==> (#[trigger] nodes@[k]).id != id,
            forall|a: int, b: int|
                0 <= a < b < nodes@.len() ==> (#[trigger] nodes@[a]).id != (#[trigger] nodes@[b]).id,
        decreases nodes@.len() - i,
    {
        if nodes[i].id == id {
            proof {
                assert(has_node(nodes@, id));
                let c = choose|c: int| 0 <= c < nodes@.len() && (#[trigger] nodes@[c]).id == id;
                if c != i {
                    if c < i {
                        assert(nodes@[c].id != nodes@[i as int].id);
                    } else {
                        assert(nodes@[i as int].id != nodes@[c].id);
                    }
                }
            }
            return Some(i);
        }
        i = i + 1;
    }
    None
}

fn find_edge_in<E>(edges: &Vec<StoredEdge<E>>, id: EdgeId) -> (r: Option<usize>)
    requires
        forall|i: int, j: int|
            0 <= i < j < edges@.len() ==> (#[trigger] edges@[i]).link.id != (
            #[trigger] edges@[j]).link.id,
    ensures
        r is Some <==> has_edge(edges@, id),
        r matches Some(i) ==> edge_pos(edges@, id) == Some(i as int) && i < edges@.len(),
{
    let mut i: usize = 0;
    while i < edges.len()
        invariant
            i <= edges@.len(),
            forall|k: int| 0 <= k < i ==> (#[trigger] edges@[k]).link.id != id,
            forall|a: int, b: int|
                0 <= a < b < edges@.len() ==> (#[trigger] edges@[a]).link.id != (
                #[trigger] edges@[b]).link.id,
        decreases edges@.len() - i,
    {
        if edges[i].link.id == id {
            proof {
                assert(has_edge(edges@, id));
                let c = choose|c: int| 0 <= c < edges@.len() && (#[trigger] edges@[c]).link.id == id;
                if c != i {
                    if c < i {
                        assert(edges@[c].link.id != edges@[i as int].link.id);
                    } else {
                        assert(edges@[i as int].link.id != edges@[c].link.id);
                    }
                }
            }
            return Some(i);
        }
        i = i + 1;
    }
    None
}

/// With identifiers unique, the node found at position `i` is the one
/// `node_pos` names.
proof fn lemma_node_pos<N>(ns: Seq<StoredNode<N>>, id: NodeId, i: int)
    requires
        forall|a: int, b: int| 0 <= a < b < ns.len() ==> (#[trigger] ns[a]).id != (#[trigger] ns[b]).id,
        0 <= i < ns.len(),
        ns[i].id == id,
    ensures
        node_pos(ns, id) == Some(i),
{
    assert(has_node(ns, id));
    let c = choose|c: int| 0 <= c < ns.len() && (#[trigger] ns[c]).id == id;
    if c < i {
        assert(ns[c].id != ns[i].id);
    } else if c > i {
        assert(ns[i].id != ns[c].id);
    }
}

/// With identifiers unique, the edge found at position `i` is the one
/// `edge_pos` names.
proof fn lemma_edge_pos<E>(es: Seq<StoredEdge<E>>, id: EdgeId, i: int)
    requires
        forall|a: int, b: int|
            0 <= a < b < es.len() ==> (#[trigger] es[a]).link.id != (#[trigger] es[b]).link.id,
        0 <= i < es.len(),
        es[i].link.id == id,
    ensures
        edge_pos(es, id) == Some(i),
{
    assert(has_edge(es, id));
    let c = choose|c: int| 0 <= c < es.len() && (#[trigger] es[c]).link.id == id;
    if c < i {
        assert(es[c].link.id != es[i].link.id);
    } else if c > i {
        assert(es[i].link.id != es[c].link.id);
    }
}

/// Putting a node in keeps the graph consistent, keeps every node
/// identifier, and holds the new one.
proof fn lemma_put_node<N, E>(ns: Seq<StoredNode<N>>, es: Seq<StoredEdge<E>>, n: StoredNode<N>)
    requires
        consistent(ns, es),
    ensures
        consistent(put_node(ns, n), es),
        has_node(put_node(ns, n), n.id),
        forall|id: NodeId| #[trigger] has_node(ns, id) ==> has_node(put_node(ns, n), id),
{
    let ns2 = put_node(ns, n);
    match node_pos(ns, n.id) {
        Some(p) => {
            assert(0 <= p < ns.len() && ns[p].id == n.id);
            assert(ns2[p] == n);
            assert forall|id: NodeId| #[trigger] has_node(ns, id) implies has_node(ns2, id) by {
                let i = choose|i: int| 0 <= i < ns.len() && (#[trigger] ns[i]).id == id;
                assert(ns2[i].id == id);
            }
            assert forall|i: int, j: int| 0 <= i < j < ns2.len() implies (#[trigger] ns2[i]).id
                != (#[trigger] ns2[j]).id by {
                assert(ns[i].id != ns[j].id);
            }
        },
        None => {
            assert(ns2[ns.len() as int] == n);
            assert forall|id: NodeId| #[trigger] has_node(ns, id) implies has_node(ns2, id) by {
                let i = choose|i: int| 0 <= i < ns.len() && (#[trigger] ns[i]).id == id;
                assert(ns2[i].id == id);
            }
            assert forall|i: int, j: int| 0 <= i < j < ns2.len() implies (#[trigger] ns2[i]).id
                != (#[trigger] ns2[j]).id by {
                if j == ns.len() {
                    if ns[i].id == n.id {
                        assert(has_node(ns, n.id));
                    }
                } else {
                    assert(ns[i].id != ns[j].id);
                }
            }
        },
    }
    assert forall|k: int| 0 <= k < es.len() implies has_node(ns2, (#[trigger] es[k]).link.source)
        && has_node(ns2, es[k].link.target) by {
        assert(has_node(ns, es[k].link.source));
        assert(has_node(ns, es[k].link.target));
    }
}

/// Putting in an edge whose ends are nodes of the graph keeps it consistent.
proof fn lemma_put_edge<N, E>(ns: Seq<StoredNode<N>>, es: Seq<StoredEdge<E>>, e: StoredEdge<E>)
    requires
        consistent(ns, es),
        has_node(ns, e.link.source),
        has_node(ns, e.link.target),
    ensures
        consistent(ns, put_edge(es, e)),
{
    let es2 = put_edge(es, e);
    match edge_pos(es, e.link.id) {
        Some(p) => {
            assert(0 <= p < es.len() && es[p].link.id == e.link.id);
            assert forall|i: int, j: int| 0 <= i < j < es2.len() implies (
            #[trigger] es2[i]).link.id != (#[trigger] es2[j]).link.id by {
                assert(es[i].link.id != es[j].link.id);
            }
        },
        None => {
            assert forall|i: int, j: int| 0 <= i < j < es2.len() implies (
            #[trigger] es2[i]).link.id != (#[trigger] es2[j]).link.id by {
                if j == es.len() {
                    assert(es2[j] == e);
                    if es[i].link.id == e.link.id {
                        assert(has_edge(es, e.link.id));
                    }
                } else {
                    assert(es[i].link.id != es[j].link.id);
                }
            }
        },
    }
    assert forall|k: int| 0 <= k < es2.len() implies has_node(ns, (#[trigger] es2[k]).link.source)
        && has_node(ns, es2[k].link.target) by {
        if k < es.len() && es2[k] != e {
            assert(es2[k] == es[k]);
        }
    }
}

/// The identifier after `id` for bumping the node counter past it: one
/// more, staying at the top.
pub open spec fn after(id: u64) -> u64 {
    if id == u64::MAX {
        u64::MAX
    } else {
        (id + 1) as u64
    }
}

impl<N, E> EdgeSource for Graph<N, E> {
    open spec fn edges_of(&self, node: NodeId, direction: Direction) -> Seq<EdgeLink> {
        links_of(self.edge_seq()).filter(|e: EdgeLink| links(e, node, direction))
    }

    open spec fn known_nodes(&self) -> Set<NodeId> {
        endpoints(links_of(self.edge_seq()))
    }

    open spec fn never_fails(&self) -> bool {
        true
    }

    proof fn lemma_known_nodes(&self) {
        broadcast use vstd::seq_lib::seq_to_set_is_finite;

        let ls = links_of(self.edge_seq());
        assert forall|n: NodeId, d: Direction, i: int|
            0 <= i < self.edges_of(n, d).len() implies {
            &&& self.known_nodes().contains((#[trigger] self.edges_of(n, d)[i]).source)
            &&& self.known_nodes().contains(self.edges_of(n, d)[i].target)
        } by {
            let pred = |e: EdgeLink| links(e, n, d);
            lemma_filter_from(ls, pred, i);
            let e = ls.filter(pred)[i];
            let k = choose|k: int| 0 <= k < ls.len() && ls[k] == e;
            assert(ls.map_values(|e: EdgeLink| e.source)[k] == e.source);
            assert(ls.map_values(|e: EdgeLink| e.target)[k] == e.target);
        }
    }

    fn get_edges(&self, node_id: NodeId, direction: Direction) -> (r: Result<
        Vec<EdgeLink>,
        AstraeaError,
    >) {
        let ghost pred = |e: EdgeLink| links(e, node_id, direction);
        let ghost ls = links_of(self.edge_seq());
        let mut out: Vec<EdgeLink> = Vec::new();
        let mut i: usize = 0;
        while i < self.store.edges.len()
            invariant
                i <= self.store.edges@.len(),
                ls == links_of(self.edge_seq()),
                pred == (|e: EdgeLink| links(e, node_id, direction)),
                out@ == ls.take(i as int).filter(pred),
            decreases self.store.edges@.len() - i,
        {
            let e = self.store.edges[i].link;
            let keep = match direction {
                Direction::Outgoing => e.source == node_id,
                Direction::Incoming => e.target == node_id,
                Direction::Both => e.source == node_id || e.target == node_id,
            };
            assert(ls.take(i + 1) == ls.take(i as int).push(e));
            assert(keep == pred(e));
            proof {
                ls.take(i as int).lemma_filter_push(e, pred);
            }
            if keep {
                out.push(e);
            }
            i = i + 1;
        }
        assert(ls.take(i as int) == ls);
        Ok(out)
    }
}

impl<N, E> Graph<N, E> {
    /// Create a node with the next identifier from the node counter (which
    /// then moves on, wrapping at the top); a node already stored under that
    /// identifier is replaced.
    pub fn create_node(&mut self, labels: Vec<String>, data: N) -> (r: Result<NodeId, AstraeaError>)
        ensures
            r == Ok::<NodeId, AstraeaError>(NodeId(old(self).next_node())),
            final(self).node_seq() == put_node(
                old(self).node_seq(),
                StoredNode { id: NodeId(old(self).next_node()), labels, data },
            ),
            final(self).edge_seq() == old(self).edge_seq(),
            final(self).next_node() == bump(old(self).next_node()),
            final(self).next_edge() == old(self).next_edge(),
            consistent(final(self).node_seq(), final(self).edge_seq()),
    {
        proof {
            use_type_invariant(&*self);
        }
        let mut st = Store { nodes: Vec::new(), edges: Vec::new(), next_node_id: 0, next_edge_id: 0 };
        std::mem::swap(&mut st, &mut self.store);
        let id = NodeId(st.next_node_id);
        st.next_node_id = st.next_node_id.wrapping_add(1);
        let node = StoredNode { id, labels, data };
        let ghost ns0 = st.nodes@;
        proof {
            lemma_put_node(ns0, st.edges@, node);
        }
        match find_node_in(&st.nodes, id) {
            Some(i) => {
                st.nodes.set(i, node);
            },
            None => {
                st.nodes.push(node);
            },
        }
        assert(st.nodes@ == put_node(ns0, node));
        self.store = st;
        Ok(id)
    }

    /// Create a node under the given identifier. Refused with
    /// `DuplicateNode` when the identifier is taken; otherwise the node
    /// counter moves past the identifier if it is not already beyond it.
    pub fn create_node_with_id(&mut self, id: NodeId, labels: Vec<String>, data: N) -> (r: Result<
        NodeId,
        AstraeaError,
    >)
        ensures
            has_node(old(self).node_seq(), id) ==> {
                &&& r == Err::<NodeId, AstraeaError>(AstraeaError::DuplicateNode(id))
                &&& *final(self) == *old(self)
            },
            !has_node(old(self).node_seq(), id) ==> {
                &&& r == Ok::<NodeId, AstraeaError>(id)
                &&& final(self).node_seq() == old(self).node_seq().push(
                    StoredNode { id, labels, data },
                )
                &&& final(self).edge_seq() == old(self).edge_seq()
                &&& final(self).next_node() == if old(self).next_node() >= after(id.0) {
                    old(self).next_node()
                } else {
                    after(id.0)
                }
                &&& final(self).next_edge() == old(self).next_edge()
            },
            consistent(final(self).node_seq(), final(self).edge_seq()),
    {
        proof {
            use_type_invariant(&*self);
        }
        if self.find_node(id).is_some() {
            return Err(AstraeaError::DuplicateNode(id));
        }
        let mut st = Store { nodes: Vec::new(), edges: Vec::new(), next_node_id: 0, next_edge_id: 0 };
        std::mem::swap(&mut st, &mut self.store);
        let node = StoredNode { id, labels, data };
        let ghost ns0 = st.nodes@;
        proof {
            lemma_put_node(ns0, st.edges@, node);
            assert(node_pos(ns0, id) is None);
        }
        st.nodes.push(node);
        let next = id.0.saturating_add(1);
        if next > st.next_node_id {
            st.next_node_id = next;
        }
        self.store = st;
        Ok(id)
    }

    /// Create an edge from `source` to `target` with the next identifier from
    /// the edge counter (which then moves on, wrapping at the top). Refused
    /// with `NodeNotFound` for the source when it is not a node, else for the
    /// target when it is not.
    pub fn create_edge(
        &mut self,
        source: NodeId,
        target: NodeId,
        edge_type: String,
        data: E,
        valid_from: Option<i64>,
        valid_to: Option<i64>,
    ) -> (r: Result<EdgeId, AstraeaError>)
        ensures
            !has_node(old(self).node_seq(), source) ==> {
                &&& r == Err::<EdgeId, AstraeaError>(AstraeaError::NodeNotFound(source))
                &&& *final(self) == *old(self)
            },
            has_node(old(self).node_seq(), source) && !has_node(old(self).node_seq(), target) ==> {
                &&& r == Err::<EdgeId, AstraeaError>(AstraeaError::NodeNotFound(target))
                &&& *final(self) == *old(self)
            },
            has_node(old(self).node_seq(), source) && has_node(old(self).node_seq(), target) ==> {
                let id = EdgeId(old(self).next_edge());
                let link = EdgeLink {
                    id,
                    source,
                    target,
                    validity: ValidityInterval { valid_from, valid_to },
                };
                &&& r == Ok::<EdgeId, AstraeaError>(id)
                &&& final(self).edge_seq() == put_edge(
                    old(self).edge_seq(),
                    StoredEdge { link, edge_type, data },
                )
                &&& final(self).node_seq() == old(self).node_seq()
                &&& final(self).next_edge() == bump(old(self).next_edge())
                &&& final(self).next_node() == old(self).next_node()
            },
            consistent(final(self).node_seq(), final(self).edge_seq()),
    {
        proof {
            use_type_invariant(&*self);
        }
        if self.find_node(source).is_none() {
            return Err(AstraeaError::NodeNotFound(source));
        }
        if self.find_node(target).is_none() {
            return Err(AstraeaError::NodeNotFound(target));
        }
        let mut st = Store { nodes: Vec::new(), edges: Vec::new(), next_node_id: 0, next_edge_id: 0 };
        std::mem::swap(&mut st, &mut self.store);
        let id = EdgeId(st.next_edge_id);
        st.next_edge_id = st.next_edge_id.wrapping_add(1);
        let link = EdgeLink { id, source, target, validity: ValidityInterval { valid_from, valid_to } };
        let edge = StoredEdge { link, edge_type, data };
        let ghost es0 = st.edges@;
        proof {
            lemma_put_edge(st.nodes@, es0, edge);
        }
        match find_edge_in(&st.edges, id) {
            Some(i) => {
                st.edges.set(i, edge);
            },
            None => {
                st.edges.push(edge);
            },
        }
        assert(st.edges@ == put_edge(es0, edge));
        self.store = st;
        Ok(id)
    }
}

/// The edge `e` touches neither end at node `id`.
pub open spec fn avoids<E>(e: StoredEdge<E>, id: NodeId) -> bool {
    e.link.source != id && e.link.target != id
}

/// The edges of `es` with no end at node `id`, in order.
pub open spec fn edges_avoiding<E>(es: Seq<StoredEdge<E>>, id: NodeId) -> Seq<StoredEdge<E>> {
    es.filter(|e: StoredEdge<E>| avoids(e, id))
}

/// One of the labels of `n` is `label`.
pub open spec fn has_label<N>(n: StoredNode<N>, label: Seq<char>) -> bool {
    exists|k: int| 0 <= k < n.labels@.len() && (#[trigger] n.labels@[k])@ == label
}

/// `ns` without the node with identifier `id`, if it holds one.
pub open spec fn without_node<N>(ns: Seq<StoredNode<N>>, id: NodeId) -> Seq<StoredNode<N>> {
    match node_pos(ns, id) {
        Some(i) => ns.remove(i),
        None => ns,
    }
}

/// `es` without the edge with identifier `id`, if it holds one.
pub open spec fn without_edge<E>(es: Seq<StoredEdge<E>>, id: EdgeId) -> Seq<StoredEdge<E>> {
    match edge_pos(es, id) {
        Some(i) => es.remove(i),
        None => es,
    }
}

/// Keeping some of a sequence of edges with distinct identifiers keeps
/// them distinct.
proof fn lemma_filter_unique<E>(es: Seq<StoredEdge<E>>, pred: spec_fn(StoredEdge<E>) -> bool)
    requires
        forall|a: int, b: int|
            0 <= a < b < es.len() ==> (#[trigger] es[a]).link.id != (#[trigger] es[b]).link.id,
    ensures
        forall|a: int, b: int|
            0 <= a < b < es.filter(pred).len() ==> (#[trigger] es.filter(pred)[a]).link.id != (
            #[trigger] es.filter(pred)[b]).link.id,
    decreases es.len(),
{
    reveal(Seq::filter);
    if es.len() > 0 {
        let init = es.drop_last();
        lemma_filter_unique(init, pred);
        let f0 = init.filter(pred);
        if pred(es.last()) {
            let f = f0.push(es.last());
            assert(es.filter(pred) == f);
            assert forall|a: int, b: int| 0 <= a < b < f.len() implies (#[trigger] f[a]).link.id != (
            #[trigger] f[b]).link.id by {
                if b == f0.len() {
                    lemma_filter_from(init, pred, a);
                    let k = choose|k: int| 0 <= k < init.len() && init[k] == f0[a];
                    assert(es[k] == f0[a]);
                    assert(es[k].link.id != es[es.len() - 1].link.id);
                } else {
                    assert(f[a] == f0[a] && f[b] == f0[b]);
                }
            }
        }
    }
}

/// Removing the entry at `p` keeps the identifiers of the other nodes.
proof fn lemma_remove_keeps_nodes<N>(ns: Seq<StoredNode<N>>, p: int, id: NodeId)
    requires
        0 <= p < ns.len(),
        has_node(ns, id),
        ns[p].id != id,
    ensures
        has_node(ns.remove(p), id),
{
    let i = choose|i: int| 0 <= i < ns.len() && (#[trigger] ns[i]).id == id;
    if i < p {
        assert(ns.remove(p)[i] == ns[i]);
    } else {
        assert(ns.remove(p)[i - 1] == ns[i]);
    }
}

/// Deleting a node with its edges keeps the graph consistent.
proof fn lemma_delete_node<N, E>(ns: Seq<StoredNode<N>>, es: Seq<StoredEdge<E>>, id: NodeId)
    requires
        consistent(ns, es),
    ensures
        consistent(without_node(ns, id), edges_avoiding(es, id)),
{
    let pred = |e: StoredEdge<E>| avoids(e, id);
    let ns2 = without_node(ns, id);
    let es2 = es.filter(pred);
    lemma_filter_unique(es, pred);
    if let Some(p) = node_pos(ns, id) {
        assert(0 <= p < ns.len() && ns[p].id == id);
        assert forall|i: int, j: int| 0 <= i < j < ns2.len() implies (#[trigger] ns2[i]).id != (
        #[trigger] ns2[j]).id by {
            let ii = if i < p { i } else { i + 1 };
            let jj = if j < p { j } else { j + 1 };
            assert(ns2[i] == ns[ii] && ns2[j] == ns[jj]);
            assert(ns[ii].id != ns[jj].id);
        }
    }
    assert forall|k: int| 0 <= k < es2.len() implies has_node(ns2, (#[trigger] es2[k]).link.source)
        && has_node(ns2, es2[k].link.target) by {
        lemma_filter_from(es, pred, k);
        es.filter_lemma(pred);
        let q = choose|q: int| 0 <= q < es.len() && es[q] == es2[k];
        assert(has_node(ns, es[q].link.source) && has_node(ns, es[q].link.target));
        assert(pred(es2[k]));
        if let Some(p) = node_pos(ns, id) {
            lemma_remove_keeps_nodes(ns, p, es2[k].link.source);
            lemma_remove_keeps_nodes(ns, p, es2[k].link.target);
        }
    }
}

/// Deleting an edge keeps the graph consistent.
proof fn lemma_delete_edge<N, E>(ns: Seq<StoredNode<N>>, es: Seq<StoredEdge<E>>, id: EdgeId)
    requires
        consistent(ns, es),
    ensures
        consistent(ns, without_edge(es, id)),
{
    if let Some(p) = edge_pos(es, id) {
        assert(0 <= p < es.len() && es[p].link.id == id);
        let es2 = es.remove(p);
        assert forall|i: int, j: int| 0 <= i < j < es2.len() implies (#[trigger] es2[i]).link.id
            != (#[trigger] es2[j]).link.id by {
            let ii = if i < p { i } else { i + 1 };
            let jj = if j < p { j } else { j + 1 };
            assert(es2[i] == es[ii] && es2[j] == es[jj]);
            assert(es[ii].link.id != es[jj].link.id);
        }
        assert forall|k: int| 0 <= k < es2.len() implies has_node(ns, (#[trigger] es2[k]).link.source)
            && has_node(ns, es2[k].link.target) by {
            let kk = if k < p { k } else { k + 1 };
            assert(es2[k] == es[kk]);
        }
    }
}

/// Drop from `edges`, in place, every edge with an end at node `id`.
fn drop_edges_at<E>(edges: &mut Vec<StoredEdge<E>>, id: NodeId)
    ensures
        final(edges)@ == edges_avoiding(old(edges)@, id),
{
    let ghost all = old(edges)@;
    let ghost pred = |e: StoredEdge<E>| avoids(e, id);
    let ghost mut j: int = 0;
    let mut i: usize = 0;
    while i < edges.len()
        invariant
            0 <= j <= all.len(),
            pred == (|e: StoredEdge<E>| avoids(e, id)),
            i == all.take(j).filter(pred).len(),
            edges@ == all.take(j).filter(pred) + all.skip(j),
        decreases all.len() - j,
    {
        let ghost kept = all.take(j).filter(pred);
        proof {
            assert(edges@[i as int] == all[j]);
            assert(all.take(j + 1) == all.take(j).push(all[j]));
            all.take(j).lemma_filter_push(all[j], pred);
            assert(all.skip(j) == seq![all[j]] + all.skip(j + 1));
        }
        let link = edges[i].link;
        if link.source == id || link.target == id {
            edges.remove(i);
            proof {
                assert(edges@ == kept + all.skip(j + 1));
                j = j + 1;
            }
        } else {
            proof {
                assert(edges@ == kept.push(all[j]) + all.skip(j + 1));
                j = j + 1;
            }
            i = i + 1;
        }
    }
    proof {
        assert(all.take(j).filter(pred).len() <= j) by {
            all.take(j).lemma_filter_len(pred);
        }
        if j < all.len() {
            assert(edges@.len() > i);
        }
        assert(all.take(j) == all);
        assert(all.skip(j) == Seq::<StoredEdge<E>>::empty());
    }
}

impl<N, E> Graph<N, E> {
    /// Replace the payload of the node with identifier `id`; refused with
    /// `NodeNotFound` when there is none.
    pub fn set_node_data(&mut self, id: NodeId, data: N) -> (r: Result<(), AstraeaError>)
        ensures
            !has_node(old(self).node_seq(), id) ==> {
                &&& r == Err::<(), AstraeaError>(AstraeaError::NodeNotFound(id))
                &&& *final(self) == *old(self)
            },
            has_node(old(self).node_seq(), id) ==> {
                let i = node_pos(old(self).node_seq(), id)->0;
                let n = old(self).node_seq()[i];
                &&& r == Ok::<(), AstraeaError>(())
                &&& final(self).node_seq() == old(self).node_seq().update(
                    i,
                    StoredNode { id: n.id, labels: n.labels, data },
                )
                &&& final(self).edge_seq() == old(self).edge_seq()
                &&& final(self).next_node() == old(self).next_node()
                &&& final(self).next_edge() == old(self).next_edge()
            },
            consistent(final(self).node_seq(), final(self).edge_seq()),
    {
        proof {
            use_type_invariant(&*self);
        }
        let i = match self.find_node(id) {
            Some(i) => i,
            None => {
                return Err(AstraeaError::NodeNotFound(id));
            },
        };
        let mut st = Store { nodes: Vec::new(), edges: Vec::new(), next_node_id: 0, next_edge_id: 0 };
        std::mem::swap(&mut st, &mut self.store);
        let ghost ns0 = st.nodes@;
        st.nodes[i].data = data;
        proof {
            let ns2 = st.nodes@;
            assert forall|a: int, b: int| 0 <= a < b < ns2.len() implies (#[trigger] ns2[a]).id != (
            #[trigger] ns2[b]).id by {
                assert(ns2[a].id == ns0[a].id && ns2[b].id == ns0[b].id);
            }
            assert forall|x: NodeId| #[trigger] has_node(ns0, x) implies has_node(ns2, x) by {
                let w = choose|w: int| 0 <= w < ns0.len() && (#[trigger] ns0[w]).id == x;
                assert(ns2[w].id == x);
            }
            assert forall|k: int| 0 <= k < st.edges@.len() implies has_node(
                ns2,
                (#[trigger] st.edges@[k]).link.source,
            ) && has_node(ns2, st.edges@[k].link.target) by {
                assert(has_node(ns0, st.edges@[k].link.source));
                assert(has_node(ns0, st.edges@[k].link.target));
            }
        }
        self.store = st;
        Ok(())
    }

    /// Replace the payload of the edge with identifier `id`; refused with
    /// `EdgeNotFound` when there is none.
    pub fn set_edge_data(&mut self, id: EdgeId, data: E) -> (r: Result<(), AstraeaError>)
        ensures
            !has_edge(old(self).edge_seq(), id) ==> {
                &&& r == Err::<(), AstraeaError>(AstraeaError::EdgeNotFound(id))
                &&& *final(self) == *old(self)
            },
            has_edge(old(self).edge_seq(), id) ==> {
                let i = edge_pos(old(self).edge_seq(), id)->0;
                let e = old(self).edge_seq()[i];
                &&& r == Ok::<(), AstraeaError>(())
                &&& final(self).edge_seq() == old(self).edge_seq().update(
                    i,
                    StoredEdge { link: e.link, edge_type: e.edge_type, data },
                )
                &&& final(self).node_seq() == old(self).node_seq()
                &&& final(self).next_node() == old(self).next_node()
                &&& final(self).next_edge() == old(self).next_edge()
            },
            consistent(final(self).node_seq(), final(self).edge_seq()),
    {
        proof {
            use_type_invariant(&*self);
        }
        let i = match self.find_edge(id) {
            Some(i) => i,
            None => {
                return Err(AstraeaError::EdgeNotFound(id));
            },
        };
        let mut st = Store { nodes: Vec::new(), edges: Vec::new(), next_node_id: 0, next_edge_id: 0 };
        std::mem::swap(&mut st, &mut self.store);
        let ghost es0 = st.edges@;
        st.edges[i].data = data;
        proof {
            let es2 = st.edges@;
            assert forall|a: int, b: int| 0 <= a < b < es2.len() implies (#[trigger] es2[a]).link.id
                != (#[trigger] es2[b]).link.id by {
                assert(es2[a].link == es0[a].link && es2[b].link == es0[b].link);
            }
            assert forall|k: int| 0 <= k < es2.len() implies has_node(
                st.nodes@,
                (#[trigger] es2[k]).link.source,
            ) && has_node(st.nodes@, es2[k].link.target) by {
                assert(es2[k].link == es0[k].link);
            }
        }
        self.store = st;
        Ok(())
    }

    /// Delete the edge with identifier `id`, if there is one.
    pub fn delete_edge(&mut self, id: EdgeId) -> (r: Result<(), AstraeaError>)
        ensures
            r == Ok::<(), AstraeaError>(()),
            final(self).edge_seq() == without_edge(old(self).edge_seq(), id),
            final(self).node_seq() == old(self).node_seq(),
            final(self).next_node() == old(self).next_node(),
            final(self).next_edge() == old(self).next_edge(),
            consistent(final(self).node_seq(), final(self).edge_seq()),
    {
        proof {
            use_type_invariant(&*self);
            lemma_delete_edge(self.node_seq(), self.edge_seq(), id);
        }
        let found = self.find_edge(id);
        let mut st = Store { nodes: Vec::new(), edges: Vec::new(), next_node_id: 0, next_edge_id: 0 };
        std::mem::swap(&mut st, &mut self.store);
        if let Some(i) = found {
            st.edges.remove(i);
        }
        self.store = st;
        Ok(())
    }

    /// Delete the node with identifier `id`, if there is one, together with
    /// every edge that has an end at it.
    pub fn delete_node(&mut self, id: NodeId) -> (r: Result<(), AstraeaError>)
        ensures
            r == Ok::<(), AstraeaError>(()),
            final(self).node_seq() == without_node(old(self).node_seq(), id),
            final(self).edge_seq() == edges_avoiding(old(self).edge_seq(), id),
            final(self).next_node() == old(self).next_node(),
            final(self).next_edge() == old(self).next_edge(),
            consistent(final(self).node_seq(), final(self).edge_seq()),
    {
        proof {
            use_type_invariant(&*self);
            lemma_delete_node(self.node_seq(), self.edge_seq(), id);
        }
        let found = self.find_node(id);
        let mut st = Store { nodes: Vec::new(), edges: Vec::new(), next_node_id: 0, next_edge_id: 0 };
        std::mem::swap(&mut st, &mut self.store);
        drop_edges_at(&mut st.edges, id);
        if let Some(i) = found {
            st.nodes.remove(i);
        }
        self.store = st;
        Ok(())
    }
}

/// The edges of `es` that connect to `node` in `direction` and have type
/// `edge_type`.
pub open spec fn typed_links<E>(
    es: Seq<StoredEdge<E>>,
    node: NodeId,
    direction: Direction,
    edge_type: Seq<char>,
) -> Seq<StoredEdge<E>> {
    es.filter(|e: StoredEdge<E>| links(e.link, node, direction) && e.edge_type@ == edge_type)
}

/// `n` has `label` among its labels, as the code checks it label by label.
fn labelled<N>(n: &StoredNode<N>, label: &String) -> (r: bool)
    ensures
        r == has_label(*n, label@),
{
    let mut k: usize = 0;
    while k < n.labels.len()
        invariant
            k <= n.labels@.len(),
            forall|m: int| 0 <= m < k ==> (#[trigger] n.labels@[m])@ != label@,
        decreases n.labels@.len() - k,
    {
        if n.labels[k] == *label {
            assert(n.labels@[k as int]@ == label@);
            return true;
        }
        k = k + 1;
    }
    false
}

impl<N, E> Graph<N, E> {
    /// The neighbours of `node_id` in `direction`: each edge's identifier
    /// with its far end.
    pub fn neighbors(&self, node_id: NodeId, direction: Direction) -> (r: Result<
        Vec<(EdgeId, NodeId)>,
        AstraeaError,
    >)
        ensures
            r matches Ok(v) ==> v@ == self.edges_of(node_id, direction).map_values(
                |e: EdgeLink| neighbor_entry(e, node_id),
            ),
            r is Ok,
    {
        crate::traversal::neighbors(self, node_id, direction)
    }

    /// The neighbours of `node_id` in `direction` through edges of type
    /// `edge_type`, in edge order.
    pub fn neighbors_filtered(&self, node_id: NodeId, direction: Direction, edge_type: &str) -> (r:
        Result<Vec<(EdgeId, NodeId)>, AstraeaError>)
        ensures
            r matches Ok(v) ==> v@ == typed_links(
                self.edge_seq(),
                node_id,
                direction,
                edge_type@,
            ).map_values(|e: StoredEdge<E>| neighbor_entry(e.link, node_id)),
            r is Ok,
    {
        let wanted = edge_type.to_owned();
        let ghost es = self.edge_seq();
        let ghost pred = |e: StoredEdge<E>| links(e.link, node_id, direction) && e.edge_type@ == edge_type@;
        let ghost f = |e: StoredEdge<E>| neighbor_entry(e.link, node_id);
        let mut out: Vec<(EdgeId, NodeId)> = Vec::new();
        let mut i: usize = 0;
        while i < self.store.edges.len()
            invariant
                i <= es.len(),
                es == self.edge_seq(),
                wanted@ == edge_type@,
                pred == (|e: StoredEdge<E>| links(e.link, node_id, direction) && e.edge_type@
                    == edge_type@),
                f == (|e: StoredEdge<E>| neighbor_entry(e.link, node_id)),
                out@ == es.take(i as int).filter(pred).map_values(f),
            decreases es.len() - i,
        {
            let e = &self.store.edges[i];
            let l = e.link;
            let connects = match direction {
                Direction::Outgoing => l.source == node_id,
                Direction::Incoming => l.target == node_id,
                Direction::Both => l.source == node_id || l.target == node_id,
            };
            let keep = connects && e.edge_type == wanted;
            proof {
                assert(es.take(i + 1) == es.take(i as int).push(*e));
                assert(keep == pred(*e));
                es.take(i as int).lemma_filter_push(*e, pred);
            }
            if keep {
                let other = if l.source == node_id {
                    l.target
                } else {
                    l.source
                };
                out.push((l.id, other));
                proof {
                    assert(f(*e) == (l.id, other));
                    assert(es.take(i + 1).filter(pred).map_values(f) == es.take(i as int).filter(
                        pred,
                    ).map_values(f).push(f(*e)));
                }
            }
            i = i + 1;
        }
        assert(es.take(i as int) == es);
        Ok(out)
    }

    /// The identifiers of the nodes that carry `label`, in store order.
    pub fn find_by_label(&self, label: &str) -> (r: Result<Vec<NodeId>, AstraeaError>)
        ensures
            r matches Ok(v) ==> v@ == self.node_seq().filter(
                |n: StoredNode<N>| has_label(n, label@),
            ).map_values(|n: StoredNode<N>| n.id),
            r is Ok,
    {
        let wanted = label.to_owned();
        let ghost ns = self.node_seq();
        let ghost pred = |n: StoredNode<N>| has_label(n, label@);
        let mut out: Vec<NodeId> = Vec::new();
        let mut i: usize = 0;
        while i < self.store.nodes.len()
            invariant
                i <= ns.len(),
                ns == self.node_seq(),
                wanted@ == label@,
                pred == (|n: StoredNode<N>| has_label(n, label@)),
                out@ == ns.take(i as int).filter(pred).map_values(|n: StoredNode<N>| n.id),
            decreases ns.len() - i,
        {
            let n = &self.store.nodes[i];
            let keep = labelled(n, &wanted);
            proof {
                assert(ns.take(i + 1) == ns.take(i as int).push(*n));
                ns.take(i as int).lemma_filter_push(*n, pred);
            }
            if keep {
                out.push(n.id);
                proof {
                    assert(ns.take(i + 1).filter(pred).map_values(|n: StoredNode<N>| n.id) == ns.take(
                        i as int,
                    ).filter(pred).map_values(|n: StoredNode<N>| n.id).push(n.id));
                }
            }
            i = i + 1;
        }
        assert(ns.take(i as int) == ns);
        Ok(out)
    }

    /// Each edge of type `edge_type`, in store order: its identifier, source
    /// and target.
    pub fn find_edges_by_type(&self, edge_type: &str) -> (r: Result<
        Vec<(EdgeId, NodeId, NodeId)>,
        AstraeaError,
    >)
        ensures
            r matches Ok(v) ==> v@ == self.edge_seq().filter(
                |e: StoredEdge<E>| e.edge_type@ == edge_type@,
            ).map_values(|e: StoredEdge<E>| (e.link.id, e.link.source, e.link.target)),
            r is Ok,
    {
        let wanted = edge_type.to_owned();
        let ghost es = self.edge_seq();
        let ghost pred = |e: StoredEdge<E>| e.edge_type@ == edge_type@;
        let ghost f = |e: StoredEdge<E>| (e.link.id, e.link.source, e.link.target);
        let mut out: Vec<(EdgeId, NodeId, NodeId)> = Vec::new();
        let mut i: usize = 0;
        while i < self.store.edges.len()
            invariant
                i <= es.len(),
                es == self.edge_seq(),
                wanted@ == edge_type@,
                pred == (|e: StoredEdge<E>| e.edge_type@ == edge_type@),
                f == (|e: StoredEdge<E>| (e.link.id, e.link.source, e.link.target)),
                out@ == es.take(i as int).filter(pred).map_values(f),
            decreases es.len() - i,
        {
            let e = &self.store.edges[i];
            let keep = e.edge_type == wanted;
            proof {
                assert(es.take(i + 1) == es.take(i as int).push(*e));
                es.take(i as int).lemma_filter_push(*e, pred);
            }
            if keep {
                out.push((e.link.id, e.link.source, e.link.target));
                proof {
                    assert(es.take(i + 1).filter(pred).map_values(f) == es.take(i as int).filter(
                        pred,
                    ).map_values(f).push(f(*e)));
                }
            }
            i = i + 1;
        }
        assert(es.take(i as int) == es);
        Ok(out)
    }
}

/// What a read gives back of a write: once a node is put in, looking its
/// identifier up finds exactly that node.
pub proof fn lemma_put_node_then_get<N>(ns: Seq<StoredNode<N>>, n: StoredNode<N>)
    requires
        unique_node_ids(ns),
    ensures
        has_node(put_node(ns, n), n.id),
        put_node(ns, n)[node_pos(put_node(ns, n), n.id)->0] == n,
{
    let ns2 = put_node(ns, n);
    lemma_put_node(ns, Seq::<StoredEdge<()>>::empty(), n);
    let p = match node_pos(ns, n.id) {
        Some(i) => i,
        None => ns.len() as int,
    };
    assert(ns2[p] == n);
    lemma_node_pos(ns2, n.id, p);
}

/// What a read gives back of a write: once an edge is put in, looking its
/// identifier up finds exactly that edge.
pub proof fn lemma_put_edge_then_get<E>(es: Seq<StoredEdge<E>>, e: StoredEdge<E>)
    requires
        unique_edge_ids(es),
    ensures
        has_edge(put_edge(es, e), e.link.id),
        put_edge(es, e)[edge_pos(put_edge(es, e), e.link.id)->0] == e,
{
    let es2 = put_edge(es, e);
    let p = match edge_pos(es, e.link.id) {
        Some(i) => i,
        None => es.len() as int,
    };
    assert(es2[p] == e);
    assert forall|i: int, j: int| 0 <= i < j < es2.len() implies (#[trigger] es2[i]).link.id != (
    #[trigger] es2[j]).link.id by {
        if j == es.len() {
            if es[i].link.id == e.link.id {
                assert(has_edge(es, e.link.id));
            }
        } else if i == p || j == p {
        } else {
            assert(es[i].link.id != es[j].link.id);
        }
    }
    lemma_edge_pos(es2, e.link.id, p);
}

/// Deleting a node leaves no node with its identifier and no edge with an
/// end at it.
pub proof fn lemma_delete_node_clears<N, E>(ns: Seq<StoredNode<N>>, es: Seq<StoredEdge<E>>, id: NodeId)
    requires
        consistent(ns, es),
    ensures
        !has_node(without_node(ns, id), id),
        forall|k: int|
            0 <= k < edges_avoiding(es, id).len() ==> avoids(#[trigger] edges_avoiding(es, id)[k], id),
{
    let pred = |e: StoredEdge<E>| avoids(e, id);
    es.filter_lemma(pred);
    if let Some(p) = node_pos(ns, id) {
        let ns2 = ns.remove(p);
        if has_node(ns2, id) {
            let i = choose|i: int| 0 <= i < ns2.len() && (#[trigger] ns2[i]).id == id;
            let ii = if i < p { i } else { i + 1 };
            assert(ns2[i] == ns[ii]);
            if ii < p {
                assert(ns[ii].id != ns[p].id);
            } else {
                assert(ns[p].id != ns[ii].id);
            }
        }
    }
}

/// Deleting an edge leaves no edge with its identifier.
pub proof fn lemma_delete_edge_clears<E>(es: Seq<StoredEdge<E>>, id: EdgeId)
    requires
        unique_edge_ids(es),
    ensures
        !has_edge(without_edge(es, id), id),
{
    if let Some(p) = edge_pos(es, id) {
        let es2 = es.remove(p);
        if has_edge(es2, id) {
            let i = choose|i: int| 0 <= i < es2.len() && (#[trigger] es2[i]).link.id == id;
            let ii = if i < p { i } else { i + 1 };
            assert(es2[i] == es[ii]);
            if ii < p {
                assert(es[ii].link.id != es[p].link.id);
            } else {
                assert(es[p].link.id != es[ii].link.id);
            }
        }
    }
}

} // verus!
