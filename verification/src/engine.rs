//! A server-side store of encrypted nodes that answers label queries by
//! comparing deterministic tags, never seeing plaintext.

use vstd::prelude::*;

use std::collections::HashMap;

use crate::encrypted::{EncryptedLabel, EncryptedNode};
use crate::types::NodeId;
use vstd::std_specs::hash::spec_keys_iter;
use vstd::std_specs::iter::IteratorSpec;

verus! {

broadcast use vstd::std_specs::hash::group_hash_axioms;

/// Every node of `t` is stored under its own id number.
pub open spec fn keyed_by_id(t: Map<u64, EncryptedNode>) -> bool {
    forall|k: u64| #[trigger] t.contains_key(k) ==> t[k].id.0 == k
}

/// An engine that stores encrypted nodes by id and performs label queries on
/// deterministic tags.
pub struct EncryptedQueryEngine {
    encrypted_nodes: HashMap<u64, EncryptedNode>,
}

impl EncryptedQueryEngine {
    #[verifier::type_invariant]
    spec fn stored_by_id(self) -> bool {
        keyed_by_id(self.encrypted_nodes@)
    }

    /// The stored nodes by id number.
    pub closed spec fn table(self) -> Map<u64, EncryptedNode> {
        self.encrypted_nodes@
    }

    /// Create a new empty encrypted query engine.
    pub fn new() -> (r: Self)
        ensures
            r.table() == Map::<u64, EncryptedNode>::empty(),
            keyed_by_id(r.table()),
            r.table().dom().finite(),
    {
        EncryptedQueryEngine { encrypted_nodes: HashMap::new() }
    }

    /// Store an encrypted node; a node with the same ID is overwritten.
    pub fn insert(&mut self, node: EncryptedNode)
        ensures
            final(self).table() == old(self).table().insert(node.id.0, node),
            keyed_by_id(final(self).table()),
            final(self).table().dom().finite(),
    {
        proof { use_type_invariant(&*self); }
        let mut nodes: HashMap<u64, EncryptedNode> = HashMap::new();
        std::mem::swap(&mut nodes, &mut self.encrypted_nodes);
        nodes.insert(node.id.0, node);
        self.encrypted_nodes = nodes;
    }

    /// Find the IDs of the nodes whose encrypted labels match the query label
    /// (by deterministic tag). Each matching node appears once.
    pub fn find_by_encrypted_label(&self, query: &EncryptedLabel) -> (r: Vec<NodeId>)
        ensures
            forall|i: int| 0 <= i < r@.len() ==> {
                &&& self.table().contains_key(r@[i].0)
                &&& self.table()[r@[i].0].has_label_tag(*query)
            },
            forall|k: u64| #[trigger] self.table().contains_key(k) && self.table()[k].has_label_tag(*query)
                ==> r@.contains(NodeId(k)),
            r@.no_duplicates(),
    {
        let m = &self.encrypted_nodes;
        let ghost ks = spec_keys_iter(m).remaining();
        let mut out: Vec<NodeId> = Vec::new();
        let ghost mut origin: Seq<int> = Seq::empty();
        for k in it: m.keys()
            invariant
                it.seq() == ks,
                ks.no_duplicates(),
                ks.unref().to_set() == m@.dom(),
                origin.len() == out@.len(),
                forall|t: int| 0 <= t < origin.len() ==> 0 <= #[trigger] origin[t] < it.index(),
                forall|t: int| 0 <= t < origin.len() ==> out@[t].0 == *ks[#[trigger] origin[t]],
                forall|t: int| 0 <= t < origin.len() ==> m@[out@[t].0].has_label_tag(*query),
                forall|a: int, b: int| 0 <= a < b < origin.len() ==> origin[a] < origin[b],
                forall|j: int| 0 <= j < it.index() && m@[*ks[j]].has_label_tag(*query)
                    ==> exists|t: int| 0 <= t < origin.len() && #[trigger] origin[t] == j,
        {
            let ghost i = it.index();
            assert(ks.unref().to_set().contains(*ks[i])) by {
                assert(ks.unref()[i] == *ks[i]);
            }
            let ghost old_origin = origin;
            match m.get(k) {
                Some(node) => {
                    if node.has_encrypted_label(query) {
                        out.push(NodeId(*k));
                        proof { origin = origin.push(i); }
                    }
                },
                None => {},
            }
            proof {
                assert forall|j: int| 0 <= j < i + 1 && m@[*ks[j]].has_label_tag(*query)
                    implies exists|t: int| 0 <= t < origin.len() && #[trigger] origin[t] == j by {
                    if j == i {
                        assert(origin[origin.len() - 1] == j);
                    } else {
                        let t = choose|t: int| 0 <= t < old_origin.len() && #[trigger] old_origin[t] == j;
                        assert(origin[t] == j);
                    }
                }
            }
        }
        proof {
            assert forall|t: int| 0 <= t < out@.len() implies {
                &&& self.table().contains_key(out@[t].0)
                &&& self.table()[out@[t].0].has_label_tag(*query)
            } by {
                assert(ks.unref()[origin[t]] == *ks[origin[t]]);
                assert(ks.unref().to_set().contains(out@[t].0));
            }
            assert forall|k: u64| #[trigger] self.table().contains_key(k) && self.table()[k].has_label_tag(*query)
                implies out@.contains(NodeId(k)) by {
                assert(ks.unref().to_set().contains(k));
                let j = choose|j: int| 0 <= j < ks.unref().len() && ks.unref()[j] == k;
                assert(ks.unref()[j] == *ks[j]);
                let t = choose|t: int| 0 <= t < origin.len() && #[trigger] origin[t] == j;
                assert(out@[t] == NodeId(k));
            }
            assert forall|a: int, b: int| 0 <= a < out@.len() && 0 <= b < out@.len() && a != b
                implies out@[a] != out@[b] by {
                if a < b {
                    assert(origin[a] < origin[b]);
                } else {
                    assert(origin[b] < origin[a]);
                }
                assert(ks[origin[a]] != ks[origin[b]]);
            }
        }
        out
    }

    /// Remove an encrypted node by ID, returning it if it existed.
    pub fn remove(&mut self, id: NodeId) -> (r: Option<EncryptedNode>)
        ensures
            final(self).table() == old(self).table().remove(id.0),
            r is Some <==> old(self).table().contains_key(id.0),
            r matches Some(n) ==> n == old(self).table()[id.0] && n.id == id,
            keyed_by_id(final(self).table()),
            final(self).table().dom().finite(),
    {
        proof { use_type_invariant(&*self); }
        let mut nodes: HashMap<u64, EncryptedNode> = HashMap::new();
        std::mem::swap(&mut nodes, &mut self.encrypted_nodes);
        let result = nodes.remove(&id.0);
        self.encrypted_nodes = nodes;
        result
    }

    /// Get a reference to an encrypted node by ID.
    pub fn get(&self, id: NodeId) -> (r: Option<&EncryptedNode>)
        ensures
            r is Some <==> self.table().contains_key(id.0),
            r matches Some(n) ==> *n == self.table()[id.0] && n.id == id,
    {
        proof { use_type_invariant(self); }
        self.encrypted_nodes.get(&id.0)
    }

    /// Number of stored encrypted nodes.
    pub fn len(&self) -> (r: usize)
        ensures
            r == self.table().len(),
            self.table().dom().finite(),
    {
        self.encrypted_nodes.len()
    }

    /// Whether the engine contains no encrypted nodes.
    pub fn is_empty(&self) -> (r: bool)
        ensures
            r == (self.table().len() == 0),
    {
        self.len() == 0
    }

    /// Return all stored node IDs, each once.
    pub fn node_ids(&self) -> (r: Vec<NodeId>)
        ensures
            r@.len() == self.table().len(),
            r@.no_duplicates(),
            forall|i: int| 0 <= i < r@.len() ==> self.table().contains_key(#[trigger] r@[i].0),
            forall|k: u64| #[trigger] self.table().contains_key(k) ==> r@.contains(NodeId(k)),
    {
        let m = &self.encrypted_nodes;
        let ghost ks = spec_keys_iter(m).remaining();
        let mut out: Vec<NodeId> = Vec::new();
        for k in it: m.keys()
            invariant
                it.seq() == ks,
                out@.len() == it.index(),
                forall|t: int| 0 <= t < it.index() ==> (#[trigger] out@[t]).0 == *ks[t],
        {
            out.push(NodeId(*k));
        }
        proof {
            assert(ks.unref().to_set() == m@.dom());
            assert(ks.len() == m@.dom().len());
            assert forall|t: int| 0 <= t < out@.len() implies self.table().contains_key(#[trigger] out@[t].0) by {
                assert(ks.unref()[t] == *ks[t]);
                assert(ks.unref().to_set().contains(out@[t].0));
            }
            assert forall|k: u64| #[trigger] self.table().contains_key(k) implies out@.contains(NodeId(k)) by {
                assert(ks.unref().to_set().contains(k));
                let j = choose|j: int| 0 <= j < ks.unref().len() && ks.unref()[j] == k;
                assert(ks.unref()[j] == *ks[j]);
                assert(out@[j] == NodeId(k));
            }
            assert forall|a: int, b: int| 0 <= a < out@.len() && 0 <= b < out@.len() && a != b
                implies out@[a] != out@[b] by {
                assert(ks[a] != ks[b]);
            }
        }
        out
    }
}

impl Default for EncryptedQueryEngine {
    fn default() -> (r: Self)
        ensures
            r.table() == Map::<u64, EncryptedNode>::empty(),
    {
        Self::new()
    }
}

} // verus!
