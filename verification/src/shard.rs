//! Shard identifiers, shard descriptions and the shard map that routes nodes
//! to shards.

use vstd::prelude::*;

use crate::decimal::{decimal_digits, prefixed_decimal};
use crate::partition::PartitionStrategy;
use crate::types::NodeId;
use std::collections::HashMap;
use vstd::std_specs::hash::spec_keys_iter;
use vstd::std_specs::iter::IteratorSpec;

verus! {

broadcast use vstd::std_specs::hash::group_hash_axioms;

/// Unique shard identifier.
#[derive(Debug, Clone, Copy, PartialEq, Eq, Structural, Hash)]
pub struct ShardId(pub usize);

impl ShardId {
    /// Textual form `shard-<id>`.
    pub fn to_string(&self) -> (r: String)
        ensures
            r@ == seq!['s', 'h', 'a', 'r', 'd', '-'] + decimal_digits(self.0 as nat),
    {
        proof { reveal_strlit("shard-"); }
        prefixed_decimal("shard-", self.0 as u64)
    }
}

/// Status of a shard.
#[derive(Debug, Clone, Copy, PartialEq, Eq, Structural)]
pub enum ShardStatus {
    Active,
    Inactive,
    Rebalancing,
}

/// Information about a shard.
#[derive(Debug, Clone)]
pub struct ShardInfo {
    pub id: ShardId,
    pub status: ShardStatus,
    /// Network address of the shard (host:port).
    pub address: String,
    /// Number of nodes stored on this shard.
    pub node_count: u64,
    /// Number of edges stored on this shard.
    pub edge_count: u64,
    /// Replica IDs (for fault tolerance).
    pub replicas: Vec<ShardId>,
}

impl ShardInfo {
    pub fn new(id: ShardId, address: String) -> (r: Self)
        ensures
            r.id == id,
            r.status == ShardStatus::Active,
            r.address@ == address@,
            r.node_count == 0,
            r.edge_count == 0,
            r.replicas@.len() == 0,
    {
        Self {
            id,
            status: ShardStatus::Active,
            address,
            node_count: 0,
            edge_count: 0,
            replicas: Vec::new(),
        }
    }
}

/// Every description of `t` is registered under its own shard id number.
pub open spec fn keyed_by_shard(t: Map<usize, ShardInfo>) -> bool {
    forall|k: usize| #[trigger] t.contains_key(k) ==> t[k].id.0 == k
}

/// Sum of the node counts of the shards of a finite table.
pub open spec fn node_total(t: Map<usize, ShardInfo>) -> nat
    decreases t.dom().len(),
    when t.dom().finite()
{
    if t.dom().len() == 0 {
        0
    } else {
        let k = t.dom().choose();
        node_total(t.remove(k)) + t[k].node_count as nat
    }
}

/// Taking any one shard out of a finite table lowers the node total by its
/// node count: the total does not depend on the order of the shards.
pub proof fn lemma_node_total_remove(t: Map<usize, ShardInfo>, k: usize)
    requires
        t.dom().finite(),
        t.contains_key(k),
    ensures
        node_total(t) == node_total(t.remove(k)) + t[k].node_count as nat,
    decreases t.dom().len(),
{
    assert(t.dom().len() > 0) by {
        assert(t.dom().contains(k));
    }
    let c = t.dom().choose();
    if c != k {
        assert(t.remove(c).dom() =~= t.dom().remove(c));
        assert(t.remove(k).dom() =~= t.dom().remove(k));
        lemma_node_total_remove(t.remove(c), k);
        lemma_node_total_remove(t.remove(k), c);
        assert(t.remove(c).remove(k) =~= t.remove(k).remove(c));
    }
}

/// Maps shard IDs to their info and provides routing.
pub struct ShardMap<P: PartitionStrategy> {
    shards: HashMap<usize, ShardInfo>,
    partitioner: Box<P>,
}

impl<P: PartitionStrategy> ShardMap<P> {
    #[verifier::type_invariant]
    spec fn stored_by_id(self) -> bool {
        keyed_by_shard(self.shards@)
    }

    /// The registered shards by id number.
    pub closed spec fn table(self) -> Map<usize, ShardInfo> {
        self.shards@
    }

    /// The partitioning strategy that routes nodes.
    pub closed spec fn router(self) -> P {
        *self.partitioner
    }

    pub fn new(partitioner: Box<P>) -> (r: Self)
        ensures
            r.table() == Map::<usize, ShardInfo>::empty(),
            r.table().dom().finite(),
            r.router() == *partitioner,
    {
        Self { shards: HashMap::new(), partitioner }
    }

    /// Register a shard, replacing any shard registered under the same id.
    pub fn register_shard(&mut self, info: ShardInfo)
        ensures
            final(self).table() == old(self).table().insert(info.id.0, info),
            final(self).router() == old(self).router(),
            keyed_by_shard(final(self).table()),
            final(self).table().dom().finite(),
    {
        proof { use_type_invariant(&*self); }
        let mut shards: HashMap<usize, ShardInfo> = HashMap::new();
        std::mem::swap(&mut shards, &mut self.shards);
        shards.insert(info.id.0, info);
        self.shards = shards;
    }

    /// Remove a shard, returning its description if it was registered.
    pub fn remove_shard(&mut self, id: ShardId) -> (r: Option<ShardInfo>)
        ensures
            final(self).table() == old(self).table().remove(id.0),
            final(self).router() == old(self).router(),
            r is Some <==> old(self).table().contains_key(id.0),
            r matches Some(info) ==> info == old(self).table()[id.0] && info.id == id,
            keyed_by_shard(final(self).table()),
            final(self).table().dom().finite(),
    {
        proof { use_type_invariant(&*self); }
        let mut shards: HashMap<usize, ShardInfo> = HashMap::new();
        std::mem::swap(&mut shards, &mut self.shards);
        let r = shards.remove(&id.0);
        self.shards = shards;
        r
    }

    /// Get the shard responsible for a node.
    pub fn shard_for_node(&self, node_id: NodeId) -> (r: ShardId)
        ensures
            r == self.router().owner(node_id),
            (r.0 as nat) < self.router().shard_count(),
    {
        self.partitioner.shard_for_node(node_id)
    }

    /// Get info about a specific shard.
    pub fn get_shard(&self, id: ShardId) -> (r: Option<&ShardInfo>)
        ensures
            r is Some <==> self.table().contains_key(id.0),
            r matches Some(info) ==> *info == self.table()[id.0] && info.id == id,
    {
        proof { use_type_invariant(self); }
        self.shards.get(&id.0)
    }

    /// Get all active shards.
    pub fn active_shards(&self) -> (r: Vec<&ShardInfo>)
        ensures
            forall|i: int| 0 <= i < r@.len() ==> {
                &&& self.table().contains_key(r@[i].id.0)
                &&& self.table()[r@[i].id.0] == *r@[i]
                &&& r@[i].status == ShardStatus::Active
            },
            forall|k: usize|
                #[trigger] self.table().contains_key(k) && self.table()[k].status == ShardStatus::Active
                    ==> exists|i: int| 0 <= i < r@.len() && r@[i].id.0 == k,
            forall|i: int, j: int| 0 <= i < j < r@.len() ==> r@[i].id != r@[j].id,
    {
        proof { use_type_invariant(self); }
        let m = &self.shards;
        let ghost ks = spec_keys_iter(m).remaining();
        let mut out: Vec<&ShardInfo> = Vec::new();
        let ghost mut origin: Seq<int> = Seq::empty();
        for k in it: m.keys()
            invariant
                it.seq() == ks,
                ks.no_duplicates(),
                ks.unref().to_set() == m@.dom(),
                keyed_by_shard(m@),
                origin.len() == out@.len(),
                forall|t: int| 0 <= t < origin.len() ==> 0 <= #[trigger] origin[t] < it.index(),
                forall|t: int| 0 <= t < origin.len() ==> *out@[t] == m@[*ks[#[trigger] origin[t]]],
                forall|t: int| 0 <= t < out@.len() ==> (#[trigger] out@[t]).status == ShardStatus::Active,
                forall|a: int, b: int| 0 <= a < b < origin.len() ==> origin[a] < origin[b],
                forall|j: int| 0 <= j < it.index() && m@[*ks[j]].status == ShardStatus::Active
                    ==> exists|t: int| 0 <= t < origin.len() && #[trigger] origin[t] == j,
        {
            let ghost i = it.index();
            assert(ks.unref().to_set().contains(*ks[i])) by {
                assert(ks.unref()[i] == *ks[i]);
            }
            let ghost old_origin = origin;
            match m.get(k) {
                Some(info) => {
                    if info.status == ShardStatus::Active {
                        out.push(info);
                        proof { origin = origin.push(i); }
                    }
                },
                None => {},
            }
            proof {
                assert forall|j: int| 0 <= j < i + 1 && m@[*ks[j]].status == ShardStatus::Active
                    implies exists|t: int| 0 <= t < origin.len() && #[trigger] origin[t] == j by {
                    if j == i {
                        assert(origin[origin.len() - 1] == j);
                    } else {
                        let t = choose|t: int| 0 <= t < old_origin.len() && #[trigger] old_origin[t] == j;
                        assert(origin[t] == j);
                    }
                }
            }
        }
        proof {
            assert forall|t: int| 0 <= t < out@.len() implies {
                &&& self.table().contains_key(out@[t].id.0)
                &&& self.table()[out@[t].id.0] == *out@[t]
                &&& out@[t].status == ShardStatus::Active
            } by {
                assert(ks.unref()[origin[t]] == *ks[origin[t]]);
                assert(ks.unref().to_set().contains(*ks[origin[t]]));
            }
            assert forall|k: usize|
                #[trigger] self.table().contains_key(k) && self.table()[k].status == ShardStatus::Active
                    implies exists|t: int| 0 <= t < out@.len() && out@[t].id.0 == k by {
                assert(ks.unref().to_set().contains(k));
                let j = choose|j: int| 0 <= j < ks.unref().len() && ks.unref()[j] == k;
                assert(ks.unref()[j] == *ks[j]);
                let t = choose|t: int| 0 <= t < origin.len() && #[trigger] origin[t] == j;
                assert(out@[t].id.0 == k);
            }
            assert forall|a: int, b: int| 0 <= a < b < out@.len() implies out@[a].id != out@[b].id by {
                assert(origin[a] < origin[b]);
                assert(ks[origin[a]] != ks[origin[b]]);
                assert(ks.unref()[origin[a]] == *ks[origin[a]]);
                assert(ks.unref()[origin[b]] == *ks[origin[b]]);
                assert(ks.unref().to_set().contains(*ks[origin[a]]));
                assert(ks.unref().to_set().contains(*ks[origin[b]]));
            }
        }
        out
    }

    /// Check if a node is local to a given shard.
    pub fn is_local(&self, node_id: NodeId, current_shard: ShardId) -> (r: bool)
        ensures
            r == (self.router().owner(node_id) == current_shard),
    {
        self.shard_for_node(node_id).0 == current_shard.0
    }

    /// Number of registered shards.
    pub fn num_shards(&self) -> (r: usize)
        ensures
            r == self.table().len(),
            self.table().dom().finite(),
    {
        self.shards.len()
    }

    /// Total number of nodes across all shards.
    pub fn total_nodes(&self) -> (r: u64)
        requires
            node_total(self.table()) <= u64::MAX,
        ensures
            r == node_total(self.table()),
    {
        let m = &self.shards;
        let ghost ks = spec_keys_iter(m).remaining();
        let ghost mut rest: Map<usize, ShardInfo> = m@;
        let mut total: u64 = 0;
        proof {
            assert(ks.unref().to_set() == m@.dom());
        }
        for k in it: m.keys()
            invariant
                it.seq() == ks,
                ks.no_duplicates(),
                ks.unref().to_set() == m@.dom(),
                node_total(m@) <= u64::MAX,
                rest.dom().finite(),
                rest.dom() == m@.dom().difference(ks.take(it.index() as int).unref().to_set()),
                forall|key: usize| #[trigger] rest.contains_key(key) ==> rest[key] == m@[key],
                total + node_total(rest) == node_total(m@),
        {
            let ghost i = it.index();
            assert(ks.unref()[i] == *ks[i]);
            assert(ks.unref().to_set().contains(*k));
            assert(rest.contains_key(*k)) by {
                if ks.take(i).unref().to_set().contains(*k) {
                    let j = choose|j: int| 0 <= j < ks.take(i).unref().len() && ks.take(i).unref()[j] == *k;
                    assert(ks.take(i).unref()[j] == *ks[j]);
                    assert(ks[j] == ks[i]);
                }
            }
            proof {
                lemma_node_total_remove(rest, *k);
            }
            let count = match m.get(k) {
                Some(info) => info.node_count,
                None => 0,
            };
            total = total + count;
            proof {
                let visited = ks.take(i).unref().to_set();
                let next = ks.take(i + 1).unref().to_set();
                let pre = ks.take(i).unref();
                let post = ks.take(i + 1).unref();
                assert(post =~= pre.push(*k));
                assert forall|x: usize| #[trigger] next.contains(x) == visited.insert(*k).contains(x) by {
                    if next.contains(x) {
                        let j = choose|j: int| 0 <= j < post.len() && post[j] == x;
                        if j < i {
                            assert(pre[j] == x);
                        }
                    }
                    if visited.contains(x) {
                        let j = choose|j: int| 0 <= j < pre.len() && pre[j] == x;
                        assert(post[j] == x);
                    }
                    if x == *k {
                        assert(post[i] == x);
                    }
                }
                assert(next =~= visited.insert(*k));
                rest = rest.remove(*k);
                assert(rest.dom() =~= m@.dom().difference(next));
            }
        }
        proof {
            assert(ks.take(ks.len() as int) =~= ks);
            assert(rest.dom() =~= Set::<usize>::empty());
            assert(rest.dom().len() == 0);
        }
        total
    }
}

} // verus!
