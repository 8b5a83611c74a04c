//! Cluster coordination for a single-node deployment.

use vstd::prelude::*;

use crate::partition::{HashPartitioner, PartitionStrategy};
use crate::shard::{ShardId, ShardInfo, ShardMap, ShardStatus};
use crate::types::NodeId;

verus! {

/// A single-node coordinator that doesn't actually distribute.
/// This is the default when running without clustering.
pub struct LocalCoordinator {
    shard_map: ShardMap<HashPartitioner>,
    shard_id: ShardId,
}

impl LocalCoordinator {
    /// The coordinator's shard map.
    pub closed spec fn map(self) -> ShardMap<HashPartitioner> {
        self.shard_map
    }

    /// The shard this coordinator runs.
    pub closed spec fn local_shard(self) -> ShardId {
        self.shard_id
    }

    /// One active shard, id 0, at `localhost:7687`, with one-shard hash routing.
    pub fn new() -> (r: Self)
        ensures
            r.local_shard() == ShardId(0),
            r.map().router()@ == 1,
            r.map().table().dom() == set![0usize],
            r.map().table()[0].id == ShardId(0),
            r.map().table()[0].status == ShardStatus::Active,
            r.map().table()[0].address@ == "localhost:7687"@,
            r.map().table()[0].node_count == 0,
            r.map().table()[0].edge_count == 0,
    {
        let mut shard_map = ShardMap::new(Box::new(HashPartitioner::new(1)));
        let shard_id = ShardId(0);
        let address = String::from_str("localhost:7687");
        shard_map.register_shard(ShardInfo::new(shard_id, address));
        assert(shard_map.table().dom() =~= set![0usize]);
        Self { shard_map, shard_id }
    }

    pub fn shard_map(&self) -> (r: &ShardMap<HashPartitioner>)
        ensures
            *r == self.map(),
    {
        &self.shard_map
    }

    pub fn shard_id(&self) -> (r: ShardId)
        ensures
            r == self.local_shard(),
    {
        self.shard_id
    }

    /// In a single-node setup, every node is local.
    pub fn is_local(&self, id: NodeId) -> (r: bool)
        ensures
            r,
    {
        true
    }
}

/// With one shard, hash partitioning sends every node to shard 0.
pub proof fn lemma_single_shard_owner(p: HashPartitioner, node: NodeId)
    requires
        p@ == 1,
    ensures
        p.owner(node) == ShardId(0),
{
}

} // verus!
