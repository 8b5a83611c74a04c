use astraea::coordinator::LocalCoordinator;
use astraea::partition::{HashPartitioner, PartitionStrategy, RangePartitioner};
use astraea::shard::{ShardId, ShardInfo, ShardMap, ShardStatus};
use astraea::types::NodeId;

#[test]
fn local_coordinator_routes_to_shard_zero() {
    let coord = LocalCoordinator::new();
    assert_eq!(coord.shard_map().shard_for_node(NodeId(0)), ShardId(0));
    assert_eq!(coord.shard_map().shard_for_node(NodeId(1)), ShardId(0));
    assert_eq!(coord.shard_map().shard_for_node(NodeId(999)), ShardId(0));
    assert_eq!(coord.shard_map().shard_for_node(NodeId(u64::MAX)), ShardId(0));
}

#[test]
fn local_coordinator_is_always_local() {
    let coord = LocalCoordinator::new();
    assert!(coord.is_local(NodeId(0)));
    assert!(coord.is_local(NodeId(42)));
    assert!(coord.is_local(NodeId(u64::MAX)));
}

#[test]
fn local_coordinator_shard_id() {
    let coord = LocalCoordinator::new();
    assert_eq!(coord.shard_id(), ShardId(0));
}

#[test]
fn local_coordinator_shard_map_has_one_shard() {
    let coord = LocalCoordinator::new();
    assert_eq!(coord.shard_map().num_shards(), 1);
    let active = coord.shard_map().active_shards();
    assert_eq!(active.len(), 1);
    assert_eq!(active[0].address, "localhost:7687");
}

#[test]
fn hash_partitioner_distributes_across_shards() {
    let partitioner = HashPartitioner::new(4);
    let mut seen_shards = std::collections::HashSet::new();
    for i in 0..100 {
        let shard = partitioner.shard_for_node(NodeId(i));
        assert!(shard.0 < 4);
        seen_shards.insert(shard.0);
    }
    assert!(seen_shards.len() > 1, "expected distribution across multiple shards");
}

#[test]
fn hash_partitioner_deterministic() {
    let partitioner = HashPartitioner::new(8);
    let node = NodeId(42);
    let shard1 = partitioner.shard_for_node(node);
    let shard2 = partitioner.shard_for_node(node);
    assert_eq!(shard1, shard2, "same node must always map to same shard");
}

#[test]
fn hash_partitioner_edge_follows_source() {
    let partitioner = HashPartitioner::new(4);
    let source = NodeId(99);
    assert_eq!(
        partitioner.shard_for_node(source),
        partitioner.shard_for_edge(source),
    );
}

#[test]
fn range_partitioner_correct_ranges() {
    let partitioner = RangePartitioner::from_boundaries(vec![0, 100, 200, 300]);
    assert_eq!(partitioner.shard_for_node(NodeId(0)), ShardId(0));
    assert_eq!(partitioner.shard_for_node(NodeId(50)), ShardId(0));
    assert_eq!(partitioner.shard_for_node(NodeId(99)), ShardId(0));
    assert_eq!(partitioner.shard_for_node(NodeId(100)), ShardId(1));
    assert_eq!(partitioner.shard_for_node(NodeId(199)), ShardId(1));
    assert_eq!(partitioner.shard_for_node(NodeId(200)), ShardId(2));
    assert_eq!(partitioner.shard_for_node(NodeId(299)), ShardId(2));
}

#[test]
fn range_partitioner_overflow_goes_to_last_shard() {
    let partitioner = RangePartitioner::from_boundaries(vec![0, 100, 200, 300]);
    assert_eq!(partitioner.shard_for_node(NodeId(500)), ShardId(2));
}

#[test]
fn range_partitioner_uniform_splits_evenly() {
    let partitioner = RangePartitioner::uniform(4, 1000);
    assert_eq!(partitioner.num_shards(), 4);
    assert_eq!(partitioner.shard_for_node(NodeId(0)), ShardId(0));
    assert_eq!(partitioner.shard_for_node(NodeId(249)), ShardId(0));
    assert_eq!(partitioner.shard_for_node(NodeId(250)), ShardId(1));
    assert_eq!(partitioner.shard_for_node(NodeId(500)), ShardId(2));
    assert_eq!(partitioner.shard_for_node(NodeId(750)), ShardId(3));
}

#[test]
fn hash_partitioner_stable_across_runs() {
    let p = HashPartitioner::new(8);
    assert_eq!(p.shard_for_node(NodeId(0)), ShardId(5));
    assert_eq!(p.shard_for_node(NodeId(1)), ShardId(4));
    assert_eq!(p.shard_for_node(NodeId(42)), ShardId(7));
    assert_eq!(p.shard_for_node(NodeId(u64::MAX)), ShardId(5));
}

fn make_shard_map() -> ShardMap<HashPartitioner> {
    let mut map = ShardMap::new(Box::new(HashPartitioner::new(3)));
    map.register_shard(ShardInfo::new(ShardId(0), "host-a:7687".into()));
    map.register_shard(ShardInfo::new(ShardId(1), "host-b:7687".into()));
    map.register_shard(ShardInfo::new(ShardId(2), "host-c:7687".into()));
    map
}

/// Re-registers shard `id` with one field changed, the way an owner of the
/// map updates a shard's description.
fn update_shard(map: &mut ShardMap<HashPartitioner>, id: ShardId, f: impl FnOnce(&mut ShardInfo)) {
    let mut info = map.get_shard(id).expect("shard should exist").clone();
    f(&mut info);
    map.register_shard(info);
}

#[test]
fn shard_map_registers_and_retrieves() {
    let map = make_shard_map();
    assert_eq!(map.num_shards(), 3);
    let info = map.get_shard(ShardId(1)).expect("shard 1 should exist");
    assert_eq!(info.address, "host-b:7687");
    assert_eq!(info.status, ShardStatus::Active);
}

#[test]
fn shard_map_routes_nodes() {
    let map = make_shard_map();
    let shard = map.shard_for_node(NodeId(42));
    assert!(shard.0 < 3);
}

#[test]
fn shard_map_is_local() {
    let map = make_shard_map();
    let node = NodeId(42);
    let target_shard = map.shard_for_node(node);
    assert!(map.is_local(node, target_shard));
    let other_shard = ShardId((target_shard.0 + 1) % 3);
    assert!(!map.is_local(node, other_shard));
}

#[test]
fn shard_map_active_shards_filters() {
    let mut map = make_shard_map();
    update_shard(&mut map, ShardId(1), |info| info.status = ShardStatus::Inactive);
    let active = map.active_shards();
    assert_eq!(active.len(), 2);
    assert!(active.iter().all(|s| s.status == ShardStatus::Active));
}

#[test]
fn shard_map_total_nodes_sums() {
    let mut map = make_shard_map();
    update_shard(&mut map, ShardId(0), |info| info.node_count = 100);
    update_shard(&mut map, ShardId(1), |info| info.node_count = 200);
    update_shard(&mut map, ShardId(2), |info| info.node_count = 50);
    assert_eq!(map.total_nodes(), 350);
}

#[test]
fn shard_map_remove_shard() {
    let mut map = make_shard_map();
    assert_eq!(map.num_shards(), 3);
    let removed = map.remove_shard(ShardId(1));
    assert!(removed.is_some());
    assert_eq!(map.num_shards(), 2);
    assert!(map.get_shard(ShardId(1)).is_none());
}

#[test]
fn shard_id_display() {
    assert_eq!(ShardId(5).to_string(), "shard-5");
}

// ---- further cases ----

#[test]
fn shard_map_register_replaces_same_id() {
    let mut map = make_shard_map();
    map.register_shard(ShardInfo::new(ShardId(1), "host-z:1".into()));
    assert_eq!(map.num_shards(), 3);
    assert_eq!(map.get_shard(ShardId(1)).unwrap().address, "host-z:1");
}

#[test]
fn shard_map_remove_missing_is_none() {
    let mut map = make_shard_map();
    assert!(map.remove_shard(ShardId(7)).is_none());
    assert_eq!(map.num_shards(), 3);
}

#[test]
fn range_partitioner_uniform_boundaries() {
    let p = RangePartitioner::uniform(3, 10);
    // step = 3: shards start at 0, 3, 6; last boundary 10.
    assert_eq!(p.shard_for_node(NodeId(2)), ShardId(0));
    assert_eq!(p.shard_for_node(NodeId(3)), ShardId(1));
    assert_eq!(p.shard_for_node(NodeId(9)), ShardId(2));
    assert_eq!(p.shard_for_node(NodeId(10)), ShardId(2));
    assert_eq!(p.num_shards(), 3);
}

#[test]
fn fnv1a_known_value_of_zero() {
    // FNV-1a of eight zero bytes.
    assert_eq!(astraea::partition::fnv1a_u64(0), 0xa8c7f832281a39c5);
}

#[test]
fn shard_info_new_defaults() {
    let info = ShardInfo::new(ShardId(3), "h:1".to_string());
    assert_eq!(info.status, ShardStatus::Active);
    assert_eq!(info.node_count, 0);
    assert_eq!(info.edge_count, 0);
    assert!(info.replicas.is_empty());
}
