use std::collections::HashMap;

use astraea::traversal::{
    bfs, bfs_at, dfs, neighbors, neighbors_at, reconstruct_path, shortest_path_unweighted,
    shortest_path_unweighted_at, EdgeLink, EdgeList, EdgeSource,
};
use astraea::types::{Direction, EdgeId, NodeId, ValidityInterval};

fn link(id: u64, source: u64, target: u64, validity: ValidityInterval) -> EdgeLink {
    EdgeLink { id: EdgeId(id), source: NodeId(source), target: NodeId(target), validity }
}

/// Build a simple graph: 1 -> 2 -> 3 -> 4, 1 -> 3
fn build_test_graph() -> EdgeList {
    let mut storage = EdgeList::new();
    let edges = [(1, 2), (2, 3), (3, 4), (1, 3)];
    for (i, &(src, tgt)) in edges.iter().enumerate() {
        storage.put_edge(link(i as u64 + 1, src, tgt, ValidityInterval::always()));
    }
    storage
}

/// Node 1 -> Node 2 (valid 100..200)
/// Node 2 -> Node 3 (valid 150..300)
/// Node 1 -> Node 3 (valid 50..120)
fn build_temporal_graph() -> EdgeList {
    let mut storage = EdgeList::new();
    storage.put_edge(link(1, 1, 2, ValidityInterval { valid_from: Some(100), valid_to: Some(200) }));
    storage.put_edge(link(2, 2, 3, ValidityInterval { valid_from: Some(150), valid_to: Some(300) }));
    storage.put_edge(link(3, 1, 3, ValidityInterval { valid_from: Some(50), valid_to: Some(120) }));
    storage
}

#[test]
fn bfs_depth_0() {
    let storage = build_test_graph();
    let result = bfs(&storage, NodeId(1), 0).unwrap();
    assert_eq!(result, vec![(NodeId(1), 0)]);
}

#[test]
fn bfs_depth_1() {
    let storage = build_test_graph();
    let result = bfs(&storage, NodeId(1), 1).unwrap();
    let nodes: Vec<NodeId> = result.iter().map(|(n, _)| *n).collect();
    assert!(nodes.contains(&NodeId(1)));
    assert!(nodes.contains(&NodeId(2)));
    assert!(nodes.contains(&NodeId(3)));
    assert!(!nodes.contains(&NodeId(4)));
}

#[test]
fn bfs_full() {
    let storage = build_test_graph();
    let result = bfs(&storage, NodeId(1), 10).unwrap();
    assert_eq!(result.len(), 4);
}

#[test]
fn bfs_reports_shortest_depths_in_order() {
    let storage = build_test_graph();
    let result = bfs(&storage, NodeId(1), 10).unwrap();
    assert_eq!(
        result,
        vec![(NodeId(1), 0), (NodeId(2), 1), (NodeId(3), 1), (NodeId(4), 2)]
    );
}

#[test]
fn dfs_all_nodes() {
    let storage = build_test_graph();
    let result = dfs(&storage, NodeId(1), 10).unwrap();
    assert_eq!(result.len(), 4);
    assert_eq!(result[0], NodeId(1)); // start node is first
}

#[test]
fn dfs_follows_first_edge_first() {
    let storage = build_test_graph();
    let result = dfs(&storage, NodeId(1), 10).unwrap();
    assert_eq!(result, vec![NodeId(1), NodeId(2), NodeId(3), NodeId(4)]);
}

#[test]
fn dfs_respects_depth_limit() {
    let storage = build_test_graph();
    let result = dfs(&storage, NodeId(1), 0).unwrap();
    assert_eq!(result, vec![NodeId(1)]);
    let result = dfs(&storage, NodeId(1), 1).unwrap();
    assert_eq!(result, vec![NodeId(1), NodeId(2), NodeId(3)]);
}

#[test]
fn shortest_path_unweighted_direct() {
    let storage = build_test_graph();
    let path = shortest_path_unweighted(&storage, NodeId(1), NodeId(3)).unwrap().unwrap();
    // BFS finds 1->3 (1 hop) over 1->2->3 (2 hops)
    assert_eq!(path.len(), 1);
    assert_eq!(path.end(), NodeId(3));
}

#[test]
fn shortest_path_unweighted_multi_hop() {
    let storage = build_test_graph();
    let path = shortest_path_unweighted(&storage, NodeId(1), NodeId(4)).unwrap().unwrap();
    // 1->2->3->4 or 1->3->4 — both are 2 hops via BFS
    assert!(path.len() <= 3);
    assert_eq!(path.end(), NodeId(4));
}

#[test]
fn shortest_path_unweighted_same_node() {
    let storage = build_test_graph();
    let path = shortest_path_unweighted(&storage, NodeId(1), NodeId(1)).unwrap().unwrap();
    assert_eq!(path.len(), 0);
    assert_eq!(path.end(), NodeId(1));
}

#[test]
fn shortest_path_unweighted_no_path() {
    let storage = build_test_graph();
    // Node 4 has no outgoing edges, so no path from 4 to 1
    let result = shortest_path_unweighted(&storage, NodeId(4), NodeId(1)).unwrap();
    assert!(result.is_none());
}

#[test]
fn shortest_path_names_its_edges() {
    let storage = build_test_graph();
    let path = shortest_path_unweighted(&storage, NodeId(1), NodeId(4)).unwrap().unwrap();
    assert_eq!(path.steps, vec![(EdgeId(4), NodeId(3)), (EdgeId(3), NodeId(4))]);
    assert_eq!(path.nodes(), vec![NodeId(1), NodeId(3), NodeId(4)]);
}

#[test]
fn bfs_at_before_any_edges() {
    let storage = build_temporal_graph();
    // At t=10, no edges are valid.
    let result = bfs_at(&storage, NodeId(1), 10, 10).unwrap();
    assert_eq!(result, vec![(NodeId(1), 0)]);
}

#[test]
fn bfs_at_early_window() {
    let storage = build_temporal_graph();
    // At t=100: edge 1->2 is valid (100..200), edge 1->3 is valid (50..120)
    let result = bfs_at(&storage, NodeId(1), 10, 100).unwrap();
    let nodes: Vec<NodeId> = result.iter().map(|(n, _)| *n).collect();
    assert!(nodes.contains(&NodeId(1)));
    assert!(nodes.contains(&NodeId(2)));
    assert!(nodes.contains(&NodeId(3))); // reachable via 1->3 (direct)
}

#[test]
fn bfs_at_middle_window() {
    let storage = build_temporal_graph();
    // At t=160: edge 1->2 valid, edge 2->3 valid, edge 1->3 NOT valid (expired at 120)
    let result = bfs_at(&storage, NodeId(1), 10, 160).unwrap();
    let nodes: Vec<NodeId> = result.iter().map(|(n, _)| *n).collect();
    assert!(nodes.contains(&NodeId(1)));
    assert!(nodes.contains(&NodeId(2)));
    assert!(nodes.contains(&NodeId(3))); // reachable via 1->2->3
    assert_eq!(result, vec![(NodeId(1), 0), (NodeId(2), 1), (NodeId(3), 2)]);
}

#[test]
fn bfs_at_late_window() {
    let storage = build_temporal_graph();
    // At t=250: only edge 2->3 is valid (150..300). Edge 1->2 expired.
    let result = bfs_at(&storage, NodeId(1), 10, 250).unwrap();
    // Node 1 has no valid outgoing edges at this time
    assert_eq!(result, vec![(NodeId(1), 0)]);
}

#[test]
fn shortest_path_at_uses_temporal_edges() {
    let storage = build_temporal_graph();
    // At t=100: both 1->2 and 1->3 are valid, so direct path 1->3 exists
    let path = shortest_path_unweighted_at(&storage, NodeId(1), NodeId(3), 100).unwrap().unwrap();
    assert_eq!(path.len(), 1); // direct hop

    // At t=160: only 1->2 and 2->3 are valid, so path is 1->2->3
    let path = shortest_path_unweighted_at(&storage, NodeId(1), NodeId(3), 160).unwrap().unwrap();
    assert_eq!(path.len(), 2); // two hops
}

#[test]
fn shortest_path_at_no_path() {
    let storage = build_temporal_graph();
    // At t=250: no valid outgoing edges from node 1
    let result = shortest_path_unweighted_at(&storage, NodeId(1), NodeId(3), 250).unwrap();
    assert!(result.is_none());
}

#[test]
fn reconstruct_path_follows_parents() {
    let mut parent = HashMap::new();
    parent.insert(2u64, (EdgeId(10), NodeId(1)));
    parent.insert(3u64, (EdgeId(11), NodeId(2)));
    let path = reconstruct_path(NodeId(1), NodeId(3), &parent);
    assert_eq!(path.start, NodeId(1));
    assert_eq!(path.steps, vec![(EdgeId(10), NodeId(2)), (EdgeId(11), NodeId(3))]);
    let same = reconstruct_path(NodeId(1), NodeId(1), &parent);
    assert!(same.is_empty());
}

#[test]
fn edge_list_filters_by_direction() {
    let storage = build_test_graph();
    let out: Vec<EdgeId> = storage.get_edges(NodeId(3), Direction::Outgoing).unwrap().iter().map(|e| e.id).collect();
    assert_eq!(out, vec![EdgeId(3)]);
    let inc: Vec<EdgeId> = storage.get_edges(NodeId(3), Direction::Incoming).unwrap().iter().map(|e| e.id).collect();
    assert_eq!(inc, vec![EdgeId(2), EdgeId(4)]);
    let both: Vec<EdgeId> = storage.get_edges(NodeId(3), Direction::Both).unwrap().iter().map(|e| e.id).collect();
    assert_eq!(both, vec![EdgeId(2), EdgeId(3), EdgeId(4)]);
}

#[test]
fn edge_list_put_replaces_same_id() {
    let mut storage = build_test_graph();
    assert_eq!(storage.len(), 4);
    storage.put_edge(link(2, 2, 4, ValidityInterval::always()));
    assert_eq!(storage.len(), 4);
    let out = storage.get_edges(NodeId(2), Direction::Outgoing).unwrap();
    assert_eq!(out.len(), 1);
    assert_eq!(out[0].target, NodeId(4));
}

#[test]
fn edge_list_neighbors_both_directions() {
    let storage = build_test_graph();
    let n = neighbors(&storage, NodeId(3), Direction::Both).unwrap();
    assert_eq!(n, vec![(EdgeId(2), NodeId(2)), (EdgeId(3), NodeId(4)), (EdgeId(4), NodeId(1))]);
}

#[test]
fn neighbors_at_filters_by_time() {
    let storage = build_temporal_graph();
    let n = neighbors_at(&storage, NodeId(1), Direction::Outgoing, 110).unwrap();
    assert_eq!(n, vec![(EdgeId(1), NodeId(2)), (EdgeId(3), NodeId(3))]);
    let n = neighbors_at(&storage, NodeId(1), Direction::Outgoing, 160).unwrap();
    assert_eq!(n, vec![(EdgeId(1), NodeId(2))]);
}

/// 1 -> 3, 1 -> 2, 2 -> 4, 3 -> 4, 4 -> 5: two routes of equal length to 4.
fn build_diamond() -> EdgeList {
    let mut storage = EdgeList::new();
    let edges = [(1, 3), (1, 2), (2, 4), (3, 4), (4, 5)];
    for (i, &(src, tgt)) in edges.iter().enumerate() {
        storage.put_edge(link(i as u64 + 1, src, tgt, ValidityInterval::always()));
    }
    storage
}

#[test]
fn bfs_orders_a_level_by_edge_order() {
    let storage = build_diamond();
    let result = bfs(&storage, NodeId(1), 10).unwrap();
    assert_eq!(
        result,
        vec![(NodeId(1), 0), (NodeId(3), 1), (NodeId(2), 1), (NodeId(4), 2), (NodeId(5), 3)]
    );
}

#[test]
fn dfs_order_on_diamond() {
    let storage = build_diamond();
    let result = dfs(&storage, NodeId(1), 10).unwrap();
    assert_eq!(result, vec![NodeId(1), NodeId(3), NodeId(4), NodeId(5), NodeId(2)]);
}

#[test]
fn shortest_path_takes_first_discovered_route() {
    let storage = build_diamond();
    let path = shortest_path_unweighted(&storage, NodeId(1), NodeId(5)).unwrap().unwrap();
    // 4 is first reached from 3, the first neighbour of 1.
    assert_eq!(path.steps, vec![(EdgeId(1), NodeId(3)), (EdgeId(4), NodeId(4)), (EdgeId(5), NodeId(5))]);
}
