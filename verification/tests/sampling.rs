use astraea::sampling::{sample_subgraph, SampledSubgraph};
use astraea::traversal::{EdgeLink, EdgeList};
use astraea::types::{EdgeId, NodeId, ValidityInterval};

/// A star: centre 1 linked to leaves 2..=11.
fn make_star_graph() -> (EdgeList, NodeId, Vec<NodeId>) {
    let mut g = EdgeList::new();
    let center = NodeId(1);
    let mut leaves = Vec::new();
    for i in 0..10u64 {
        let leaf = NodeId(i + 2);
        g.put_edge(EdgeLink {
            id: EdgeId(i + 1),
            source: center,
            target: leaf,
            validity: ValidityInterval::always(),
        });
        leaves.push(leaf);
    }
    (g, center, leaves)
}

fn link(g: &mut EdgeList, id: u64, a: u64, b: u64) {
    g.put_edge(EdgeLink {
        id: EdgeId(id),
        source: NodeId(a),
        target: NodeId(b),
        validity: ValidityInterval::always(),
    });
}

/// The entries of row `i`: (column, edge).
fn row(sub: &SampledSubgraph, i: usize) -> Vec<(usize, EdgeId)> {
    (sub.row_ptr[i]..sub.row_ptr[i + 1]).map(|p| (sub.col_idx[p], sub.edge_ids[p])).collect()
}

fn position(sub: &SampledSubgraph, n: NodeId) -> usize {
    sub.node_ids.iter().position(|&x| x == n).unwrap()
}

#[test]
fn test_sample_subgraph_fanout() {
    let (graph, center, _leaves) = make_star_graph();
    let mut rng = rand::thread_rng();

    let subgraph = sample_subgraph(&graph, &[center], &[3], &mut rng).unwrap();

    assert_eq!(subgraph.target_indices, vec![0]);
    assert!(subgraph.node_ids.len() <= 4, "expected <= 4 nodes, got {}", subgraph.node_ids.len());
    assert!(subgraph.node_ids.len() >= 2, "should have at least center + 1 neighbor");
}

#[test]
fn test_sample_subgraph_all_neighbors() {
    let (graph, center, _leaves) = make_star_graph();
    let mut rng = rand::thread_rng();

    let subgraph = sample_subgraph(&graph, &[center], &[100], &mut rng).unwrap();

    assert_eq!(subgraph.node_ids.len(), 11);
}

#[test]
fn test_sample_subgraph_csr() {
    let (graph, center, _leaves) = make_star_graph();
    let mut rng = rand::thread_rng();

    let subgraph = sample_subgraph(&graph, &[center], &[5], &mut rng).unwrap();

    assert_eq!(subgraph.row_ptr.len(), subgraph.node_ids.len() + 1);
    assert_eq!(subgraph.col_idx.len(), subgraph.edge_ids.len());
}

#[test]
fn sample_exact_fanout_picks_distinct_leaves() {
    let (graph, center, leaves) = make_star_graph();
    let mut rng = rand::thread_rng();
    let sub = sample_subgraph(&graph, &[center], &[3], &mut rng).unwrap();
    // Ten neighbours, room for three: exactly three distinct leaves join.
    assert_eq!(sub.node_ids.len(), 4);
    assert_eq!(sub.node_ids[0], center);
    for &n in &sub.node_ids[1..] {
        assert!(leaves.contains(&n));
    }
    // The centre's row lists the three leaves, ascending, each with its edge.
    let r = row(&sub, 0);
    assert_eq!(r.iter().map(|e| e.0).collect::<Vec<_>>(), vec![1, 2, 3]);
    for &(c, e) in &r {
        assert_eq!(EdgeId(sub.node_ids[c].0 - 1), e);
        // Each leaf row points back at the centre with the same edge.
        assert_eq!(row(&sub, c), vec![(0, e)]);
    }
}

#[test]
fn sample_zero_fanout_keeps_targets_only() {
    let (graph, center, _leaves) = make_star_graph();
    let mut rng = rand::thread_rng();
    let sub = sample_subgraph(&graph, &[center], &[0], &mut rng).unwrap();
    assert_eq!(sub.node_ids, vec![center]);
    assert_eq!(sub.row_ptr, vec![0, 0]);
    assert!(sub.col_idx.is_empty());
    assert!(sub.edge_ids.is_empty());
}

#[test]
fn sample_no_layers_keeps_first_occurrences_of_targets() {
    let (graph, _center, _leaves) = make_star_graph();
    let mut rng = rand::thread_rng();
    let targets = [NodeId(3), NodeId(2), NodeId(3)];
    let sub = sample_subgraph(&graph, &targets, &[], &mut rng).unwrap();
    assert_eq!(sub.node_ids, vec![NodeId(3), NodeId(2)]);
    assert_eq!(sub.target_indices, vec![0, 1, 0]);
    assert_eq!(sub.row_ptr, vec![0, 0, 0]);
}

#[test]
fn sample_two_layers_on_a_path() {
    // 1 - 2 - 3 - 4, sampling two hops from 1 with room for everything.
    let mut g = EdgeList::new();
    link(&mut g, 10, 1, 2);
    link(&mut g, 11, 2, 3);
    link(&mut g, 12, 3, 4);
    let mut rng = rand::thread_rng();
    let sub = sample_subgraph(&g, &[NodeId(1)], &[5, 5], &mut rng).unwrap();
    // Layer one finds 2; layer two, from 2, finds 3 (and sees 1 again).
    assert_eq!(sub.node_ids, vec![NodeId(1), NodeId(2), NodeId(3)]);
    assert_eq!(row(&sub, 0), vec![(1, EdgeId(10))]);
    assert_eq!(row(&sub, 1), vec![(0, EdgeId(10)), (2, EdgeId(11))]);
    assert_eq!(row(&sub, 2), vec![(1, EdgeId(11))]);
}

#[test]
fn sample_keeps_first_edge_between_a_pair() {
    // Two parallel edges between 1 and 2: one entry each way, the first edge.
    let mut g = EdgeList::new();
    link(&mut g, 7, 1, 2);
    link(&mut g, 8, 2, 1);
    let mut rng = rand::thread_rng();
    let sub = sample_subgraph(&g, &[NodeId(1)], &[10], &mut rng).unwrap();
    assert_eq!(sub.node_ids, vec![NodeId(1), NodeId(2)]);
    assert_eq!(row(&sub, 0), vec![(1, EdgeId(7))]);
    assert_eq!(row(&sub, 1), vec![(0, EdgeId(7))]);
}

#[test]
fn sample_adjacency_is_symmetric() {
    let mut g = EdgeList::new();
    link(&mut g, 1, 1, 2);
    link(&mut g, 2, 1, 3);
    link(&mut g, 3, 2, 3);
    link(&mut g, 4, 3, 4);
    link(&mut g, 5, 4, 1);
    let mut rng = rand::thread_rng();
    let sub = sample_subgraph(&g, &[NodeId(1), NodeId(4)], &[2, 1], &mut rng).unwrap();
    assert_eq!(position(&sub, NodeId(1)), 0);
    assert_eq!(position(&sub, NodeId(4)), 1);
    for i in 0..sub.node_ids.len() {
        let r = row(&sub, i);
        for w in r.windows(2) {
            assert!(w[0].0 < w[1].0);
        }
        for &(c, e) in &r {
            assert!(row(&sub, c).contains(&(i, e)));
        }
    }
}

#[test]
fn repeated_targets_point_at_their_node() {
    let mut g = EdgeList::new();
    link(&mut g, 1, 1, 2);
    link(&mut g, 2, 3, 4);
    let mut rng = rand::thread_rng();
    let targets = [NodeId(3), NodeId(1), NodeId(3)];
    let sub = sample_subgraph(&g, &targets, &[0], &mut rng).unwrap();
    assert_eq!(sub.node_ids, vec![NodeId(3), NodeId(1)]);
    assert_eq!(sub.target_indices, vec![0, 1, 0]);
}
