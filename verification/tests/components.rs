use astraea::centrality::node_degrees;
use astraea::components::connected_components;
use astraea::scc::strongly_connected_components;
use astraea::traversal::{EdgeLink, EdgeList};
use astraea::types::{Direction, EdgeId, NodeId, ValidityInterval};

fn add_edge(g: &mut EdgeList, id: u64, source: u64, target: u64) {
    g.put_edge(EdgeLink {
        id: EdgeId(id),
        source: NodeId(source),
        target: NodeId(target),
        validity: ValidityInterval::always(),
    });
}

/// Two disconnected clusters: {1,2,3} and {4,5}
fn two_clusters() -> EdgeList {
    let mut g = EdgeList::new();
    // Cluster 1: 1 <-> 2 <-> 3
    add_edge(&mut g, 1, 1, 2);
    add_edge(&mut g, 2, 2, 3);
    // Cluster 2: 4 <-> 5
    add_edge(&mut g, 3, 4, 5);
    g
}

#[test]
fn connected_components_two_clusters() {
    let g = two_clusters();
    let nodes: Vec<NodeId> = (1..=5).map(NodeId).collect();
    let mut components = connected_components(&g, &nodes).unwrap();

    assert_eq!(components.len(), 2, "Expected 2 connected components");

    for c in &mut components {
        c.sort();
    }
    components.sort_by_key(|c| c[0]);

    assert_eq!(components[0], vec![NodeId(1), NodeId(2), NodeId(3)]);
    assert_eq!(components[1], vec![NodeId(4), NodeId(5)]);
}

#[test]
fn connected_components_single_node() {
    let g = EdgeList::new();
    let components = connected_components(&g, &[NodeId(1)]).unwrap();
    assert_eq!(components.len(), 1);
    assert_eq!(components[0], vec![NodeId(1)]);
}

#[test]
fn connected_components_all_isolated() {
    let g = EdgeList::new();
    let nodes: Vec<NodeId> = (1..=4).map(NodeId).collect();
    let components = connected_components(&g, &nodes).unwrap();
    assert_eq!(components.len(), 4, "Each isolated node is its own component");
}

#[test]
fn components_follow_edges_against_their_direction() {
    let g = two_clusters();
    let nodes = vec![NodeId(3), NodeId(5), NodeId(1), NodeId(2), NodeId(4)];
    let components = connected_components(&g, &nodes).unwrap();
    assert_eq!(components, vec![vec![NodeId(3), NodeId(2), NodeId(1)], vec![NodeId(5), NodeId(4)]]);
}

#[test]
fn components_ignore_nodes_outside_the_set() {
    let g = two_clusters();
    // Without node 2, nodes 1 and 3 are not connected.
    let nodes = vec![NodeId(1), NodeId(3)];
    let components = connected_components(&g, &nodes).unwrap();
    assert_eq!(components, vec![vec![NodeId(1)], vec![NodeId(3)]]);
}

#[test]
fn components_list_a_repeated_node_once() {
    let g = two_clusters();
    let nodes = vec![NodeId(4), NodeId(4), NodeId(5)];
    let components = connected_components(&g, &nodes).unwrap();
    assert_eq!(components, vec![vec![NodeId(4), NodeId(5)]]);
}

#[test]
fn scc_simple_cycle() {
    // 1 -> 2 -> 3 -> 1 forms one SCC.  4 has no edges.
    let mut g = EdgeList::new();
    add_edge(&mut g, 1, 1, 2);
    add_edge(&mut g, 2, 2, 3);
    add_edge(&mut g, 3, 3, 1);

    let nodes: Vec<NodeId> = (1..=4).map(NodeId).collect();
    let mut sccs = strongly_connected_components(&g, &nodes).unwrap();

    for scc in &mut sccs {
        scc.sort();
    }
    sccs.sort_by_key(|s| s[0]);

    assert_eq!(sccs.len(), 2);

    let cycle_scc = sccs.iter().find(|s| s.len() == 3).expect("Expected a 3-node SCC");
    assert_eq!(*cycle_scc, vec![NodeId(1), NodeId(2), NodeId(3)]);

    let singleton = sccs.iter().find(|s| s.len() == 1).expect("Expected a singleton SCC");
    assert_eq!(*singleton, vec![NodeId(4)]);
}

#[test]
fn scc_dag_all_singletons() {
    // A DAG has no cycles; every node is its own SCC.
    // 1 -> 2 -> 3
    let mut g = EdgeList::new();
    add_edge(&mut g, 1, 1, 2);
    add_edge(&mut g, 2, 2, 3);

    let nodes: Vec<NodeId> = (1..=3).map(NodeId).collect();
    let sccs = strongly_connected_components(&g, &nodes).unwrap();
    assert_eq!(sccs.len(), 3, "A DAG should have all singleton SCCs");
}

#[test]
fn scc_order_follows_tarjan() {
    // 1 -> 2 -> 1, 2 -> 3, 3 -> 4 -> 3: components close sinks first.
    let mut g = EdgeList::new();
    add_edge(&mut g, 1, 1, 2);
    add_edge(&mut g, 2, 2, 1);
    add_edge(&mut g, 3, 2, 3);
    add_edge(&mut g, 4, 3, 4);
    add_edge(&mut g, 5, 4, 3);
    let nodes: Vec<NodeId> = (1..=4).map(NodeId).collect();
    let sccs = strongly_connected_components(&g, &nodes).unwrap();
    assert_eq!(sccs, vec![vec![NodeId(4), NodeId(3)], vec![NodeId(2), NodeId(1)]]);
}

#[test]
fn scc_ignores_edges_leaving_the_set() {
    let mut g = EdgeList::new();
    add_edge(&mut g, 1, 1, 2);
    add_edge(&mut g, 2, 2, 1);
    let sccs = strongly_connected_components(&g, &[NodeId(1)]).unwrap();
    assert_eq!(sccs, vec![vec![NodeId(1)]]);
}

#[test]
fn node_degrees_count_edges_by_direction() {
    let g = two_clusters();
    let nodes: Vec<NodeId> = (1..=3).map(NodeId).collect();
    assert_eq!(
        node_degrees(&g, &nodes, Direction::Outgoing).unwrap(),
        vec![(NodeId(1), 1), (NodeId(2), 1), (NodeId(3), 0)]
    );
    assert_eq!(
        node_degrees(&g, &nodes, Direction::Both).unwrap(),
        vec![(NodeId(1), 1), (NodeId(2), 2), (NodeId(3), 1)]
    );
}
