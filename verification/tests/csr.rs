use std::collections::HashMap;

use astraea::cpu::CpuBackend;
use astraea::csr::{csr_bfs_levels, csr_out_degrees, csr_transpose, CsrMatrix};
use astraea::traversal::{EdgeLink, EdgeList};
use astraea::types::{Direction, EdgeId, NodeId, ValidityInterval};

/// A graph held as an edge list, with the weight of each edge kept aside.
struct TestGraph {
    edges: EdgeList,
    weights: HashMap<EdgeId, f64>,
    next_edge: u64,
}

impl TestGraph {
    fn new() -> Self {
        TestGraph { edges: EdgeList::new(), weights: HashMap::new(), next_edge: 1 }
    }

    fn add_edge(&mut self, source: NodeId, target: NodeId, weight: f64) -> EdgeId {
        let id = EdgeId(self.next_edge);
        self.next_edge += 1;
        self.edges.put_edge(EdgeLink { id, source, target, validity: ValidityInterval::always() });
        self.weights.insert(id, weight);
        id
    }

    fn weight(&self, id: EdgeId) -> f64 {
        self.weights.get(&id).copied().unwrap_or(1.0)
    }
}

fn make_test_graph() -> (TestGraph, [NodeId; 4]) {
    let mut g = TestGraph::new();
    let (n1, n2, n3, n4) = (NodeId(1), NodeId(2), NodeId(3), NodeId(4));
    g.add_edge(n1, n2, 1.0);
    g.add_edge(n2, n3, 2.0);
    g.add_edge(n3, n4, 3.0);
    g.add_edge(n1, n3, 0.5);
    (g, [n1, n2, n3, n4])
}

fn degree(csr: &CsrMatrix, node: NodeId) -> usize {
    let i = csr.index_of(node).unwrap();
    csr.row_ptr()[i + 1] - csr.row_ptr()[i]
}

#[test]
fn test_csr_construction() {
    let (graph, nodes) = make_test_graph();
    let [n1, n2, n3, n4] = nodes;

    let csr = CsrMatrix::from_graph(&graph.edges, &[n1, n2, n3, n4]).unwrap();

    assert_eq!(csr.num_nodes(), 4);
    assert_eq!(csr.nnz(), 4); // 4 edges total
    assert_eq!(csr.row_ptr().len(), 5);

    assert_eq!(degree(&csr, n1), 2);
    assert_eq!(degree(&csr, n2), 1);
    assert_eq!(degree(&csr, n3), 1);
    assert_eq!(degree(&csr, n4), 0);

    // Column indices for n1 point to the indices of n2 and n3.
    let n1_idx = csr.index_of(n1).unwrap();
    let (n1_start, n1_end) = (csr.row_ptr()[n1_idx], csr.row_ptr()[n1_idx + 1]);
    let n1_cols: Vec<usize> = csr.col_indices()[n1_start..n1_end].to_vec();
    assert!(n1_cols.contains(&csr.index_of(n2).unwrap()));
    assert!(n1_cols.contains(&csr.index_of(n3).unwrap()));

    // The entry n2 -> n3 carries the edge of weight 2.0.
    let n2_idx = csr.index_of(n2).unwrap();
    let (n2_start, n2_end) = (csr.row_ptr()[n2_idx], csr.row_ptr()[n2_idx + 1]);
    let n3_col_idx = csr.index_of(n3).unwrap();
    let n2_edge_pos = (n2_start..n2_end).find(|&idx| csr.col_indices()[idx] == n3_col_idx).unwrap();
    assert!((graph.weight(csr.edge_ids()[n2_edge_pos]) - 2.0).abs() < 1e-12);
}

#[test]
fn test_csr_transpose() {
    let (graph, nodes) = make_test_graph();
    let [n1, n2, n3, n4] = nodes;

    let csr = CsrMatrix::from_graph(&graph.edges, &[n1, n2, n3, n4]).unwrap();
    let transposed = csr.transpose();

    assert_eq!(transposed.num_nodes(), 4);
    assert_eq!(transposed.nnz(), 4);

    // In the transpose, incoming edges become outgoing.
    assert_eq!(degree(&transposed, n1), 0);
    assert_eq!(degree(&transposed, n2), 1);
    assert_eq!(degree(&transposed, n3), 2);
    assert_eq!(degree(&transposed, n4), 1);

    // Transposing twice gives back the starting structure.
    let double_t = transposed.transpose();
    assert_eq!(double_t.row_ptr(), csr.row_ptr());
    for i in 0..csr.num_nodes() {
        let mut orig_pairs: Vec<(usize, i64)> = (csr.row_ptr()[i]..csr.row_ptr()[i + 1])
            .map(|idx| (csr.col_indices()[idx], (graph.weight(csr.edge_ids()[idx]) * 1e12) as i64))
            .collect();
        let mut dt_pairs: Vec<(usize, i64)> = (double_t.row_ptr()[i]..double_t.row_ptr()[i + 1])
            .map(|idx| {
                (double_t.col_indices()[idx], (graph.weight(double_t.edge_ids()[idx]) * 1e12) as i64)
            })
            .collect();
        orig_pairs.sort();
        dt_pairs.sort();
        assert_eq!(orig_pairs, dt_pairs, "row {} mismatch after double transpose", i);
    }
}

#[test]
fn test_csr_out_degrees() {
    let (graph, nodes) = make_test_graph();
    let [n1, n2, n3, n4] = nodes;

    let csr = CsrMatrix::from_graph(&graph.edges, &[n1, n2, n3, n4]).unwrap();
    let degrees = csr.out_degrees();

    assert_eq!(degrees[csr.index_of(n1).unwrap()], 2); // n1 -> n2, n3
    assert_eq!(degrees[csr.index_of(n2).unwrap()], 1); // n2 -> n3
    assert_eq!(degrees[csr.index_of(n3).unwrap()], 1); // n3 -> n4
    assert_eq!(degrees[csr.index_of(n4).unwrap()], 0); // no outgoing
}

#[test]
fn test_csr_empty_graph() {
    let g = TestGraph::new();
    let csr = CsrMatrix::from_graph(&g.edges, &[]).unwrap();

    assert_eq!(csr.num_nodes(), 0);
    assert_eq!(csr.nnz(), 0);
    assert_eq!(*csr.row_ptr(), vec![0]);
    assert!(csr.col_indices().is_empty());
    assert!(csr.edge_ids().is_empty());
}

#[test]
fn test_csr_single_node_no_edges() {
    let g = TestGraph::new();
    let n1 = NodeId(1);

    let csr = CsrMatrix::from_graph(&g.edges, &[n1]).unwrap();

    assert_eq!(csr.num_nodes(), 1);
    assert_eq!(csr.nnz(), 0);
    assert_eq!(*csr.row_ptr(), vec![0, 0]);
}

#[test]
fn csr_keeps_only_edges_inside_the_node_set() {
    let (graph, nodes) = make_test_graph();
    let [n1, _n2, n3, n4] = nodes;
    let csr = CsrMatrix::from_graph(&graph.edges, &[n1, n3, n4]).unwrap();
    assert_eq!(*csr.row_ptr(), vec![0, 1, 2, 2]);
    assert_eq!(*csr.col_indices(), vec![1, 2]);
    assert_eq!(*csr.edge_ids(), vec![EdgeId(4), EdgeId(3)]);
    assert_eq!(csr.index_of(NodeId(2)), None);
}

#[test]
fn csr_indexes_a_repeated_node_by_its_last_position() {
    let (graph, _) = make_test_graph();
    let csr = CsrMatrix::from_graph(&graph.edges, &[NodeId(3), NodeId(4), NodeId(3)]).unwrap();
    assert_eq!(csr.index_of(NodeId(3)), Some(2));
    assert_eq!(*csr.row_ptr(), vec![0, 1, 1, 2]);
    assert_eq!(*csr.col_indices(), vec![1, 1]);
}

fn levels_by_node(levels: Vec<(NodeId, i32)>) -> HashMap<NodeId, i32> {
    levels.into_iter().collect()
}

#[test]
fn test_cpu_bfs_levels() {
    let (graph, nodes) = make_test_graph();
    let [n1, n2, n3, n4] = nodes;

    let csr = CsrMatrix::from_graph(&graph.edges, &[n1, n2, n3, n4]).unwrap();
    let backend = CpuBackend::new();

    let source_idx = csr.index_of(n1).unwrap();
    let levels = levels_by_node(backend.bfs(&csr, source_idx));
    assert_eq!(levels[&n1], 0);
    assert_eq!(levels[&n2], 1);
    assert_eq!(levels[&n3], 1);
    assert_eq!(levels[&n4], 2);
}

#[test]
fn test_cpu_bfs_unreachable() {
    // A disconnected graph: n1->n2, n3 (isolated).
    let mut g = TestGraph::new();
    let (n1, n2, n3) = (NodeId(1), NodeId(2), NodeId(3));
    g.add_edge(n1, n2, 1.0);

    let csr = CsrMatrix::from_graph(&g.edges, &[n1, n2, n3]).unwrap();
    let backend = CpuBackend::new();

    let source_idx = csr.index_of(n1).unwrap();
    let levels = levels_by_node(backend.bfs(&csr, source_idx));
    assert_eq!(levels[&n1], 0);
    assert_eq!(levels[&n2], 1);
    assert_eq!(levels[&n3], -1); // unreachable
}

#[test]
fn test_cpu_bfs_from_middle() {
    let (graph, nodes) = make_test_graph();
    let [n1, n2, n3, n4] = nodes;

    let csr = CsrMatrix::from_graph(&graph.edges, &[n1, n2, n3, n4]).unwrap();
    let backend = CpuBackend::new();

    let source_idx = csr.index_of(n2).unwrap();
    let levels = levels_by_node(backend.bfs(&csr, source_idx));
    assert_eq!(levels[&n1], -1);
    assert_eq!(levels[&n2], 0);
    assert_eq!(levels[&n3], 1);
    assert_eq!(levels[&n4], 2);
}

#[test]
fn cpu_bfs_invalid_source_reaches_nothing() {
    let (graph, nodes) = make_test_graph();
    let csr = CsrMatrix::from_graph(&graph.edges, &nodes).unwrap();
    let levels = CpuBackend::new().bfs(&csr, 7);
    assert!(levels.iter().all(|&(_, l)| l == -1));
    assert_eq!(levels.len(), 4);
}

#[test]
fn raw_layout_helpers() {
    // Rows: 0 -> {1, 2}, 1 -> {2}, 2 -> {}
    let row_ptr = vec![0usize, 2, 3, 3];
    let col = vec![1usize, 2, 2];
    assert_eq!(csr_out_degrees(3, &row_ptr), vec![2, 1, 0]);
    let t = csr_transpose(3, &row_ptr, &col);
    assert_eq!(t.row_ptr, vec![0, 0, 1, 3]);
    assert_eq!(t.col_indices, vec![0, 0, 1]);
    assert_eq!(t.source_entry, vec![0, 1, 2]);
    assert_eq!(csr_bfs_levels(3, &row_ptr, &col, 0), vec![0, 1, 1]);
    assert_eq!(csr_bfs_levels(3, &row_ptr, &col, 2), vec![-1, -1, 0]);
}

#[test]
fn csr_both_directions_lists_every_incident_edge() {
    let (graph, nodes) = make_test_graph();
    let [n1, n2, n3, n4] = nodes;
    let csr = CsrMatrix::from_graph_directed(&graph.edges, &[n1, n2, n3, n4], Direction::Both).unwrap();
    // Each edge shows up in the rows of both its ends.
    assert_eq!(csr.nnz(), 8);
    assert_eq!(csr.row_ptr(), &vec![0, 2, 4, 7, 8]);
    // Row of n3: edges 2 (from n2), 3 (to n4), 4 (from n1), in edge order.
    assert_eq!(&csr.col_indices()[4..7], &[1, 3, 0]);
    assert_eq!(&csr.edge_ids()[4..7], &[EdgeId(2), EdgeId(3), EdgeId(4)]);
}

#[test]
fn csr_incoming_matches_transpose_rows() {
    let (graph, nodes) = make_test_graph();
    let incoming = CsrMatrix::from_graph_directed(&graph.edges, &nodes, Direction::Incoming).unwrap();
    let transposed = CsrMatrix::from_graph(&graph.edges, &nodes).unwrap().transpose();
    // Same in-degrees; within a row the incoming read keeps edge order.
    assert_eq!(incoming.row_ptr(), transposed.row_ptr());
    assert_eq!(incoming.row_ptr(), &vec![0, 0, 1, 3, 4]);
    assert_eq!(incoming.col_indices(), &vec![0, 1, 0, 2]);
}
