//! The CPU compute backend.

use vstd::prelude::*;

use crate::csr::{csr_bfs_levels, csr_edge, level_of, CsrMatrix};
use crate::reach::is_dist;
use crate::types::NodeId;

verus! {

/// CPU-based compute backend (fallback when GPU is not available).
#[derive(Debug, Clone, Copy, PartialEq, Eq, Structural)]
pub struct CpuBackend;

impl CpuBackend {
    /// The CPU backend.
    pub fn new() -> (r: Self)
        ensures
            r == CpuBackend,
    {
        CpuBackend
    }

    /// The backend's name, `CPU`.
    pub fn name(&self) -> (r: &'static str)
        ensures
            r@ == "CPU"@,
    {
        "CPU"
    }

    /// The CPU backend is always available.
    pub fn is_available(&self) -> (r: bool)
        ensures
            r,
    {
        true
    }

    /// Breadth-first levels over the matrix from row `source`, by node:
    /// each node with its shortest distance from the source, or -1 when it
    /// cannot be reached (every node is -1 when `source` is not a row).
    pub fn bfs(&self, matrix: &CsrMatrix, source: usize) -> (r: Vec<(NodeId, i32)>)
        requires
            source < matrix.node_seq().len() ==> forall|v: int, d: nat|
                #[trigger] is_dist(csr_edge(matrix.row_seq(), matrix.col_seq()), source as int, v, d)
                    ==> d < i32::MAX,
        ensures
            r@.len() == matrix.node_seq().len(),
            forall|i: int|
                0 <= i < r@.len() ==> (#[trigger] r@[i]).0 == matrix.node_seq()[i] && (source
                    >= r@.len() ==> r@[i].1 == -1) && (source < r@.len() ==> level_of(
                    csr_edge(matrix.row_seq(), matrix.col_seq()),
                    source as int,
                    i,
                    r@[i].1,
                )),
    {
        let n = matrix.num_nodes();
        let levels = csr_bfs_levels(n, matrix.row_ptr(), matrix.col_indices(), source);
        let nodes = matrix.index_to_node();
        let mut out: Vec<(NodeId, i32)> = Vec::new();
        let mut i: usize = 0;
        while i < n
            invariant
                i <= n,
                n == matrix.node_seq().len(),
                nodes@ == matrix.node_seq(),
                levels@.len() == n,
                source >= n ==> forall|v: int| 0 <= v < n ==> levels@[v] == -1,
                source < n ==> forall|v: int|
                    0 <= v < n ==> level_of(
                        csr_edge(matrix.row_seq(), matrix.col_seq()),
                        source as int,
                        v,
                        #[trigger] levels@[v],
                    ),
                out@.len() == i,
                forall|j: int| 0 <= j < i ==> #[trigger] out@[j] == (nodes@[j], levels@[j]),
            decreases n - i,
        {
            out.push((nodes[i], levels[i]));
            i = i + 1;
        }
        out
    }
}

impl Default for CpuBackend {
    fn default() -> (r: Self) {
        Self::new()
    }
}

} // verus!
