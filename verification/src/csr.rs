//! Compressed-sparse-row topology of a graph's adjacency matrix, and the
//! integer algorithms the compute backend runs on it: out-degrees,
//! transposition and breadth-first levels.

use std::collections::HashMap;

use vstd::prelude::*;
use vstd::set_lib::{lemma_int_range, set_int_range};

use crate::error::AstraeaError;
use crate::traversal::{neighbor_entry, neighbors, EdgeLink, EdgeSource};
use crate::types::{Direction, EdgeId, NodeId};

use crate::reach::{
    is_dist, lemma_dist_layer, lemma_dist_pred, lemma_dist_unique, lemma_has_dist,
    lemma_walk_pred, lemma_walk_step, reachable, unreached_within, walk_of_len,
};

verus! {

/// `row_ptr` and `col` form a CSR layout of `n` rows: `row_ptr` has `n + 1`
/// non-decreasing entries, its last entry is within `col`, and every column
/// index stored in a row names a row.
pub open spec fn csr_wf(n: nat, row_ptr: Seq<usize>, col: Seq<usize>) -> bool {
    &&& row_ptr.len() == n + 1
    &&& forall|i: int, j: int| 0 <= i <= j <= n ==> row_ptr[i] <= row_ptr[j]
    &&& row_ptr[n as int] <= col.len()
    &&& forall|idx: int| row_ptr[0] <= idx < row_ptr[n as int] ==> col[idx] < n
}

/// Row `u` stores column `v`: the edge `u -> v` of the graph.
pub open spec fn csr_edge(row_ptr: Seq<usize>, col: Seq<usize>) -> spec_fn(int, int) -> bool {
    |u: int, v: int|
        0 <= u < row_ptr.len() - 1 && exists|idx: int| row_ptr[u] <= idx < row_ptr[u + 1] && col[idx] == v
}

/// The BFS level of `v` from `s`: its shortest distance, or -1 when `v`
/// cannot be reached.
pub open spec fn level_of(edge: spec_fn(int, int) -> bool, s: int, v: int, level: i32) -> bool {
    if level >= 0 {
        is_dist(edge, s, v, level as nat)
    } else {
        level == -1 && !reachable(edge, s, v)
    }
}

/// Nodes at a finite distance from a node of a well-formed layout are rows.
pub proof fn lemma_dist_in_range(n: nat, row_ptr: Seq<usize>, col: Seq<usize>, s: int, v: int, d: nat)
    requires
        csr_wf(n, row_ptr, col),
        0 <= s < n,
        is_dist(csr_edge(row_ptr, col), s, v, d),
    ensures
        0 <= v < n,
{
    if d > 0 {
        let u = lemma_dist_pred(csr_edge(row_ptr, col), s, v, (d - 1) as nat);
        let idx = choose|idx: int| row_ptr[u] <= idx < row_ptr[u + 1] && col[idx] == v;
        assert(row_ptr[0] <= row_ptr[u]);
        assert(row_ptr[u + 1] <= row_ptr[n as int]);
    }
}

/// Number of entries of each row.
pub fn csr_out_degrees(num_nodes: usize, row_ptr: &Vec<usize>) -> (r: Vec<usize>)
    requires
        row_ptr@.len() == num_nodes + 1,
        forall|i: int, j: int| 0 <= i <= j <= num_nodes ==> row_ptr@[i] <= row_ptr@[j],
    ensures
        r@.len() == num_nodes,
        forall|i: int| 0 <= i < num_nodes ==> #[trigger] r@[i] == row_ptr@[i + 1] - row_ptr@[i],
{
    let mut out: Vec<usize> = Vec::new();
    let mut i: usize = 0;
    while i < num_nodes
        invariant
            i <= num_nodes,
            row_ptr@.len() == num_nodes + 1,
            forall|a: int, b: int| 0 <= a <= b <= num_nodes ==> row_ptr@[a] <= row_ptr@[b],
            out@.len() == i,
            forall|j: int| 0 <= j < i ==> #[trigger] out@[j] == row_ptr@[j + 1] - row_ptr@[j],
        decreases num_nodes - i,
    {
        out.push(row_ptr[i + 1] - row_ptr[i]);
        i = i + 1;
    }
    out
}

/// The entry positions before `m` that store column `c`, in order.
pub open spec fn column_entries(col: Seq<usize>, c: int, m: int) -> Seq<usize>
    decreases m,
{
    if m <= 0 {
        Seq::empty()
    } else {
        let e = column_entries(col, c, m - 1);
        if col[m - 1] == c {
            e.push((m - 1) as usize)
        } else {
            e
        }
    }
}

/// The number of entry positions before `m` that store a column below `c`.
pub open spec fn count_below(col: Seq<usize>, c: int, m: int) -> nat
    decreases m,
{
    if m <= 0 {
        0
    } else {
        count_below(col, c, m - 1) + if col[m - 1] < c { 1nat } else { 0nat }
    }
}

proof fn lemma_count_below_step(col: Seq<usize>, c: int, m: int)
    requires
        0 <= m <= col.len(),
    ensures
        count_below(col, c + 1, m) == count_below(col, c, m) + column_entries(col, c, m).len(),
    decreases m,
{
    if m > 0 {
        lemma_count_below_step(col, c, m - 1);
    }
}

proof fn lemma_count_below_bounds(col: Seq<usize>, c: int, d: int, m: int)
    requires
        0 <= m <= col.len(),
        c <= d,
    ensures
        count_below(col, c, m) <= count_below(col, d, m),
        count_below(col, c, m) <= m,
    decreases m,
{
    if m > 0 {
        lemma_count_below_bounds(col, c, d, m - 1);
    }
}

proof fn lemma_count_below_all(col: Seq<usize>, n: int, m: int)
    requires
        0 <= m <= col.len(),
        forall|idx: int| 0 <= idx < m ==> col[idx] < n,
    ensures
        count_below(col, n, m) == m,
    decreases m,
{
    if m > 0 {
        lemma_count_below_all(col, n, m - 1);
    }
}

proof fn lemma_column_entries_prefix(col: Seq<usize>, c: int, m: int, k: int)
    requires
        0 <= m <= k <= col.len(),
    ensures
        column_entries(col, c, m).len() <= column_entries(col, c, k).len(),
        column_entries(col, c, k).subrange(0, column_entries(col, c, m).len() as int) == column_entries(col, c, m),
    decreases k - m,
{
    if m < k {
        lemma_column_entries_prefix(col, c, m, k - 1);
        let e = column_entries(col, c, k - 1);
        let em = column_entries(col, c, m);
        assert(column_entries(col, c, k).subrange(0, em.len() as int) =~= e.subrange(0, em.len() as int));
    } else {
        assert(column_entries(col, c, k).subrange(0, column_entries(col, c, m).len() as int) =~= column_entries(col, c, m));
    }
}

proof fn lemma_column_entries_bounds(col: Seq<usize>, c: int, m: int)
    requires
        0 <= m <= col.len(),
        col.len() <= usize::MAX,
    ensures
        forall|t: int| 0 <= t < column_entries(col, c, m).len() ==> {
            &&& 0 <= #[trigger] column_entries(col, c, m)[t] < m
            &&& col[column_entries(col, c, m)[t] as int] == c
        },
    decreases m,
{
    if m > 0 {
        lemma_column_entries_bounds(col, c, m - 1);
        let prev = column_entries(col, c, m - 1);
        let cur = column_entries(col, c, m);
        if col[m - 1] == c {
            assert(cur == prev.push((m - 1) as usize));
        } else {
            assert(cur == prev);
        }
        assert forall|t: int| 0 <= t < column_entries(col, c, m).len() implies {
            &&& 0 <= #[trigger] column_entries(col, c, m)[t] < m
            &&& col[column_entries(col, c, m)[t] as int] == c
        } by {
            if t < prev.len() {
                assert(column_entries(col, c, m)[t] == prev[t]);
                assert(0 <= prev[t] < m - 1);
            }
        }
    }
}

proof fn lemma_count_below_zero(col: Seq<usize>, m: int)
    ensures
        count_below(col, 0, m) == 0,
    decreases m,
{
    if m > 0 {
        lemma_count_below_zero(col, m - 1);
    }
}

/// The transpose of a CSR layout: its row pointers and column indices, and
/// for each of its entries the position of the entry of the input layout
/// it comes from (so that parallel value arrays can be carried over).
pub struct CsrTranspose {
    pub row_ptr: Vec<usize>,
    pub col_indices: Vec<usize>,
    pub source_entry: Vec<usize>,
}

/// `t` is the transpose of the layout `(row_ptr, col)` of `n` rows: its row
/// pointers count the entries of lower columns, its row `c` lists the
/// input entries of column `c` in order, and each of its entries names the
/// input row of the entry it comes from.
pub open spec fn transposes(n: nat, row_ptr: Seq<usize>, col: Seq<usize>, t: CsrTranspose) -> bool {
    transposes_to(n, row_ptr, col, t.row_ptr@, t.col_indices@, t.source_entry@)
}

/// `(trp, tcol)` is the transpose of the layout `(row_ptr, col)` of `n` rows,
/// `src` giving for each of its entries the input entry it comes from.
pub open spec fn transposes_to(
    n: nat,
    row_ptr: Seq<usize>,
    col: Seq<usize>,
    trp: Seq<usize>,
    tcol: Seq<usize>,
    src: Seq<usize>,
) -> bool {
    &&& trp.len() == n + 1
    &&& forall|c: int| 0 <= c <= n ==> #[trigger] trp[c] == count_below(col, c, col.len() as int)
    &&& tcol.len() == col.len()
    &&& src.len() == col.len()
    &&& forall|c: int| 0 <= c < n ==>
        #[trigger] src.subrange(trp[c] as int, trp[c + 1] as int)
            == column_entries(col, c, col.len() as int)
    &&& forall|p: int| 0 <= p < col.len() ==> {
        &&& #[trigger] tcol[p] < n
        &&& row_ptr[tcol[p] as int] <= src[p] < row_ptr[tcol[p] + 1]
    }
}

/// Transpose a CSR layout whose entries exactly fill its rows: row `c` of the
/// result lists, in order, the input entries that store column `c`, each
/// giving the input row it belongs to.
pub fn csr_transpose(num_nodes: usize, row_ptr: &Vec<usize>, col_indices: &Vec<usize>) -> (r: CsrTranspose)
    requires
        csr_wf(num_nodes as nat, row_ptr@, col_indices@),
        row_ptr@[0] == 0,
        row_ptr@[num_nodes as int] == col_indices@.len(),
    ensures
        transposes(num_nodes as nat, row_ptr@, col_indices@, r),
{
    let n = num_nodes;
    let nnz = col_indices.len();
    let ghost col = col_indices@;
    // Count entries per column.
    let mut col_counts: Vec<usize> = Vec::new();
    let mut c: usize = 0;
    while c < n
        invariant
            c <= n,
            col_counts@.len() == c,
            forall|k: int| 0 <= k < c ==> col_counts@[k] == 0,
        decreases n - c,
    {
        col_counts.push(0);
        c = c + 1;
    }
    let mut idx: usize = 0;
    while idx < nnz
        invariant
            nnz == col.len(),
            col == col_indices@,
            csr_wf(n as nat, row_ptr@, col),
            row_ptr@[0] == 0,
            row_ptr@[n as int] == nnz,
            idx <= nnz,
            col_counts@.len() == n,
            forall|k: int| 0 <= k < n ==> #[trigger] col_counts@[k] == column_entries(col, k, idx as int).len(),
            forall|k: int| 0 <= k < n ==> col_counts@[k] <= idx,
        decreases nnz - idx,
    {
        let cc = col_indices[idx];
        let updated = col_counts[cc] + 1;
        col_counts.set(cc, updated);
        idx = idx + 1;
    }
    // Prefix sums give the transposed row pointers.
    let mut t_row_ptr: Vec<usize> = Vec::new();
    t_row_ptr.push(0);
    proof { lemma_count_below_zero(col, nnz as int); }
    let mut c2: usize = 0;
    while c2 < n
        invariant
            nnz == col.len(),
            col == col_indices@,
            c2 <= n,
            col_counts@.len() == n,
            forall|k: int| 0 <= k < n ==> #[trigger] col_counts@[k] == column_entries(col, k, nnz as int).len(),
            t_row_ptr@.len() == c2 + 1,
            forall|k: int| 0 <= k <= c2 ==> #[trigger] t_row_ptr@[k] == count_below(col, k, nnz as int),
        decreases n - c2,
    {
        proof {
            lemma_count_below_step(col, c2 as int, nnz as int);
            lemma_count_below_bounds(col, c2 + 1, c2 + 1, nnz as int);
        }
        let last = t_row_ptr[c2];
        t_row_ptr.push(last + col_counts[c2]);
        c2 = c2 + 1;
    }
    proof {
        assert forall|k: int, l: int| 0 <= k <= l <= n implies t_row_ptr@[k] <= t_row_ptr@[l] by {
            lemma_count_below_bounds(col, k, l, nnz as int);
        }
        lemma_count_below_all(col, n as int, nnz as int);
    }
    // Place each entry in its column's segment.
    let mut t_col: Vec<usize> = Vec::new();
    let mut source_entry: Vec<usize> = Vec::new();
    let mut z: usize = 0;
    while z < nnz
        invariant
            z <= nnz,
            t_col@.len() == z,
            source_entry@.len() == z,
        decreases nnz - z,
    {
        t_col.push(0);
        source_entry.push(0);
        z = z + 1;
    }
    let mut write_pos: Vec<usize> = Vec::new();
    let mut w: usize = 0;
    while w < n
        invariant
            w <= n,
            write_pos@.len() == w,
            forall|k: int| 0 <= k < w ==> write_pos@[k] == 0,
        decreases n - w,
    {
        write_pos.push(0);
        w = w + 1;
    }
    proof {
        assert forall|k: int| 0 <= k < n implies #[trigger] write_pos@[k] == column_entries(col, k, 0).len() by {}
        assert forall|k: int| 0 <= k < n implies #[trigger] source_entry@.subrange(t_row_ptr@[k] as int, t_row_ptr@[k] + write_pos@[k])
            == column_entries(col, k, row_ptr@[0] as int) by {
            assert(t_row_ptr@[k] <= t_row_ptr@[n as int]);
            assert(source_entry@.subrange(t_row_ptr@[k] as int, t_row_ptr@[k] + write_pos@[k]) =~= Seq::<usize>::empty());
        }
        assert forall|k: int| 0 <= k < n implies t_row_ptr@[k] + #[trigger] write_pos@[k] <= t_row_ptr@[k + 1] by {
            assert(t_row_ptr@[k] <= t_row_ptr@[k + 1]);
        }
    }
    let mut i: usize = 0;
    while i < n
        invariant
            nnz == col.len(),
            col == col_indices@,
            csr_wf(n as nat, row_ptr@, col),
            row_ptr@[0] == 0,
            row_ptr@[n as int] == nnz,
            i <= n,
            t_row_ptr@.len() == n + 1,
            forall|k: int| 0 <= k <= n ==> #[trigger] t_row_ptr@[k] == count_below(col, k, nnz as int),
            forall|k: int, l: int| 0 <= k <= l <= n ==> t_row_ptr@[k] <= t_row_ptr@[l],
            t_row_ptr@[n as int] == nnz,
            t_col@.len() == nnz,
            source_entry@.len() == nnz,
            write_pos@.len() == n,
            forall|k: int| 0 <= k < n ==> #[trigger] write_pos@[k] == column_entries(col, k, row_ptr@[i as int] as int).len(),
            forall|k: int| 0 <= k < n ==> t_row_ptr@[k] + #[trigger] write_pos@[k] <= t_row_ptr@[k + 1],
            forall|k: int| 0 <= k < n ==> #[trigger] source_entry@.subrange(t_row_ptr@[k] as int, t_row_ptr@[k] + write_pos@[k])
                == column_entries(col, k, row_ptr@[i as int] as int),
            forall|k: int, p: int| #![trigger t_col@[p], write_pos@[k]] 0 <= k < n && t_row_ptr@[k] <= p < t_row_ptr@[k] + write_pos@[k] ==> {
                &&& t_col@[p] < n
                &&& row_ptr@[t_col@[p] as int] <= source_entry@[p] < row_ptr@[t_col@[p] + 1]
            },
        decreases n - i,
    {
        let start = row_ptr[i];
        let end = row_ptr[i + 1];
        let mut e: usize = start;
        while e < end
            invariant
                nnz == col.len(),
                col == col_indices@,
                csr_wf(n as nat, row_ptr@, col),
                row_ptr@[0] == 0,
                row_ptr@[n as int] == nnz,
                i < n,
                start == row_ptr@[i as int],
                end == row_ptr@[i + 1],
                start <= e <= end,
                end <= nnz,
                t_row_ptr@.len() == n + 1,
                forall|k: int| 0 <= k <= n ==> #[trigger] t_row_ptr@[k] == count_below(col, k, nnz as int),
                forall|k: int, l: int| 0 <= k <= l <= n ==> t_row_ptr@[k] <= t_row_ptr@[l],
                t_row_ptr@[n as int] == nnz,
                t_col@.len() == nnz,
                source_entry@.len() == nnz,
                write_pos@.len() == n,
                forall|k: int| 0 <= k < n ==> #[trigger] write_pos@[k] == column_entries(col, k, e as int).len(),
                forall|k: int| 0 <= k < n ==> t_row_ptr@[k] + #[trigger] write_pos@[k] <= t_row_ptr@[k + 1],
                forall|k: int| 0 <= k < n ==> #[trigger] source_entry@.subrange(t_row_ptr@[k] as int, t_row_ptr@[k] + write_pos@[k])
                    == column_entries(col, k, e as int),
                forall|k: int, p: int| #![trigger t_col@[p], write_pos@[k]] 0 <= k < n && t_row_ptr@[k] <= p < t_row_ptr@[k] + write_pos@[k] ==> {
                    &&& t_col@[p] < n
                    &&& row_ptr@[t_col@[p] as int] <= source_entry@[p] < row_ptr@[t_col@[p] + 1]
                },
            decreases end - e,
        {
            let cc = col_indices[e];
            proof {
                assert(row_ptr@[0] <= e < row_ptr@[n as int]);
                lemma_count_below_step(col, cc as int, nnz as int);
                lemma_column_entries_prefix(col, cc as int, e + 1, nnz as int);
                assert(t_row_ptr@[cc + 1] == t_row_ptr@[cc as int] + column_entries(col, cc as int, nnz as int).len());
            }
            let dest = t_row_ptr[cc] + write_pos[cc];
            let ghost old_src = source_entry@;
            let ghost old_tcol = t_col@;
            let ghost old_wp = write_pos@;
            t_col.set(dest, i);
            source_entry.set(dest, e);
            let updated = write_pos[cc] + 1;
            write_pos.set(cc, updated);
            proof {
                assert(column_entries(col, cc as int, e + 1) == column_entries(col, cc as int, e as int).push(e));
                assert(source_entry@ == old_src.update(dest as int, e));
                assert(t_col@ == old_tcol.update(dest as int, i));
                assert forall|k: int| 0 <= k < n && k != cc as int implies
                    (dest as int) < t_row_ptr@[k] || t_row_ptr@[k] + old_wp[k] <= dest as int by {
                    if k < cc {
                        assert(t_row_ptr@[k + 1] <= t_row_ptr@[cc as int]);
                    } else {
                        assert(t_row_ptr@[cc + 1] <= t_row_ptr@[k]);
                    }
                }
                assert forall|k: int| 0 <= k < n implies #[trigger] source_entry@.subrange(t_row_ptr@[k] as int, t_row_ptr@[k] + write_pos@[k])
                    == column_entries(col, k, e + 1) by {
                    if k == cc as int {
                        assert(source_entry@.subrange(t_row_ptr@[k] as int, t_row_ptr@[k] + write_pos@[k])
                            =~= old_src.subrange(t_row_ptr@[k] as int, t_row_ptr@[k] + old_wp[k]).push(e));
                    } else {
                        assert(source_entry@.subrange(t_row_ptr@[k] as int, t_row_ptr@[k] + write_pos@[k])
                            =~= old_src.subrange(t_row_ptr@[k] as int, t_row_ptr@[k] + old_wp[k]));
                    }
                }
                assert forall|k: int, p: int| #![trigger t_col@[p], write_pos@[k]] 0 <= k < n && t_row_ptr@[k] <= p < t_row_ptr@[k] + write_pos@[k] implies {
                    &&& t_col@[p] < n
                    &&& row_ptr@[t_col@[p] as int] <= source_entry@[p] < row_ptr@[t_col@[p] + 1]
                } by {
                    if p != dest as int {
                        if k == cc as int {
                            assert(t_row_ptr@[k] <= p < t_row_ptr@[k] + old_wp[k]);
                        }
                        assert(old_wp[k] <= write_pos@[k]);
                        assert(t_col@[p] == old_tcol[p]);
                        assert(source_entry@[p] == old_src[p]);
                        assert(old_tcol[p] < n);
                    }
                }
            }
            e = e + 1;
        }
        i = i + 1;
    }
    proof {
        assert(row_ptr@[i as int] == nnz);
        assert forall|k: int| 0 <= k < n implies #[trigger] source_entry@.subrange(t_row_ptr@[k] as int, t_row_ptr@[k + 1] as int)
            == column_entries(col, k, nnz as int) by {
            lemma_count_below_step(col, k, nnz as int);
            assert(write_pos@[k] == column_entries(col, k, nnz as int).len());
            assert(t_row_ptr@[k + 1] == t_row_ptr@[k] + write_pos@[k]);
        }
        lemma_count_below_zero(col, nnz as int);
        assert forall|p: int| 0 <= p < nnz implies {
            &&& #[trigger] t_col@[p] < n
            &&& row_ptr@[t_col@[p] as int] <= source_entry@[p] < row_ptr@[t_col@[p] + 1]
        } by {
            let k = segment_of(t_row_ptr@, n as int, p);
            lemma_count_below_step(col, k, nnz as int);
            assert(write_pos@[k] == column_entries(col, k, nnz as int).len());
            assert(t_row_ptr@[k] <= p < t_row_ptr@[k] + write_pos@[k]);
        }
    }
    CsrTranspose { row_ptr: t_row_ptr, col_indices: t_col, source_entry }
}

proof fn lemma_column_entries_contains(col: Seq<usize>, c: int, m: int, e: int)
    requires
        0 <= e < m <= col.len(),
        col.len() <= usize::MAX,
        col[e] == c,
    ensures
        column_entries(col, c, m).contains(e as usize),
    decreases m,
{
    if e < m - 1 {
        lemma_column_entries_contains(col, c, m - 1, e);
        let prev = column_entries(col, c, m - 1);
        let t = choose|t: int| 0 <= t < prev.len() && prev[t] == e as usize;
        if col[m - 1] == c {
            assert(column_entries(col, c, m)[t] == e as usize);
        }
    } else {
        let cur = column_entries(col, c, m);
        assert(cur[cur.len() - 1] == e as usize);
    }
}

/// Transposition reverses every edge: the transpose has the edge `u -> v`
/// exactly when the input layout has the edge `v -> u`.
pub proof fn lemma_transpose_reverses_edges(n: nat, row_ptr: Seq<usize>, col: Seq<usize>, trp: Seq<usize>, tcol: Seq<usize>, src: Seq<usize>, u: int, v: int)
    requires
        csr_wf(n, row_ptr, col),
        row_ptr[0] == 0,
        row_ptr[n as int] == col.len(),
        col.len() <= usize::MAX,
        transposes_to(n, row_ptr, col, trp, tcol, src),
    ensures
        csr_edge(trp, tcol)(u, v) == csr_edge(row_ptr, col)(v, u),
{
    let nnz = col.len() as int;
    lemma_count_below_all(col, n as int, nnz);
    lemma_count_below_zero(col, nnz);
    assert forall|a: int, b: int| 0 <= a <= b <= n implies trp[a] <= trp[b] by {
        lemma_count_below_bounds(col, a, b, nnz);
    }
    if csr_edge(trp, tcol)(u, v) {
        let p = choose|p: int| trp[u] <= p < trp[u + 1] && tcol[p] == v;
        assert(trp[u + 1] <= trp[n as int]);
        let seg = src.subrange(trp[u] as int, trp[u + 1] as int);
        lemma_column_entries_bounds(col, u, nnz);
        let e = src[p];
        assert(seg[p - trp[u]] == e);
        assert(col[e as int] == u);
        assert(row_ptr[v] <= e < row_ptr[v + 1]);
        assert(csr_edge(row_ptr, col)(v, u));
    }
    if csr_edge(row_ptr, col)(v, u) {
        let e = choose|e: int| row_ptr[v] <= e < row_ptr[v + 1] && col[e] == u;
        assert(row_ptr[v + 1] <= row_ptr[n as int]);
        assert(col[e] < n);
        lemma_column_entries_contains(col, u, nnz, e);
        let entries = column_entries(col, u, nnz);
        let k = choose|k: int| 0 <= k < entries.len() && entries[k] == e as usize;
        let seg = src.subrange(trp[u] as int, trp[u + 1] as int);
        assert(trp[u] <= trp[u + 1]);
        assert(trp[u + 1] <= trp[n as int]);
        assert(trp[n as int] == nnz);
        assert(seg == entries);
        assert(seg[k] == e as usize);
        let p = trp[u] + k;
        assert(src[p] == e as usize);
        assert(trp[u + 1] <= trp[n as int]);
        let w = tcol[p] as int;
        assert(row_ptr[w] <= e < row_ptr[w + 1]);
        if w < v {
            assert(row_ptr[w + 1] <= row_ptr[v]);
        } else if w > v {
            assert(row_ptr[v + 1] <= row_ptr[w]);
        }
        assert(csr_edge(trp, tcol)(u, v));
    }
}

/// The segment `[rp[k], rp[k + 1])` of non-decreasing row pointers that holds `p`.
proof fn segment_of(rp: Seq<usize>, n: int, p: int) -> (k: int)
    requires
        rp.len() == n + 1,
        n >= 0,
        forall|a: int, b: int| 0 <= a <= b <= n ==> rp[a] <= rp[b],
        rp[0] <= p < rp[n],
    ensures
        0 <= k < n,
        rp[k] <= p < rp[k + 1],
    decreases n,
{
    if p >= rp[n - 1] {
        n - 1
    } else {
        segment_of(rp.subrange(0, n), n - 1, p)
    }
}

/// Breadth-first levels from row `source`: each row's shortest distance from
/// the source, or -1 when it cannot be reached (every row is -1 when the
/// source is not a row).
pub fn csr_bfs_levels(num_nodes: usize, row_ptr: &Vec<usize>, col_indices: &Vec<usize>, source: usize) -> (levels: Vec<i32>)
    requires
        csr_wf(num_nodes as nat, row_ptr@, col_indices@),
        source < num_nodes ==> forall|v: int, d: nat|
            #[trigger] is_dist(csr_edge(row_ptr@, col_indices@), source as int, v, d) ==> d < i32::MAX,
    ensures
        levels@.len() == num_nodes,
        source >= num_nodes ==> forall|v: int| 0 <= v < num_nodes ==> levels@[v] == -1,
        source < num_nodes ==> forall|v: int| 0 <= v < num_nodes
            ==> level_of(csr_edge(row_ptr@, col_indices@), source as int, v, #[trigger] levels@[v]),
{
    let n = num_nodes;
    let ghost edge = csr_edge(row_ptr@, col_indices@);
    let ghost s = source as int;
    let mut levels: Vec<i32> = Vec::new();
    let mut i: usize = 0;
    while i < n
        invariant
            i <= n,
            levels@.len() == i,
            forall|j: int| 0 <= j < i ==> levels@[j] == -1,
        decreases n - i,
    {
        levels.push(-1);
        i = i + 1;
    }
    if source >= n {
        return levels;
    }
    levels.set(source, 0);
    let mut frontier: Vec<usize> = Vec::new();
    frontier.push(source);
    let mut current_level: i32 = 0;
    let ghost mut unlabeled: Set<int> = Set::new(|v: int| 0 <= v < n && levels@[v] == -1);
    proof {
        lemma_int_range(0, n as int);
        vstd::set_lib::lemma_len_subset(unlabeled, set_int_range(0, n as int));
        assert(walk_of_len(edge, s, s, 0));
        assert forall|v: int| 0 <= v < n && #[trigger] levels@[v] == current_level implies frontier@.contains(v as usize) by {
            if v != s {
                assert(levels@[v] == -1);
            } else {
                assert(frontier@[0] == source);
            }
        }
        assert forall|v: int| 0 <= v < n && levels@[v] == -1 implies unreached_within(edge, s, v, 0) by {
            assert forall|j: nat| j <= 0 implies !#[trigger] walk_of_len(edge, s, v, j) by {
                assert(v != s);
            }
        }
    }
    while frontier.len() > 0
        invariant
            n == num_nodes,
            s == source as int,
            source < n,
            edge == csr_edge(row_ptr@, col_indices@),
            csr_wf(n as nat, row_ptr@, col_indices@),
            forall|v: int, d: nat| #[trigger] is_dist(edge, s, v, d) ==> d < i32::MAX,
            levels@.len() == n,
            current_level >= 0,
            forall|v: int| 0 <= v < n ==> -1 <= #[trigger] levels@[v] <= current_level,
            forall|v: int| 0 <= v < n && #[trigger] levels@[v] >= 0 ==> is_dist(edge, s, v, levels@[v] as nat),
            forall|v: int| 0 <= v < n && #[trigger] levels@[v] == -1 ==> unreached_within(edge, s, v, current_level as nat),
            forall|t: int| 0 <= t < frontier@.len() ==> #[trigger] frontier@[t] < n && levels@[frontier@[t] as int] == current_level,
            forall|v: int| 0 <= v < n && #[trigger] levels@[v] == current_level ==> frontier@.contains(v as usize),
            unlabeled == Set::new(|v: int| 0 <= v < n && levels@[v] == -1),
            unlabeled.finite(),
        decreases unlabeled.len() + if frontier@.len() > 0 { 1nat } else { 0nat },
    {
        let ghost lvl = current_level;
        let ghost unlabeled_start = unlabeled;
        proof {
            let f = frontier@[0] as int;
            assert(levels@[f] == current_level);
        }
        current_level = current_level + 1;
        let mut next: Vec<usize> = Vec::new();
        let mut fi: usize = 0;
        while fi < frontier.len()
            invariant
                n == num_nodes,
                s == source as int,
                source < n,
                edge == csr_edge(row_ptr@, col_indices@),
                csr_wf(n as nat, row_ptr@, col_indices@),
                levels@.len() == n,
                current_level == lvl + 1,
                lvl >= 0,
                fi <= frontier@.len(),
                forall|v: int| 0 <= v < n ==> -1 <= #[trigger] levels@[v] <= current_level,
                forall|v: int| 0 <= v < n && #[trigger] levels@[v] >= 0 ==> is_dist(edge, s, v, levels@[v] as nat),
                forall|v: int| 0 <= v < n && #[trigger] levels@[v] == -1 ==> unreached_within(edge, s, v, lvl as nat),
                forall|t: int| 0 <= t < frontier@.len() ==> #[trigger] frontier@[t] < n && levels@[frontier@[t] as int] == lvl,
                forall|v: int| 0 <= v < n && #[trigger] levels@[v] == lvl ==> frontier@.contains(v as usize),
                forall|t: int| 0 <= t < next@.len() ==> #[trigger] next@[t] < n && levels@[next@[t] as int] == current_level,
                forall|v: int| 0 <= v < n && #[trigger] levels@[v] == current_level ==> next@.contains(v as usize),
                forall|t: int, w: int| 0 <= t < fi && #[trigger] edge(frontier@[t] as int, w) ==> levels@[w] != -1,
                unlabeled == Set::new(|v: int| 0 <= v < n && levels@[v] == -1),
                unlabeled.finite(),
                unlabeled.len() + next@.len() == unlabeled_start.len(),
            decreases frontier@.len() - fi,
        {
            let node = frontier[fi];
            let start = row_ptr[node];
            let end = row_ptr[node + 1];
            proof {
                assert(row_ptr@[0] <= row_ptr@[node as int]);
                assert(row_ptr@[node + 1] <= row_ptr@[n as int]);
            }
            let mut idx: usize = start;
            while idx < end
                invariant
                    n == num_nodes,
                    s == source as int,
                    edge == csr_edge(row_ptr@, col_indices@),
                    csr_wf(n as nat, row_ptr@, col_indices@),
                    levels@.len() == n,
                    current_level == lvl + 1,
                    lvl >= 0,
                    fi < frontier@.len(),
                    node == frontier@[fi as int],
                    node < n,
                    levels@[node as int] == lvl,
                    start == row_ptr@[node as int],
                    end == row_ptr@[node + 1],
                    row_ptr@[0] <= start <= idx <= end,
                    end <= row_ptr@[n as int],
                    forall|v: int| 0 <= v < n ==> -1 <= #[trigger] levels@[v] <= current_level,
                    forall|v: int| 0 <= v < n && #[trigger] levels@[v] >= 0 ==> is_dist(edge, s, v, levels@[v] as nat),
                    forall|v: int| 0 <= v < n && #[trigger] levels@[v] == -1 ==> unreached_within(edge, s, v, lvl as nat),
                    forall|t: int| 0 <= t < frontier@.len() ==> #[trigger] frontier@[t] < n && levels@[frontier@[t] as int] == lvl,
                    forall|v: int| 0 <= v < n && #[trigger] levels@[v] == lvl ==> frontier@.contains(v as usize),
                    forall|t: int| 0 <= t < next@.len() ==> #[trigger] next@[t] < n && levels@[next@[t] as int] == current_level,
                    forall|v: int| 0 <= v < n && #[trigger] levels@[v] == current_level ==> next@.contains(v as usize),
                    forall|t: int, w: int| 0 <= t < fi && #[trigger] edge(frontier@[t] as int, w) ==> levels@[w] != -1,
                    forall|p: int| start <= p < idx ==> levels@[#[trigger] col_indices@[p] as int] != -1,
                    unlabeled == Set::new(|v: int| 0 <= v < n && levels@[v] == -1),
                    unlabeled.finite(),
                    unlabeled.len() + next@.len() == unlabeled_start.len(),
                decreases end - idx,
            {
                let neighbor = col_indices[idx];
                if levels[neighbor] == -1 {
                    proof {
                        assert(edge(node as int, neighbor as int));
                        lemma_walk_step(edge, s, node as int, neighbor as int, lvl as nat);
                        assert(is_dist(edge, s, neighbor as int, current_level as nat));
                    }
                    let ghost old_next = next@;
                    levels.set(neighbor, current_level);
                    next.push(neighbor);
                    proof {
                        assert(unlabeled.contains(neighbor as int));
                        unlabeled = unlabeled.remove(neighbor as int);
                        assert(unlabeled =~= Set::new(|v: int| 0 <= v < n && levels@[v] == -1));
                        assert forall|v: int| 0 <= v < n && #[trigger] levels@[v] == current_level implies next@.contains(v as usize) by {
                            if v != neighbor as int {
                                assert(old_next.contains(v as usize));
                                let t = choose|t: int| 0 <= t < old_next.len() && old_next[t] == v as usize;
                                assert(next@[t] == v as usize);
                            } else {
                                assert(next@[next@.len() - 1] == v as usize);
                            }
                        }
                    }
                }
                idx = idx + 1;
            }
            proof {
                assert forall|t: int, w: int| 0 <= t < fi + 1 && #[trigger] edge(frontier@[t] as int, w) implies levels@[w] != -1 by {
                    if t == fi {
                        let p = choose|p: int| row_ptr@[frontier@[t] as int] <= p < row_ptr@[frontier@[t] + 1] && col_indices@[p] == w;
                        assert(levels@[col_indices@[p] as int] != -1);
                    }
                }
            }
            fi = fi + 1;
        }
        proof {
            assert forall|v: int| 0 <= v < n && #[trigger] levels@[v] == -1 implies unreached_within(edge, s, v, current_level as nat) by {
                assert forall|j: nat| j <= current_level as nat implies !#[trigger] walk_of_len(edge, s, v, j) by {
                    if j == current_level as nat && walk_of_len(edge, s, v, j) {
                        let u = lemma_walk_pred(edge, s, v, lvl as nat);
                        let d = lemma_has_dist(edge, s, u, lvl as nat);
                        lemma_dist_in_range(n as nat, row_ptr@, col_indices@, s, u, d);
                        assert(!unreached_within(edge, s, u, lvl as nat));
                        assert(levels@[u] != -1);
                        lemma_dist_unique(edge, s, u, d, levels@[u] as nat);
                        if d < lvl {
                            lemma_walk_step(edge, s, u, v, d);
                            assert(!walk_of_len(edge, s, v, d + 1));
                        }
                        assert(levels@[u] == lvl);
                        assert(frontier@.contains(u as usize));
                        let t = choose|t: int| 0 <= t < frontier@.len() && frontier@[t] == u as usize;
                        assert(edge(frontier@[t] as int, v));
                    }
                }
            }
        }
        frontier = next;
    }
    proof {
        assert forall|v: int| 0 <= v < n implies level_of(edge, s, v, #[trigger] levels@[v]) by {
            if levels@[v] == -1 {
                if reachable(edge, s, v) {
                    let m = choose|k: nat| #[trigger] walk_of_len(edge, s, v, k);
                    let d = lemma_has_dist(edge, s, v, m);
                    assert(!walk_of_len(edge, s, v, current_level as nat) || d > current_level);
                    if d <= current_level as nat {
                        assert(walk_of_len(edge, s, v, d));
                    }
                    let w = lemma_dist_layer(edge, s, v, d, current_level as nat);
                    lemma_dist_in_range(n as nat, row_ptr@, col_indices@, s, w, current_level as nat);
                    assert(!unreached_within(edge, s, w, current_level as nat));
                    assert(levels@[w] != -1);
                    lemma_dist_unique(edge, s, w, current_level as nat, levels@[w] as nat);
                    assert(frontier@.contains(w as usize));
                }
            }
        }
    }
    levels
}

/// The last position of `v` in `ns`, or -1 when `v` does not occur.
pub open spec fn last_index(ns: Seq<NodeId>, v: NodeId) -> int
    decreases ns.len(),
{
    if ns.len() == 0 {
        -1
    } else if ns.last() == v {
        ns.len() - 1
    } else {
        last_index(ns.drop_last(), v)
    }
}

proof fn lemma_last_index_push(ns: Seq<NodeId>, x: NodeId, v: NodeId)
    ensures
        last_index(ns.push(x), v) == if x == v {
            ns.len() as int
        } else {
            last_index(ns, v)
        },
{
    assert(ns.push(x).drop_last() == ns);
}

proof fn lemma_last_index_range(ns: Seq<NodeId>, v: NodeId)
    ensures
        -1 <= last_index(ns, v) < ns.len(),
        last_index(ns, v) >= 0 ==> ns[last_index(ns, v)] == v,
        last_index(ns, v) < 0 ==> !ns.contains(v),
    decreases ns.len(),
{
    if ns.len() > 0 {
        lemma_last_index_range(ns.drop_last(), v);
        if ns.last() != v && last_index(ns, v) < 0 {
            assert forall|i: int| 0 <= i < ns.len() implies ns[i] != v by {
                if i < ns.len() - 1 {
                    assert(ns.drop_last()[i] == ns[i]);
                }
            }
        }
        if ns.last() != v && last_index(ns, v) >= 0 {
            assert(ns.drop_last()[last_index(ns, v)] == ns[last_index(ns, v)]);
        }
    }
}

/// Row `i` of the CSR layout of `ns` in `g`: for each outgoing neighbour of
/// `ns[i]` that occurs in `ns`, in order, the column of its last occurrence
/// and the edge that leads to it.
pub open spec fn row_entries<G: EdgeSource>(g: &G, ns: Seq<NodeId>, dir: Direction, i: int) -> Seq<(usize, EdgeId)> {
    g.edges_of(ns[i], dir).map_values(|e: EdgeLink| neighbor_entry(e, ns[i])).filter(
        |p: (EdgeId, NodeId)| last_index(ns, p.1) >= 0,
    ).map_values(|p: (EdgeId, NodeId)| (last_index(ns, p.1) as usize, p.0))
}

/// The entries stored at positions `a..b`: column and edge.
pub open spec fn stored(col: Seq<usize>, eids: Seq<EdgeId>, a: int, b: int) -> Seq<(usize, EdgeId)> {
    Seq::new((b - a) as nat, |k: int| (col[a + k], eids[a + k]))
}

/// The entries stored in row `r`.
pub open spec fn stored_row(col: Seq<usize>, eids: Seq<EdgeId>, row_ptr: Seq<usize>, r: int) -> Seq<
    (usize, EdgeId),
> {
    stored(col, eids, row_ptr[r] as int, row_ptr[r + 1] as int)
}

/// The first `i` rows of the CSR layout of `ns` in `g` are laid out: row
/// pointers start at 0 and never decrease, and row `r` holds exactly
/// `row_entries(g, ns, r)`.
pub open spec fn rows_laid_out<G: EdgeSource>(
    g: &G,
    ns: Seq<NodeId>,
    dir: Direction,
    row_ptr: Seq<usize>,
    col: Seq<usize>,
    eids: Seq<EdgeId>,
    i: int,
) -> bool {
    &&& 0 <= i <= ns.len()
    &&& row_ptr.len() == i + 1
    &&& row_ptr[0] == 0
    &&& col.len() == eids.len() == row_ptr[i]
    &&& forall|a: int, b: int| 0 <= a <= b <= i ==> row_ptr[a] <= row_ptr[b]
    &&& forall|r: int| 0 <= r < i ==> #[trigger] stored_row(col, eids, row_ptr, r) == row_entries(g, ns, dir, r)
}

/// `index` maps the identifier of each node of `ns` to its last position,
/// and holds nothing else.
pub open spec fn indexes(ns: Seq<NodeId>, index: Map<u64, usize>) -> bool {
    forall|k: u64|
        #[trigger] index.contains_key(k) == (last_index(ns, NodeId(k)) >= 0) && (index.contains_key(
            k,
        ) ==> index[k] == last_index(ns, NodeId(k)))
}

proof fn lemma_rows_extend<G: EdgeSource>(
    g: &G,
    ns: Seq<NodeId>,
    dir: Direction,
    row_ptr: Seq<usize>,
    col: Seq<usize>,
    eids: Seq<EdgeId>,
    i: int,
    cur: Seq<(usize, EdgeId)>,
    col2: Seq<usize>,
    eids2: Seq<EdgeId>,
)
    requires
        rows_laid_out(g, ns, dir, row_ptr, col, eids, i),
        i < ns.len(),
        cur == row_entries(g, ns, dir, i),
        col2 == col + cur.map_values(|p: (usize, EdgeId)| p.0),
        eids2 == eids + cur.map_values(|p: (usize, EdgeId)| p.1),
        col2.len() <= usize::MAX,
    ensures
        rows_laid_out(g, ns, dir, row_ptr.push(col2.len() as usize), col2, eids2, i + 1),
{
    let rp2 = row_ptr.push(col2.len() as usize);
    assert forall|a: int, b: int| 0 <= a <= b <= i + 1 implies rp2[a] <= rp2[b] by {
        if b <= i {
            assert(row_ptr[a] <= row_ptr[b]);
        } else if a <= i {
            assert(rp2[a] == row_ptr[a]);
            assert(0 <= a <= i <= i);
            assert(row_ptr[a] <= row_ptr[i]);
            assert(rp2[b] == col2.len());
        }
    }
    assert forall|r: int| 0 <= r < i + 1 implies #[trigger] stored_row(col2, eids2, rp2, r)
        == row_entries(g, ns, dir, r) by {
        if r < i {
            assert(rp2[r] == row_ptr[r] && rp2[r + 1] == row_ptr[r + 1]);
            assert(row_ptr[r + 1] <= row_ptr[i]);
            assert(stored_row(col2, eids2, rp2, r) =~= stored_row(col, eids, row_ptr, r));
        } else {
            assert(rp2[i] == row_ptr[i]);
            assert(stored_row(col2, eids2, rp2, r) =~= cur);
        }
    }
}

/// Every column stored in a laid-out row names a position of `ns`.
proof fn lemma_rows_columns<G: EdgeSource>(
    g: &G,
    ns: Seq<NodeId>,
    dir: Direction,
    row_ptr: Seq<usize>,
    col: Seq<usize>,
    eids: Seq<EdgeId>,
    i: int,
)
    requires
        rows_laid_out(g, ns, dir, row_ptr, col, eids, i),
    ensures
        forall|p: int| 0 <= p < col.len() ==> #[trigger] col[p] < ns.len(),
{
    assert forall|p: int| 0 <= p < col.len() implies #[trigger] col[p] < ns.len() by {
        let r = lemma_row_of(row_ptr, i, p);
        let entries = row_entries(g, ns, dir, r);
        assert(stored_row(col, eids, row_ptr, r) == entries);
        let k = p - row_ptr[r];
        assert(stored_row(col, eids, row_ptr, r)[k] == (col[p], eids[p]));
        let nb = g.edges_of(ns[r], dir).map_values(
            |e: EdgeLink| neighbor_entry(e, ns[r]),
        );
        let pred = |q: (EdgeId, NodeId)| last_index(ns, q.1) >= 0;
        nb.filter_lemma(pred);
        let q = nb.filter(pred)[k];
        assert(entries[k] == (last_index(ns, q.1) as usize, q.0));
        lemma_last_index_range(ns, q.1);
    }
}

/// A position below the last row pointer lies in some row.
proof fn lemma_row_of(row_ptr: Seq<usize>, i: int, p: int) -> (r: int)
    requires
        i >= 0,
        row_ptr.len() == i + 1,
        row_ptr[0] == 0,
        0 <= p < row_ptr[i],
    ensures
        0 <= r < i,
        row_ptr[r] <= p < row_ptr[r + 1],
    decreases i,
{
    if p >= row_ptr[i - 1] {
        i - 1
    } else {
        let rest = row_ptr.drop_last();
        assert(rest[0] == 0 && rest[i - 1] == row_ptr[i - 1]);
        let r = lemma_row_of(rest, i - 1, p);
        assert(rest[r] == row_ptr[r] && rest[r + 1] == row_ptr[r + 1]);
        r
    }
}

/// A graph's adjacency matrix in compressed-sparse-row form. Rows and columns
/// are positions in the node list it was built from; row `i`'s entries are
/// the positions `row_ptr[i]..row_ptr[i + 1]` of `col_indices` and of the
/// parallel `edge_ids`.
pub struct CsrMatrix {
    num_nodes: usize,
    node_to_index: HashMap<u64, usize>,
    index_to_node: Vec<NodeId>,
    row_ptr: Vec<usize>,
    col_indices: Vec<usize>,
    edge_ids: Vec<EdgeId>,
}

impl CsrMatrix {
    #[verifier::type_invariant]
    spec fn well_formed(self) -> bool {
        &&& self.index_to_node@.len() == self.num_nodes
        &&& csr_wf(self.num_nodes as nat, self.row_ptr@, self.col_indices@)
        &&& self.row_ptr@[0] == 0
        &&& self.row_ptr@[self.num_nodes as int] == self.col_indices@.len()
        &&& self.edge_ids@.len() == self.col_indices@.len()
        &&& indexes(self.index_to_node@, self.node_to_index@)
    }

    /// The nodes, by position.
    pub closed spec fn node_seq(&self) -> Seq<NodeId> {
        self.index_to_node@
    }

    /// The identifier-to-position index.
    pub closed spec fn index_map(&self) -> Map<u64, usize> {
        self.node_to_index@
    }

    /// The row pointers.
    pub closed spec fn row_seq(&self) -> Seq<usize> {
        self.row_ptr@
    }

    /// The column of each entry.
    pub closed spec fn col_seq(&self) -> Seq<usize> {
        self.col_indices@
    }

    /// The edge of each entry.
    pub closed spec fn edge_seq(&self) -> Seq<EdgeId> {
        self.edge_ids@
    }

    /// The layout holds together: `n` rows over the node list, row pointers
    /// from 0 to the number of entries, an edge for each entry, and the
    /// index of each node's last position.
    pub open spec fn holds_layout(&self) -> bool {
        let n = self.node_seq().len();
        &&& csr_wf(n, self.row_seq(), self.col_seq())
        &&& self.row_seq()[0] == 0
        &&& self.row_seq()[n as int] == self.col_seq().len()
        &&& self.edge_seq().len() == self.col_seq().len()
        &&& indexes(self.node_seq(), self.index_map())
    }

    /// Build the CSR matrix of the outgoing edges among `nodes`, rows in the
    /// order of `nodes`.
    pub fn from_graph<G: EdgeSource>(graph: &G, nodes: &[NodeId]) -> (r: Result<Self, AstraeaError>)
        ensures
            r matches Ok(m) ==> {
                &&& m.node_seq() == nodes@
                &&& m.holds_layout()
                &&& rows_laid_out(
                    graph,
                    nodes@,
                    Direction::Outgoing,
                    m.row_seq(),
                    m.col_seq(),
                    m.edge_seq(),
                    nodes@.len() as int,
                )
            },
            graph.never_fails() ==> r is Ok,
    {
        Self::from_graph_directed(graph, nodes, Direction::Outgoing)
    }

    /// Build the CSR matrix of the edges among `nodes` in `direction`, rows
    /// in the order of `nodes`: row `i` lists, in the order the edges of
    /// `nodes[i]` are read, each edge whose far end is one of `nodes`, at the
    /// last position that node holds.
    pub fn from_graph_directed<G: EdgeSource>(graph: &G, nodes: &[NodeId], direction: Direction) -> (r: Result<Self, AstraeaError>)
        ensures
            r matches Ok(m) ==> {
                &&& m.node_seq() == nodes@
                &&& m.holds_layout()
                &&& rows_laid_out(
                    graph,
                    nodes@,
                    direction,
                    m.row_seq(),
                    m.col_seq(),
                    m.edge_seq(),
                    nodes@.len() as int,
                )
            },
            graph.never_fails() ==> r is Ok,
    {
        let num_nodes = nodes.len();
        let mut node_to_index: HashMap<u64, usize> = HashMap::new();
        let mut index_to_node: Vec<NodeId> = Vec::new();
        let mut idx: usize = 0;
        while idx < num_nodes
            invariant
                num_nodes == nodes@.len(),
                idx <= num_nodes,
                index_to_node@ == nodes@.take(idx as int),
                indexes(nodes@.take(idx as int), node_to_index@),
            decreases num_nodes - idx,
        {
            let node_id = nodes[idx];
            node_to_index.insert(node_id.0, idx);
            index_to_node.push(node_id);
            proof {
                let before = nodes@.take(idx as int);
                assert(nodes@.take(idx + 1) == before.push(node_id));
                assert forall|k: u64| #[trigger] node_to_index@.contains_key(k) == (last_index(
                    nodes@.take(idx + 1),
                    NodeId(k),
                ) >= 0) && (node_to_index@.contains_key(k) ==> node_to_index@[k] == last_index(
                    nodes@.take(idx + 1),
                    NodeId(k),
                )) by {
                    lemma_last_index_push(before, node_id, NodeId(k));
                    if k == node_id.0 {
                        assert(NodeId(k) == node_id);
                    } else {
                        assert(NodeId(k) != node_id);
                    }
                }
            }
            idx = idx + 1;
        }
        assert(nodes@.take(num_nodes as int) == nodes@);
        let mut row_ptr: Vec<usize> = Vec::new();
        let mut col_indices: Vec<usize> = Vec::new();
        let mut edge_ids: Vec<EdgeId> = Vec::new();
        row_ptr.push(0);
        let mut i: usize = 0;
        while i < num_nodes
            invariant
                num_nodes == nodes@.len(),
                i <= num_nodes,
                index_to_node@ == nodes@,
                indexes(nodes@, node_to_index@),
                rows_laid_out(graph, nodes@, direction, row_ptr@, col_indices@, edge_ids@, i as int),
            decreases num_nodes - i,
        {
            let node_id = nodes[i];
            let nbrs = match neighbors(graph, node_id, direction) {
                Ok(v) => v,
                Err(err) => {
                    return Err(err);
                },
            };
            let ghost col0 = col_indices@;
            let ghost eids0 = edge_ids@;
            let ghost pred = |p: (EdgeId, NodeId)| last_index(nodes@, p.1) >= 0;
            let ghost f = |p: (EdgeId, NodeId)| (last_index(nodes@, p.1) as usize, p.0);
            let ghost mut cur: Seq<(usize, EdgeId)> = Seq::empty();
            let mut k: usize = 0;
            while k < nbrs.len()
                invariant
                    num_nodes == nodes@.len(),
                    i < num_nodes,
                    node_id == nodes@[i as int],
                    indexes(nodes@, node_to_index@),
                    rows_laid_out(graph, nodes@, direction, row_ptr@, col0, eids0, i as int),
                    nbrs@ == graph.edges_of(node_id, direction).map_values(
                        |e: EdgeLink| neighbor_entry(e, node_id),
                    ),
                    pred == (|p: (EdgeId, NodeId)| last_index(nodes@, p.1) >= 0),
                    f == (|p: (EdgeId, NodeId)| (last_index(nodes@, p.1) as usize, p.0)),
                    k <= nbrs@.len(),
                    cur == nbrs@.take(k as int).filter(pred).map_values(f),
                    col_indices@ == col0 + cur.map_values(|p: (usize, EdgeId)| p.0),
                    edge_ids@ == eids0 + cur.map_values(|p: (usize, EdgeId)| p.1),
                decreases nbrs@.len() - k,
            {
                let (edge_id, neighbor_id) = nbrs[k];
                proof {
                    nbrs@.take(k as int).lemma_filter_push(nbrs@[k as int], pred);
                    assert(nbrs@.take(k + 1) == nbrs@.take(k as int).push(nbrs@[k as int]));
                    lemma_last_index_range(nodes@, neighbor_id);
                    assert(NodeId(neighbor_id.0) == neighbor_id);
                }
                match node_to_index.get(&neighbor_id.0) {
                    Some(col_idx) => {
                        let c = *col_idx;
                        col_indices.push(c);
                        edge_ids.push(edge_id);
                        proof {
                            let old_cur = cur;
                            cur = cur.push((c, edge_id));
                            assert(f(nbrs@[k as int]) == (c, edge_id));
                            assert(cur == nbrs@.take(k + 1).filter(pred).map_values(f));
                            assert(col_indices@ == col0 + cur.map_values(|p: (usize, EdgeId)| p.0));
                            assert(edge_ids@ == eids0 + cur.map_values(|p: (usize, EdgeId)| p.1));
                        }
                    },
                    None => {
                        proof {
                            assert(!pred(nbrs@[k as int]));
                            assert(cur == nbrs@.take(k + 1).filter(pred).map_values(f));
                        }
                    },
                }
                k = k + 1;
            }
            proof {
                assert(nbrs@.take(nbrs@.len() as int) == nbrs@);
                assert(cur == row_entries(graph, nodes@, direction, i as int));
            }
            let end = col_indices.len();
            let ghost rp0 = row_ptr@;
            row_ptr.push(end);
            proof {
                lemma_rows_extend(
                    graph,
                    nodes@,
                    direction,
                    rp0,
                    col0,
                    eids0,
                    i as int,
                    cur,
                    col_indices@,
                    edge_ids@,
                );
            }
            i = i + 1;
        }
        proof {
            lemma_rows_columns(graph, nodes@, direction, row_ptr@, col_indices@, edge_ids@, num_nodes as int);
        }
        Ok(CsrMatrix { num_nodes, node_to_index, index_to_node, row_ptr, col_indices, edge_ids })
    }
}

/// The transpose of a layout whose entries fill its rows is itself such a layout.
proof fn lemma_transpose_layout(
    n: nat,
    row_ptr: Seq<usize>,
    col: Seq<usize>,
    trp: Seq<usize>,
    tcol: Seq<usize>,
    src: Seq<usize>,
)
    requires
        csr_wf(n, row_ptr, col),
        row_ptr[0] == 0,
        row_ptr[n as int] == col.len(),
        transposes_to(n, row_ptr, col, trp, tcol, src),
    ensures
        csr_wf(n, trp, tcol),
        trp[0] == 0,
        trp[n as int] == tcol.len(),
{
    let nnz = col.len() as int;
    lemma_count_below_all(col, n as int, nnz);
    lemma_count_below_zero(col, nnz);
    assert forall|a: int, b: int| 0 <= a <= b <= n implies trp[a] <= trp[b] by {
        lemma_count_below_bounds(col, a, b, nnz);
    }
}

impl CsrMatrix {
    /// Number of nodes (rows and columns of the square matrix).
    pub fn num_nodes(&self) -> (r: usize)
        ensures
            r == self.node_seq().len(),
            self.holds_layout(),
    {
        proof {
            use_type_invariant(self);
        }
        self.num_nodes
    }

    /// Number of stored entries (edges).
    pub fn nnz(&self) -> (r: usize)
        ensures
            r == self.col_seq().len(),
    {
        self.col_indices.len()
    }

    /// Row pointers (length `num_nodes + 1`).
    pub fn row_ptr(&self) -> (r: &Vec<usize>)
        ensures
            r@ == self.row_seq(),
            self.holds_layout(),
    {
        proof {
            use_type_invariant(self);
        }
        &self.row_ptr
    }

    /// Column index of each entry.
    pub fn col_indices(&self) -> (r: &Vec<usize>)
        ensures
            r@ == self.col_seq(),
    {
        &self.col_indices
    }

    /// Edge of each entry.
    pub fn edge_ids(&self) -> (r: &Vec<EdgeId>)
        ensures
            r@ == self.edge_seq(),
    {
        &self.edge_ids
    }

    /// The node at each position.
    pub fn index_to_node(&self) -> (r: &Vec<NodeId>)
        ensures
            r@ == self.node_seq(),
    {
        &self.index_to_node
    }

    /// The position of `node`: its last position in the node list.
    pub fn index_of(&self, node: NodeId) -> (r: Option<usize>)
        ensures
            r == if last_index(self.node_seq(), node) >= 0 {
                Some(last_index(self.node_seq(), node) as usize)
            } else {
                None::<usize>
            },
    {
        proof {
            use_type_invariant(self);
            assert(NodeId(node.0) == node);
            assert(self.node_to_index@.contains_key(node.0) == (last_index(
                self.index_to_node@,
                NodeId(node.0),
            ) >= 0));
        }
        match self.node_to_index.get(&node.0) {
            Some(i) => Some(*i),
            None => None,
        }
    }

    /// Number of entries in each row: the out-degree of each node.
    pub fn out_degrees(&self) -> (r: Vec<usize>)
        ensures
            r@.len() == self.node_seq().len(),
            forall|i: int|
                0 <= i < self.node_seq().len() ==> #[trigger] r@[i] == self.row_seq()[i + 1]
                    - self.row_seq()[i],
    {
        proof {
            use_type_invariant(self);
        }
        csr_out_degrees(self.num_nodes, &self.row_ptr)
    }

    /// The transposed matrix: row `c` lists, in order, the entries of column
    /// `c`, each with the row it came from and its edge; the nodes and their
    /// positions are unchanged.
    pub fn transpose(&self) -> (r: Self)
        ensures
            r.node_seq() == self.node_seq(),
            r.index_map() == self.index_map(),
            exists|src: Seq<usize>|
                {
                    &&& transposes_to(
                        self.node_seq().len(),
                        self.row_seq(),
                        self.col_seq(),
                        r.row_seq(),
                        r.col_seq(),
                        src,
                    )
                    &&& forall|p: int|
                        0 <= p < src.len() ==> #[trigger] r.edge_seq()[p] == self.edge_seq()[src[p] as int]
                },
    {
        proof {
            use_type_invariant(self);
        }
        let t = csr_transpose(self.num_nodes, &self.row_ptr, &self.col_indices);
        let mut t_edge_ids: Vec<EdgeId> = Vec::new();
        let mut p: usize = 0;
        while p < t.source_entry.len()
            invariant
                p <= t.source_entry@.len(),
                t.source_entry@.len() == self.col_indices@.len() == self.edge_ids@.len(),
                transposes(self.num_nodes as nat, self.row_ptr@, self.col_indices@, t),
                csr_wf(self.num_nodes as nat, self.row_ptr@, self.col_indices@),
                self.row_ptr@[0] == 0,
                self.row_ptr@[self.num_nodes as int] == self.col_indices@.len(),
                t_edge_ids@.len() == p,
                forall|q: int| 0 <= q < p ==> #[trigger] t_edge_ids@[q] == self.edge_ids@[t.source_entry@[q] as int],
            decreases t.source_entry@.len() - p,
        {
            let e = t.source_entry[p];
            proof {
                let c = t.col_indices@[p as int] as int;
                assert(self.row_ptr@[c + 1] <= self.row_ptr@[self.num_nodes as int]);
            }
            t_edge_ids.push(self.edge_ids[e]);
            p = p + 1;
        }
        proof {
            lemma_transpose_layout(
                self.num_nodes as nat,
                self.row_ptr@,
                self.col_indices@,
                t.row_ptr@,
                t.col_indices@,
                t.source_entry@,
            );
        }
        let index_to_node = self.index_to_node.clone();
        proof {
            assert(index_to_node@ =~= self.index_to_node@);
        }
        let r = CsrMatrix {
            num_nodes: self.num_nodes,
            node_to_index: self.node_to_index.clone(),
            index_to_node,
            row_ptr: t.row_ptr,
            col_indices: t.col_indices,
            edge_ids: t_edge_ids,
        };
        proof {
            assert(transposes_to(
                self.node_seq().len(),
                self.row_seq(),
                self.col_seq(),
                r.row_seq(),
                r.col_seq(),
                t.source_entry@,
            ));
        }
        r
    }
}

/// In a layout of `n` rows every shortest distance from a row is below `n`:
/// the nodes at distances `0..=d` along a shortest walk are `d + 1`
/// different rows.
pub proof fn lemma_dist_below_rows(n: nat, row_ptr: Seq<usize>, col: Seq<usize>, s: int, v: int, d: nat)
    requires
        csr_wf(n, row_ptr, col),
        0 <= s < n,
        is_dist(csr_edge(row_ptr, col), s, v, d),
    ensures
        d < n,
{
    let e = csr_edge(row_ptr, col);
    let ws = Seq::new(d + 1, |l: int| choose|w: int| #[trigger] is_dist(e, s, w, l as nat));
    assert forall|l: int| 0 <= l < ws.len() implies is_dist(e, s, #[trigger] ws[l], l as nat) && 0
        <= ws[l] < n by {
        let w = lemma_dist_layer(e, s, v, d, l as nat);
        assert(is_dist(e, s, w, l as nat));
        lemma_dist_in_range(n, row_ptr, col, s, ws[l], l as nat);
    }
    assert(ws.no_duplicates()) by {
        assert forall|a: int, b: int| 0 <= a < ws.len() && 0 <= b < ws.len() && a != b implies ws[a]
            != ws[b] by {
            if ws[a] == ws[b] {
                lemma_dist_unique(e, s, ws[a], a as nat, b as nat);
            }
        }
    }
    ws.unique_seq_to_set();
    lemma_int_range(0, n as int);
    assert(ws.to_set().subset_of(set_int_range(0, n as int))) by {
        assert forall|w: int| ws.to_set().contains(w) implies set_int_range(0, n as int).contains(w) by {
            let l = choose|l: int| 0 <= l < ws.len() && ws[l] == w;
            assert(0 <= ws[l] < n);
        }
    }
    vstd::set_lib::lemma_len_subset(ws.to_set(), set_int_range(0, n as int));
}

/// Transposing twice gives back the starting edges: the edge `u -> v` is in
/// the double transpose exactly when it is in the starting layout.
pub proof fn lemma_double_transpose_edges(
    n: nat,
    row_ptr: Seq<usize>,
    col: Seq<usize>,
    trp: Seq<usize>,
    tcol: Seq<usize>,
    src: Seq<usize>,
    trp2: Seq<usize>,
    tcol2: Seq<usize>,
    src2: Seq<usize>,
    u: int,
    v: int,
)
    requires
        csr_wf(n, row_ptr, col),
        row_ptr[0] == 0,
        row_ptr[n as int] == col.len(),
        col.len() <= usize::MAX,
        transposes_to(n, row_ptr, col, trp, tcol, src),
        transposes_to(n, trp, tcol, trp2, tcol2, src2),
    ensures
        csr_edge(trp2, tcol2)(u, v) == csr_edge(row_ptr, col)(u, v),
{
    lemma_transpose_layout(n, row_ptr, col, trp, tcol, src);
    lemma_transpose_reverses_edges(n, trp, tcol, trp2, tcol2, src2, u, v);
    lemma_transpose_reverses_edges(n, row_ptr, col, trp, tcol, src, v, u);
}


/// The entries of column `c` among the first `k` positions that lie before
/// position `m` are exactly those among the first `m`: the `t`-th one lies
/// before `m` just when `t` is below their number.
proof fn lemma_column_entries_split(col: Seq<usize>, c: int, m: int, k: int)
    requires
        0 <= m <= k <= col.len(),
        col.len() <= usize::MAX,
    ensures
        column_entries(col, c, m).len() <= column_entries(col, c, k).len(),
        forall|t: int| 0 <= t < column_entries(col, c, k).len() ==>
            ((#[trigger] column_entries(col, c, k)[t] < m) == (t < column_entries(col, c, m).len())),
    decreases k - m,
{
    lemma_column_entries_bounds(col, c, k);
    lemma_column_entries_prefix(col, c, m, k);
    if m == k {
    } else {
        lemma_column_entries_split(col, c, m, k - 1);
        let prev = column_entries(col, c, k - 1);
        let cur = column_entries(col, c, k);
        assert forall|t: int| 0 <= t < cur.len() implies
            ((#[trigger] cur[t] < m) == (t < column_entries(col, c, m).len())) by {
            if t < prev.len() {
                assert(cur[t] == prev[t]);
            } else {
                assert(col[k - 1] == c);
                assert(cur == prev.push((k - 1) as usize));
                assert(cur[t] == k - 1);
            }
        }
    }
}

/// Within the transposed row `c`, the first `k` entries hold as many rows
/// below `r` as `k` and the number of entries of column `c` before the
/// first position of row `r` allow.
proof fn lemma_transposed_row_count(
    n: nat,
    row_ptr: Seq<usize>,
    col: Seq<usize>,
    trp: Seq<usize>,
    tcol: Seq<usize>,
    src: Seq<usize>,
    r: int,
    c: int,
    k: int,
)
    requires
        csr_wf(n, row_ptr, col),
        row_ptr[0] == 0,
        row_ptr[n as int] == col.len(),
        col.len() <= usize::MAX,
        transposes_to(n, row_ptr, col, trp, tcol, src),
        0 <= r <= n,
        0 <= c < n,
        0 <= k <= trp[c + 1] - trp[c],
    ensures
        count_below(tcol, r, trp[c] + k) == count_below(tcol, r, trp[c] as int) + if k
            < column_entries(col, c, row_ptr[r] as int).len() {
            k
        } else {
            column_entries(col, c, row_ptr[r] as int).len() as int
        },
    decreases k,
{
    let nnz = col.len() as int;
    lemma_transpose_layout(n, row_ptr, col, trp, tcol, src);
    lemma_count_below_bounds(col, c, c + 1, nnz);
    lemma_count_below_bounds(col, c + 1, n as int, nnz);
    if k > 0 {
        lemma_transposed_row_count(n, row_ptr, col, trp, tcol, src, r, c, k - 1);
        let p = trp[c] + k - 1;
        let entries = column_entries(col, c, nnz);
        let seg = src.subrange(trp[c] as int, trp[c + 1] as int);
        assert(seg == entries);
        assert(seg[k - 1] == src[p]);
        lemma_column_entries_split(col, c, row_ptr[r] as int, nnz);
        assert((entries[k - 1] < row_ptr[r]) == (k - 1 < column_entries(col, c, row_ptr[r] as int).len()));
        let q = tcol[p] as int;
        assert(q < n);
        assert(row_ptr[q] <= src[p] < row_ptr[q + 1]);
        if q < r {
            assert(row_ptr[q + 1] <= row_ptr[r]);
        } else {
            assert(row_ptr[r] <= row_ptr[q]);
        }
    }
}

/// The entries of the transpose that lie before its row `c` and hold a row
/// below `r` are as many as the entries of the rows below `r` that store a
/// column below `c`.
proof fn lemma_transposed_prefix_count(
    n: nat,
    row_ptr: Seq<usize>,
    col: Seq<usize>,
    trp: Seq<usize>,
    tcol: Seq<usize>,
    src: Seq<usize>,
    r: int,
    c: int,
)
    requires
        csr_wf(n, row_ptr, col),
        row_ptr[0] == 0,
        row_ptr[n as int] == col.len(),
        col.len() <= usize::MAX,
        transposes_to(n, row_ptr, col, trp, tcol, src),
        0 <= r <= n,
        0 <= c <= n,
    ensures
        count_below(tcol, r, trp[c] as int) == count_below(col, c, row_ptr[r] as int),
    decreases c,
{
    let nnz = col.len() as int;
    lemma_transpose_layout(n, row_ptr, col, trp, tcol, src);
    if c == 0 {
        lemma_count_below_zero(col, nnz);
        lemma_count_below_zero(col, row_ptr[r] as int);
    } else {
        lemma_transposed_prefix_count(n, row_ptr, col, trp, tcol, src, r, c - 1);
        lemma_count_below_bounds(col, c - 1, c, nnz);
        lemma_count_below_step(col, c - 1, nnz);
        let len = trp[c] - trp[c - 1];
        assert(len == column_entries(col, c - 1, nnz).len());
        lemma_transposed_row_count(n, row_ptr, col, trp, tcol, src, r, c - 1, len);
        lemma_column_entries_split(col, c - 1, row_ptr[r] as int, nnz);
        lemma_count_below_step(col, c - 1, row_ptr[r] as int);
    }
}

/// Transposing twice gives back the row pointers: each row of the double
/// transpose holds as many entries as the same row of the starting layout.
pub proof fn lemma_double_transpose_row_ptr(
    n: nat,
    row_ptr: Seq<usize>,
    col: Seq<usize>,
    trp: Seq<usize>,
    tcol: Seq<usize>,
    src: Seq<usize>,
    trp2: Seq<usize>,
    tcol2: Seq<usize>,
    src2: Seq<usize>,
)
    requires
        csr_wf(n, row_ptr, col),
        row_ptr[0] == 0,
        row_ptr[n as int] == col.len(),
        col.len() <= usize::MAX,
        transposes_to(n, row_ptr, col, trp, tcol, src),
        transposes_to(n, trp, tcol, trp2, tcol2, src2),
    ensures
        trp2 == row_ptr,
{
    lemma_transpose_layout(n, row_ptr, col, trp, tcol, src);
    assert forall|r: int| 0 <= r <= n implies #[trigger] trp2[r] == row_ptr[r] by {
        lemma_transposed_prefix_count(n, row_ptr, col, trp, tcol, src, r, n as int);
        assert(row_ptr[r] <= row_ptr[n as int]);
        lemma_count_below_all(col, n as int, row_ptr[r] as int);
    }
    assert(trp2 =~= row_ptr);
}


/// The number of times `c` occurs in `s`.
pub open spec fn occurrences(s: Seq<usize>, c: usize) -> nat
    decreases s.len(),
{
    if s.len() == 0 {
        0
    } else {
        occurrences(s.drop_last(), c) + if s.last() == c {
            1nat
        } else {
            0nat
        }
    }
}

proof fn lemma_occurrences_multiset(s: Seq<usize>, c: usize)
    ensures
        s.to_multiset().count(c) == occurrences(s, c),
    decreases s.len(),
{
    broadcast use vstd::seq_lib::group_to_multiset_ensures;
    if s.len() == 0 {
        assert(s.to_multiset() =~= vstd::multiset::Multiset::<usize>::empty());
    } else {
        lemma_occurrences_multiset(s.drop_last(), c);
        assert(s =~= s.drop_last().push(s.last()));
        assert(s.to_multiset() =~= s.drop_last().to_multiset().insert(s.last()));
    }
}

proof fn lemma_occurrences_none(s: Seq<usize>, c: usize, n: nat)
    requires
        forall|i: int| 0 <= i < s.len() ==> s[i] < n,
        n <= c,
    ensures
        occurrences(s, c) == 0,
    decreases s.len(),
{
    if s.len() > 0 {
        lemma_occurrences_none(s.drop_last(), c, n);
        assert(s.last() == s[s.len() - 1]);
    }
}

/// Column `c` occurs in positions `a..b` as often as the entries of column
/// `c` before `b` outnumber those before `a`.
proof fn lemma_occurrences_range(col: Seq<usize>, c: usize, a: int, b: int)
    requires
        0 <= a <= b <= col.len(),
    ensures
        occurrences(col.subrange(a, b), c) + column_entries(col, c as int, a).len()
            == column_entries(col, c as int, b).len(),
    decreases b - a,
{
    if b == a {
        assert(col.subrange(a, b) =~= Seq::<usize>::empty());
    } else {
        lemma_occurrences_range(col, c, a, b - 1);
        assert(col.subrange(a, b).drop_last() =~= col.subrange(a, b - 1));
        assert(col.subrange(a, b).last() == col[b - 1]);
    }
}

/// In row `r` of the double transpose, the first `k` entries hold column
/// `c` as often as their positions fall in the stretch of column `c`
/// entries, `lo..hi`, of the transposed row list of `r`.
proof fn lemma_double_row_prefix(
    n: nat,
    trp: Seq<usize>,
    tcol: Seq<usize>,
    trp2: Seq<usize>,
    tcol2: Seq<usize>,
    src2: Seq<usize>,
    r: int,
    c: int,
    k: int,
)
    requires
        csr_wf(n, trp, tcol),
        trp[0] == 0,
        trp[n as int] == tcol.len(),
        tcol.len() <= usize::MAX,
        transposes_to(n, trp, tcol, trp2, tcol2, src2),
        0 <= r < n,
        0 <= c < n,
        c <= usize::MAX,
        0 <= k <= trp2[r + 1] - trp2[r],
    ensures
        ({
            let lo = column_entries(tcol, r, trp[c] as int).len() as int;
            let hi = column_entries(tcol, r, trp[c + 1] as int).len() as int;
            occurrences(tcol2.subrange(trp2[r] as int, trp2[r] + k), c as usize) == if k <= lo {
                0
            } else if k <= hi {
                k - lo
            } else {
                hi - lo
            }
        }),
    decreases k,
{
    let nnz = tcol.len() as int;
    lemma_transpose_layout(n, trp, tcol, trp2, tcol2, src2);
    lemma_column_entries_split(tcol, r, trp[c] as int, nnz);
    lemma_column_entries_split(tcol, r, trp[c + 1] as int, nnz);
    lemma_column_entries_split(tcol, r, trp[c] as int, trp[c + 1] as int);
    lemma_count_below_bounds(tcol, c, c + 1, nnz);
    assert(trp[c] <= trp[c + 1]);
    assert(trp[c + 1] <= trp[n as int]);
    if k == 0 {
        assert(tcol2.subrange(trp2[r] as int, trp2[r] + k) =~= Seq::<usize>::empty());
    } else {
        lemma_double_row_prefix(n, trp, tcol, trp2, tcol2, src2, r, c, k - 1);
        let q = trp2[r] + k - 1;
        let sub = tcol2.subrange(trp2[r] as int, trp2[r] + k);
        assert(sub.drop_last() =~= tcol2.subrange(trp2[r] as int, trp2[r] + k - 1));
        assert(sub.last() == tcol2[q]);
        assert(trp2[r + 1] <= trp2[n as int]);
        let entries = column_entries(tcol, r, nnz);
        let seg = src2.subrange(trp2[r] as int, trp2[r + 1] as int);
        assert(seg == entries);
        assert(seg[k - 1] == src2[q]);
        let d = tcol2[q] as int;
        assert(d < n);
        assert(trp[d] <= src2[q] < trp[d + 1]);
        if d < c {
            assert(trp[d + 1] <= trp[c]);
        } else if d > c {
            assert(trp[c + 1] <= trp[d]);
        }
        let lo = column_entries(tcol, r, trp[c] as int).len() as int;
        let hi = column_entries(tcol, r, trp[c + 1] as int).len() as int;
        assert(entries.len() == trp2[r + 1] - trp2[r]);
        assert((entries[k - 1] < trp[c]) == (k - 1 < lo));
        assert((entries[k - 1] < trp[c + 1]) == (k - 1 < hi));
        assert((tcol2[q] == c) == (lo <= k - 1 && k - 1 < hi));
        assert(lo <= hi);
        assert(occurrences(sub, c as usize) == occurrences(sub.drop_last(), c as usize) + if sub.last()
            == c as usize {
            1nat
        } else {
            0nat
        });
    }
}

/// Transposing twice keeps the contents of every row: row `r` of the double
/// transpose holds each column as often as row `r` of the starting layout.
pub proof fn lemma_double_transpose_rows(
    n: nat,
    row_ptr: Seq<usize>,
    col: Seq<usize>,
    trp: Seq<usize>,
    tcol: Seq<usize>,
    src: Seq<usize>,
    trp2: Seq<usize>,
    tcol2: Seq<usize>,
    src2: Seq<usize>,
    r: int,
)
    requires
        csr_wf(n, row_ptr, col),
        row_ptr[0] == 0,
        row_ptr[n as int] == col.len(),
        col.len() <= usize::MAX,
        transposes_to(n, row_ptr, col, trp, tcol, src),
        transposes_to(n, trp, tcol, trp2, tcol2, src2),
        0 <= r < n,
    ensures
        tcol2.subrange(trp2[r] as int, trp2[r + 1] as int).to_multiset()
            == col.subrange(row_ptr[r] as int, row_ptr[r + 1] as int).to_multiset(),
{
    let nnz = col.len() as int;
    lemma_transpose_layout(n, row_ptr, col, trp, tcol, src);
    lemma_transpose_layout(n, trp, tcol, trp2, tcol2, src2);
    lemma_double_transpose_row_ptr(n, row_ptr, col, trp, tcol, src, trp2, tcol2, src2);
    let s2 = tcol2.subrange(trp2[r] as int, trp2[r + 1] as int);
    let s1 = col.subrange(row_ptr[r] as int, row_ptr[r + 1] as int);
    assert(row_ptr[r + 1] <= row_ptr[n as int]);
    assert forall|c: usize| #[trigger] s2.to_multiset().count(c) == s1.to_multiset().count(c) by {
        lemma_occurrences_multiset(s2, c);
        lemma_occurrences_multiset(s1, c);
        if (c as int) < n {
            let ci = c as int;
            let len2 = trp2[r + 1] - trp2[r];
            lemma_double_row_prefix(n, trp, tcol, trp2, tcol2, src2, r, ci, len2);
            assert(tcol2.subrange(trp2[r] as int, trp2[r] + len2) == s2);
            // lo and hi of the stretch of column `c` in the transposed row `r`.
            lemma_column_entries_split(tcol, r, trp[ci] as int, trp[ci + 1] as int);
            lemma_count_below_step(tcol, r, trp[ci] as int);
            lemma_count_below_step(tcol, r, trp[ci + 1] as int);
            lemma_transposed_prefix_count(n, row_ptr, col, trp, tcol, src, r, ci);
            lemma_transposed_prefix_count(n, row_ptr, col, trp, tcol, src, r + 1, ci);
            lemma_transposed_prefix_count(n, row_ptr, col, trp, tcol, src, r, ci + 1);
            lemma_transposed_prefix_count(n, row_ptr, col, trp, tcol, src, r + 1, ci + 1);
            lemma_count_below_step(col, ci, row_ptr[r] as int);
            lemma_count_below_step(col, ci, row_ptr[r + 1] as int);
            lemma_occurrences_range(col, c, row_ptr[r] as int, row_ptr[r + 1] as int);
            // The whole transposed row list of `r` spans every column stretch.
            lemma_column_entries_split(tcol, r, trp[ci + 1] as int, nnz);
            lemma_count_below_step(tcol, r, nnz);
            assert(trp[ci + 1] <= trp[n as int]);
        } else {
            assert forall|i: int| 0 <= i < s2.len() implies s2[i] < n by {
                assert(s2[i] == tcol2[trp2[r] + i]);
                assert(trp2[r + 1] <= trp2[n as int]);
            }
            assert forall|i: int| 0 <= i < s1.len() implies s1[i] < n by {
                assert(s1[i] == col[row_ptr[r] + i]);
            }
            lemma_occurrences_none(s2, c, n);
            lemma_occurrences_none(s1, c, n);
        }
    }
    assert(s2.to_multiset() =~= s1.to_multiset());
}


/// Position `t` of the transposed row `c` holds the `t`-th entry of column
/// `c`, and that entry lies in a row below `r` just when `t` is below the
/// number of column-`c` entries before row `r`.
proof fn lemma_block_entry(
    n: nat,
    row_ptr: Seq<usize>,
    col: Seq<usize>,
    trp: Seq<usize>,
    tcol: Seq<usize>,
    src: Seq<usize>,
    r: int,
    c: int,
    t: int,
)
    requires
        csr_wf(n, row_ptr, col),
        row_ptr[0] == 0,
        row_ptr[n as int] == col.len(),
        col.len() <= usize::MAX,
        transposes_to(n, row_ptr, col, trp, tcol, src),
        0 <= r <= n,
        0 <= c < n,
        0 <= t < trp[c + 1] - trp[c],
    ensures
        src[trp[c] + t] == column_entries(col, c, col.len() as int)[t],
        t < column_entries(col, c, col.len() as int).len(),
        (tcol[trp[c] + t] < r) == (t < column_entries(col, c, row_ptr[r] as int).len()),
{
    let nnz = col.len() as int;
    lemma_transpose_layout(n, row_ptr, col, trp, tcol, src);
    lemma_count_below_bounds(col, c, c + 1, nnz);
    lemma_count_below_bounds(col, c + 1, n as int, nnz);
    lemma_count_below_step(col, c, nnz);
    let p = trp[c] + t;
    let entries = column_entries(col, c, nnz);
    let seg = src.subrange(trp[c] as int, trp[c + 1] as int);
    assert(seg == entries);
    assert(seg[t] == src[p]);
    lemma_column_entries_split(col, c, row_ptr[r] as int, nnz);
    let q = tcol[p] as int;
    assert(q < n);
    assert(row_ptr[q] <= src[p] < row_ptr[q + 1]);
    if q < r {
        assert(row_ptr[q + 1] <= row_ptr[r]);
    } else {
        assert(row_ptr[r] <= row_ptr[q]);
    }
}

/// The number of column-`c` entries before row `r`.
pub open spec fn entries_before(row_ptr: Seq<usize>, col: Seq<usize>, c: int, r: int) -> int {
    column_entries(col, c, row_ptr[r] as int).len() as int
}

/// Among the first `t` positions of the transposed row `c`, the entries of
/// row `r` are those from `entries_before(r)` to `entries_before(r + 1)`.
proof fn lemma_block_row_count(
    n: nat,
    row_ptr: Seq<usize>,
    col: Seq<usize>,
    trp: Seq<usize>,
    tcol: Seq<usize>,
    src: Seq<usize>,
    r: int,
    c: int,
    t: int,
)
    requires
        csr_wf(n, row_ptr, col),
        row_ptr[0] == 0,
        row_ptr[n as int] == col.len(),
        col.len() <= usize::MAX,
        transposes_to(n, row_ptr, col, trp, tcol, src),
        0 <= r < n,
        0 <= c < n,
        0 <= t <= trp[c + 1] - trp[c],
    ensures
        ({
            let a = entries_before(row_ptr, col, c, r);
            let b = entries_before(row_ptr, col, c, r + 1);
            column_entries(tcol, r, trp[c] + t).len() == column_entries(tcol, r, trp[c] as int).len()
                + if t <= a {
                0
            } else if t <= b {
                t - a
            } else {
                b - a
            }
        }),
    decreases t,
{
    let nnz = col.len() as int;
    lemma_transpose_layout(n, row_ptr, col, trp, tcol, src);
    assert(row_ptr[r] <= row_ptr[r + 1]);
    assert(row_ptr[r + 1] <= row_ptr[n as int]);
    lemma_column_entries_prefix(col, c, row_ptr[r] as int, row_ptr[r + 1] as int);
    if t > 0 {
        lemma_block_row_count(n, row_ptr, col, trp, tcol, src, r, c, t - 1);
        lemma_block_entry(n, row_ptr, col, trp, tcol, src, r, c, t - 1);
        lemma_block_entry(n, row_ptr, col, trp, tcol, src, r + 1, c, t - 1);
        lemma_count_below_bounds(col, c, c + 1, nnz);
        lemma_count_below_bounds(col, c + 1, n as int, nnz);
    }
}

/// The pairs (column, value) of a layout's entries.
pub open spec fn entry_pairs<V>(col: Seq<usize>, val: Seq<V>) -> Seq<(usize, V)> {
    Seq::new(col.len(), |i: int| (col[i], val[i]))
}

/// The number of entries among positions `a..b` that hold column `c` with
/// value `w`.
pub open spec fn pair_count<V>(col: Seq<usize>, val: Seq<V>, c: usize, w: V, a: int, b: int) -> nat
    decreases b - a,
{
    if b <= a {
        0
    } else {
        pair_count(col, val, c, w, a, b - 1) + if col[b - 1] == c && val[b - 1] == w {
            1nat
        } else {
            0nat
        }
    }
}

/// The number of values equal to `w` among the first `x` of `s`.
pub open spec fn value_count<V>(s: Seq<V>, w: V, x: int) -> nat
    decreases x,
{
    if x <= 0 {
        0
    } else {
        value_count(s, w, x - 1) + if s[x - 1] == w {
            1nat
        } else {
            0nat
        }
    }
}

proof fn lemma_pair_count_multiset<V>(col: Seq<usize>, val: Seq<V>, c: usize, w: V, a: int, b: int)
    requires
        0 <= a <= b <= col.len(),
        val.len() == col.len(),
    ensures
        entry_pairs(col, val).subrange(a, b).to_multiset().count((c, w)) == pair_count(col, val, c, w, a, b),
    decreases b - a,
{
    broadcast use vstd::seq_lib::group_to_multiset_ensures;
    let sub = entry_pairs(col, val).subrange(a, b);
    if b == a {
        assert(sub.to_multiset() =~= vstd::multiset::Multiset::empty());
    } else {
        lemma_pair_count_multiset(col, val, c, w, a, b - 1);
        assert(sub =~= entry_pairs(col, val).subrange(a, b - 1).push((col[b - 1], val[b - 1])));
    }
}

/// The values of the column-`c` entries of row `r`, in order.
pub open spec fn row_column_values<V>(row_ptr: Seq<usize>, col: Seq<usize>, val: Seq<V>, c: int, r: int) -> Seq<V> {
    let a = entries_before(row_ptr, col, c, r);
    let b = entries_before(row_ptr, col, c, r + 1);
    Seq::new((b - a) as nat, |j: int| val[column_entries(col, c, col.len() as int)[a + j] as int])
}

/// Row `r` of a layout holds column `c` with value `w` as often as the
/// column-`c` entries of the row hold `w`.
proof fn lemma_row_pair_count<V>(
    n: nat,
    row_ptr: Seq<usize>,
    col: Seq<usize>,
    val: Seq<V>,
    r: int,
    c: int,
    w: V,
    e: int,
)
    requires
        csr_wf(n, row_ptr, col),
        row_ptr[0] == 0,
        row_ptr[n as int] == col.len(),
        col.len() <= usize::MAX,
        val.len() == col.len(),
        0 <= r < n,
        0 <= c < n,
        c <= usize::MAX,
        row_ptr[r] <= e <= row_ptr[r + 1],
    ensures
        column_entries(col, c, e).len() >= entries_before(row_ptr, col, c, r),
        pair_count(col, val, c as usize, w, row_ptr[r] as int, e) == value_count(
            row_column_values(row_ptr, col, val, c, r),
            w,
            column_entries(col, c, e).len() - entries_before(row_ptr, col, c, r),
        ),
    decreases e - row_ptr[r],
{
    let nnz = col.len() as int;
    assert(row_ptr[r + 1] <= row_ptr[n as int]);
    lemma_column_entries_prefix(col, c, row_ptr[r] as int, e);
    lemma_column_entries_prefix(col, c, e, row_ptr[r + 1] as int);
    if e > row_ptr[r] {
        lemma_row_pair_count(n, row_ptr, col, val, r, c, w, e - 1);
        lemma_column_entries_prefix(col, c, e - 1, e);
        if col[e - 1] == c {
            let t = column_entries(col, c, e - 1).len() as int;
            assert(column_entries(col, c, e) == column_entries(col, c, e - 1).push((e - 1) as usize));
            lemma_column_entries_prefix(col, c, e, nnz);
            assert(column_entries(col, c, nnz)[t] == column_entries(col, c, e)[t]);
            let a = entries_before(row_ptr, col, c, r);
            let sv = row_column_values(row_ptr, col, val, c, r);
            assert(sv[t - a] == val[e - 1]);
            assert(value_count(sv, w, t + 1 - a) == value_count(sv, w, t - a) + if sv[t - a] == w {
                1nat
            } else {
                0nat
            });
        } else {
            assert(column_entries(col, c, e) == column_entries(col, c, e - 1));
        }
        assert(pair_count(col, val, c as usize, w, row_ptr[r] as int, e) == pair_count(
            col,
            val,
            c as usize,
            w,
            row_ptr[r] as int,
            e - 1,
        ) + if col[e - 1] == c as usize && val[e - 1] == w {
            1nat
        } else {
            0nat
        });
    }
}

/// Transposing twice keeps the entries of every row, values included: row
/// `r` of the double transpose holds each pair (column, value) as often as
/// row `r` of the starting layout, the values riding along with their
/// entries through both transposes.
pub proof fn lemma_double_transpose_pairs<V>(
    n: nat,
    row_ptr: Seq<usize>,
    col: Seq<usize>,
    val: Seq<V>,
    trp: Seq<usize>,
    tcol: Seq<usize>,
    src: Seq<usize>,
    tval: Seq<V>,
    trp2: Seq<usize>,
    tcol2: Seq<usize>,
    src2: Seq<usize>,
    tval2: Seq<V>,
    r: int,
)
    requires
        csr_wf(n, row_ptr, col),
        row_ptr[0] == 0,
        row_ptr[n as int] == col.len(),
        col.len() <= usize::MAX,
        val.len() == col.len(),
        transposes_to(n, row_ptr, col, trp, tcol, src),
        tval.len() == tcol.len(),
        forall|p: int| 0 <= p < tval.len() ==> #[trigger] tval[p] == val[src[p] as int],
        transposes_to(n, trp, tcol, trp2, tcol2, src2),
        tval2.len() == tcol2.len(),
        forall|q: int| 0 <= q < tval2.len() ==> #[trigger] tval2[q] == tval[src2[q] as int],
        0 <= r < n,
    ensures
        entry_pairs(tcol2, tval2).subrange(trp2[r] as int, trp2[r + 1] as int).to_multiset()
            == entry_pairs(col, val).subrange(row_ptr[r] as int, row_ptr[r + 1] as int).to_multiset(),
{
    let nnz = col.len() as int;
    lemma_transpose_layout(n, row_ptr, col, trp, tcol, src);
    lemma_transpose_layout(n, trp, tcol, trp2, tcol2, src2);
    lemma_double_transpose_row_ptr(n, row_ptr, col, trp, tcol, src, trp2, tcol2, src2);
    assert(row_ptr[r + 1] <= row_ptr[n as int]);
    let m2 = entry_pairs(tcol2, tval2).subrange(trp2[r] as int, trp2[r + 1] as int).to_multiset();
    let m1 = entry_pairs(col, val).subrange(row_ptr[r] as int, row_ptr[r + 1] as int).to_multiset();
    assert forall|x: (usize, V)| #[trigger] m2.count(x) == m1.count(x) by {
        let (c, w) = x;
        lemma_pair_count_multiset(tcol2, tval2, c, w, trp2[r] as int, trp2[r + 1] as int);
        lemma_pair_count_multiset(col, val, c, w, row_ptr[r] as int, row_ptr[r + 1] as int);
        if (c as int) < n {
            lemma_row_pair_count(n, row_ptr, col, val, r, c as int, w, row_ptr[r + 1] as int);
            lemma_double_row_pairs(
                n, row_ptr, col, val, trp, tcol, src, tval, trp2, tcol2, src2, tval2, r, c as int, w,
                trp2[r + 1] - trp2[r],
            );
        } else {
            lemma_pair_count_none(tcol2, tval2, c, w, n, trp2[r] as int, trp2[r + 1] as int);
            lemma_pair_count_none(col, val, c, w, n, row_ptr[r] as int, row_ptr[r + 1] as int);
        }
    }
    assert(m2 =~= m1);
}

proof fn lemma_pair_count_none<V>(col: Seq<usize>, val: Seq<V>, c: usize, w: V, n: nat, a: int, b: int)
    requires
        0 <= a <= b <= col.len(),
        forall|i: int| a <= i < b ==> col[i] < n,
        n <= c,
    ensures
        pair_count(col, val, c, w, a, b) == 0,
    decreases b - a,
{
    if b > a {
        lemma_pair_count_none(col, val, c, w, n, a, b - 1);
    }
}

/// In row `r` of the double transpose, the first `k` entries hold column
/// `c` with value `w` as often as the stretch of column-`c` entries among
/// them holds `w`, in the order of the starting row.
proof fn lemma_double_row_pairs<V>(
    n: nat,
    row_ptr: Seq<usize>,
    col: Seq<usize>,
    val: Seq<V>,
    trp: Seq<usize>,
    tcol: Seq<usize>,
    src: Seq<usize>,
    tval: Seq<V>,
    trp2: Seq<usize>,
    tcol2: Seq<usize>,
    src2: Seq<usize>,
    tval2: Seq<V>,
    r: int,
    c: int,
    w: V,
    k: int,
)
    requires
        csr_wf(n, row_ptr, col),
        row_ptr[0] == 0,
        row_ptr[n as int] == col.len(),
        col.len() <= usize::MAX,
        val.len() == col.len(),
        transposes_to(n, row_ptr, col, trp, tcol, src),
        tval.len() == tcol.len(),
        forall|p: int| 0 <= p < tval.len() ==> #[trigger] tval[p] == val[src[p] as int],
        transposes_to(n, trp, tcol, trp2, tcol2, src2),
        tval2.len() == tcol2.len(),
        forall|q: int| 0 <= q < tval2.len() ==> #[trigger] tval2[q] == tval[src2[q] as int],
        0 <= r < n,
        0 <= c < n,
        c <= usize::MAX,
        0 <= k <= trp2[r + 1] - trp2[r],
    ensures
        ({
            let lo = column_entries(tcol, r, trp[c] as int).len() as int;
            let len = entries_before(row_ptr, col, c, r + 1) - entries_before(row_ptr, col, c, r);
            let s = row_column_values(row_ptr, col, val, c, r);
            &&& lo + len <= trp2[r + 1] - trp2[r]
            &&& pair_count(tcol2, tval2, c as usize, w, trp2[r] as int, trp2[r] + k) == if k <= lo {
                0
            } else if k <= lo + len {
                value_count(s, w, k - lo)
            } else {
                value_count(s, w, len)
            }
        }),
    decreases k,
{
    let nnz = col.len() as int;
    lemma_transpose_layout(n, row_ptr, col, trp, tcol, src);
    lemma_transpose_layout(n, trp, tcol, trp2, tcol2, src2);
    lemma_count_below_bounds(col, c, c + 1, nnz);
    lemma_count_below_bounds(col, c + 1, n as int, nnz);
    lemma_count_below_step(col, c, nnz);
    assert(trp[c] <= trp[c + 1]);
    assert(trp[c + 1] <= trp[n as int]);
    assert(row_ptr[r] <= row_ptr[r + 1]);
    assert(row_ptr[r + 1] <= row_ptr[n as int]);
    lemma_column_entries_prefix(col, c, row_ptr[r] as int, row_ptr[r + 1] as int);
    lemma_column_entries_prefix(col, c, row_ptr[r + 1] as int, nnz);
    let lo = column_entries(tcol, r, trp[c] as int).len() as int;
    let a = entries_before(row_ptr, col, c, r);
    let b = entries_before(row_ptr, col, c, r + 1);
    let len_c = trp[c + 1] - trp[c];
    assert(len_c == column_entries(col, c, nnz).len());
    lemma_block_row_count(n, row_ptr, col, trp, tcol, src, r, c, len_c);
    let hi = column_entries(tcol, r, trp[c + 1] as int).len() as int;
    assert(hi == lo + (b - a));
    lemma_column_entries_split(tcol, r, trp[c + 1] as int, nnz);
    assert(trp2[r + 1] <= trp2[n as int]);
    assert(src2.subrange(trp2[r] as int, trp2[r + 1] as int) == column_entries(tcol, r, nnz));
    if k > 0 {
        lemma_double_row_pairs(n, row_ptr, col, val, trp, tcol, src, tval, trp2, tcol2, src2, tval2, r, c, w, k - 1);
        let q = trp2[r] + k - 1;
        let entries = column_entries(tcol, r, nnz);
        let seg = src2.subrange(trp2[r] as int, trp2[r + 1] as int);
        assert(trp2[r + 1] <= trp2[n as int]);
        assert(seg == entries);
        assert(seg[k - 1] == src2[q]);
        lemma_column_entries_split(tcol, r, trp[c] as int, nnz);
        lemma_column_entries_split(tcol, r, trp[c + 1] as int, nnz);
        assert(entries.len() == trp2[r + 1] - trp2[r]);
        let d = tcol2[q] as int;
        assert(d < n);
        assert(trp[d] <= src2[q] < trp[d + 1]);
        if d < c {
            assert(trp[d + 1] <= trp[c]);
        } else if d > c {
            assert(trp[c + 1] <= trp[d]);
        }
        assert((tcol2[q] == c) == (lo <= k - 1 && k - 1 < hi));
        if lo <= k - 1 && k - 1 < hi {
            let j = k - 1 - lo;
            let t = a + j;
            // The entry sits at position `t` of the transposed row `c`.
            lemma_block_row_count(n, row_ptr, col, trp, tcol, src, r, c, t);
            lemma_block_row_count(n, row_ptr, col, trp, tcol, src, r, c, t + 1);
            lemma_column_entries_split(tcol, r, trp[c] + t, nnz);
            lemma_column_entries_split(tcol, r, trp[c] + t + 1, nnz);
            assert(src2[q] == trp[c] + t);
            lemma_block_entry(n, row_ptr, col, trp, tcol, src, r, c, t);
            assert(tval2[q] == tval[trp[c] + t]);
            assert(tval[trp[c] + t] == val[column_entries(col, c, nnz)[t] as int]);
            let sv = row_column_values(row_ptr, col, val, c, r);
            assert(sv[j] == tval2[q]);
            assert(value_count(sv, w, j + 1) == value_count(sv, w, j) + if sv[j] == w {
                1nat
            } else {
                0nat
            });
        }
        assert(pair_count(tcol2, tval2, c as usize, w, trp2[r] as int, trp2[r] + k) == pair_count(
            tcol2,
            tval2,
            c as usize,
            w,
            trp2[r] as int,
            trp2[r] + k - 1,
        ) + if tcol2[q] == c as usize && tval2[q] == w {
            1nat
        } else {
            0nat
        });
    }
}

} // verus!
