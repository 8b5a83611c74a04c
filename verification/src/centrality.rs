//! Node degrees, the integer part of degree centrality.

use vstd::prelude::*;

use crate::error::AstraeaError;
use crate::traversal::{neighbors, EdgeSource};
use crate::types::{Direction, NodeId};

verus! {

/// The degree of each of `nodes` in the given direction: the number of its
/// edges that direction, each node paired with its count, in order.
pub fn node_degrees<G: EdgeSource>(graph: &G, nodes: &[NodeId], direction: Direction) -> (r: Result<
    Vec<(NodeId, usize)>,
    AstraeaError,
>)
    ensures
        r matches Ok(v) ==> {
            &&& v@.len() == nodes@.len()
            &&& forall|i: int|
                0 <= i < nodes@.len() ==> #[trigger] v@[i] == (
                    nodes@[i],
                    graph.edges_of(nodes@[i], direction).len() as usize,
                )
        },
        graph.never_fails() ==> r is Ok,
{
    let mut out: Vec<(NodeId, usize)> = Vec::new();
    let mut i: usize = 0;
    while i < nodes.len()
        invariant
            i <= nodes@.len(),
            out@.len() == i,
            forall|j: int|
                0 <= j < i ==> #[trigger] out@[j] == (
                    nodes@[j],
                    graph.edges_of(nodes@[j], direction).len() as usize,
                ),
        decreases nodes@.len() - i,
    {
        let node = nodes[i];
        let nbrs = match neighbors(graph, node, direction) {
            Ok(v) => v,
            Err(err) => {
                return Err(err);
            },
        };
        out.push((node, nbrs.len()));
        i = i + 1;
    }
    Ok(out)
}

} // verus!
