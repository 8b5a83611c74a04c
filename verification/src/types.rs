//! Identifier newtypes, traversal direction, temporal validity intervals,
//! graph paths and distance metrics.

use vstd::prelude::*;

use crate::decimal::{decimal_digits, prefixed_decimal};

verus! {

/// Unique identifier for a node in the graph.
#[derive(Debug, Clone, Copy, PartialEq, Eq, Structural, Hash, PartialOrd, Ord)]
pub struct NodeId(pub u64);

/// Unique identifier for an edge in the graph.
#[derive(Debug, Clone, Copy, PartialEq, Eq, Structural, Hash, PartialOrd, Ord)]
pub struct EdgeId(pub u64);

/// Unique identifier for a page in the storage engine.
#[derive(Debug, Clone, Copy, PartialEq, Eq, Structural, Hash)]
pub struct PageId(pub u64);

/// Unique identifier for a transaction.
#[derive(Debug, Clone, Copy, PartialEq, Eq, Structural, Hash, PartialOrd, Ord)]
pub struct TransactionId(pub u64);

/// Log sequence number for WAL entries.
#[derive(Debug, Clone, Copy, PartialEq, Eq, Structural, Hash, PartialOrd, Ord)]
pub struct Lsn(pub u64);

impl NodeId {
    /// Textual form `n<id>`.
    pub fn to_string(&self) -> (r: String)
        ensures
            r@ == seq!['n'] + decimal_digits(self.0 as nat),
    {
        proof { reveal_strlit("n"); }
        prefixed_decimal("n", self.0)
    }
}

impl EdgeId {
    /// Textual form `e<id>`.
    pub fn to_string(&self) -> (r: String)
        ensures
            r@ == seq!['e'] + decimal_digits(self.0 as nat),
    {
        proof { reveal_strlit("e"); }
        prefixed_decimal("e", self.0)
    }
}

impl PageId {
    /// Textual form `p<id>`.
    pub fn to_string(&self) -> (r: String)
        ensures
            r@ == seq!['p'] + decimal_digits(self.0 as nat),
    {
        proof { reveal_strlit("p"); }
        prefixed_decimal("p", self.0)
    }
}

impl TransactionId {
    /// Textual form `tx<id>`.
    pub fn to_string(&self) -> (r: String)
        ensures
            r@ == seq!['t', 'x'] + decimal_digits(self.0 as nat),
    {
        proof { reveal_strlit("tx"); }
        prefixed_decimal("tx", self.0)
    }
}

impl Lsn {
    /// Textual form `lsn<n>`.
    pub fn to_string(&self) -> (r: String)
        ensures
            r@ == seq!['l', 's', 'n'] + decimal_digits(self.0 as nat),
    {
        proof { reveal_strlit("lsn"); }
        prefixed_decimal("lsn", self.0)
    }
}

/// Direction for edge traversal.
#[derive(Debug, Clone, Copy, PartialEq, Eq, Structural)]
pub enum Direction {
    Outgoing,
    Incoming,
    Both,
}

/// Temporal validity interval for edges.
#[derive(Debug, Clone, Copy, PartialEq, Eq, Structural)]
pub struct ValidityInterval {
    /// Start of validity (epoch milliseconds), inclusive. `None` = unbounded start.
    pub valid_from: Option<i64>,
    /// End of validity (epoch milliseconds), exclusive. `None` = still valid.
    pub valid_to: Option<i64>,
}

impl ValidityInterval {
    /// The interval `[valid_from, valid_to)` holds `timestamp`; a missing bound
    /// does not constrain.
    pub open spec fn holds(self, timestamp: i64) -> bool {
        &&& (self.valid_from matches Some(start) ==> timestamp >= start)
        &&& (self.valid_to matches Some(end) ==> timestamp < end)
    }

    /// An interval that is always valid (no bounds).
    pub fn always() -> (r: Self)
        ensures
            r.valid_from is None,
            r.valid_to is None,
    {
        Self { valid_from: None, valid_to: None }
    }

    /// Check if the interval contains the given timestamp.
    pub fn contains(&self, timestamp: i64) -> (r: bool)
        ensures
            r == self.holds(timestamp),
    {
        let after_start = match self.valid_from {
            None => true,
            Some(start) => timestamp >= start,
        };
        let before_end = match self.valid_to {
            None => true,
            Some(end) => timestamp < end,
        };
        after_start && before_end
    }
}

/// An ordered path through the graph: a start node followed by
/// `(edge taken, node arrived at)` steps.
#[derive(Debug, Clone)]
pub struct GraphPath {
    pub start: NodeId,
    pub steps: Vec<(EdgeId, NodeId)>,
}

/// The nodes visited by a path that starts at `start` and takes `steps`.
pub open spec fn path_nodes(start: NodeId, steps: Seq<(EdgeId, NodeId)>) -> Seq<NodeId> {
    seq![start] + steps.map_values(|s: (EdgeId, NodeId)| s.1)
}

impl GraphPath {
    /// The final node of the path: the node of the last step, or the start.
    pub open spec fn last_node(self) -> NodeId {
        if self.steps@.len() == 0 {
            self.start
        } else {
            self.steps@.last().1
        }
    }

    pub fn new(start: NodeId) -> (r: Self)
        ensures
            r.start == start,
            r.steps@.len() == 0,
    {
        Self { start, steps: Vec::new() }
    }

    pub fn push(&mut self, edge: EdgeId, node: NodeId)
        ensures
            final(self).start == old(self).start,
            final(self).steps@ == old(self).steps@.push((edge, node)),
    {
        self.steps.push((edge, node));
    }

    pub fn len(&self) -> (r: usize)
        ensures
            r == self.steps@.len(),
    {
        self.steps.len()
    }

    pub fn is_empty(&self) -> (r: bool)
        ensures
            r == (self.steps@.len() == 0),
    {
        self.steps.len() == 0
    }

    /// The final node in the path.
    pub fn end(&self) -> (r: NodeId)
        ensures
            r == self.last_node(),
    {
        let n = self.steps.len();
        if n == 0 {
            self.start
        } else {
            self.steps[n - 1].1
        }
    }

    /// All node IDs in the path, including start.
    pub fn nodes(&self) -> (r: Vec<NodeId>)
        ensures
            r@ == path_nodes(self.start, self.steps@),
    {
        let mut nodes: Vec<NodeId> = Vec::new();
        nodes.push(self.start);
        let mut i: usize = 0;
        while i < self.steps.len()
            invariant
                i <= self.steps@.len(),
                nodes@ == path_nodes(self.start, self.steps@.take(i as int)),
            decreases self.steps@.len() - i,
        {
            nodes.push(self.steps[i].1);
            i = i + 1;
            assert(self.steps@.take(i as int) == self.steps@.take(i - 1).push(self.steps@[i - 1]));
        }
        assert(self.steps@.take(i as int) == self.steps@);
        nodes
    }
}

/// Distance metric for vector similarity search.
#[derive(Debug, Clone, Copy, PartialEq, Eq, Structural)]
pub enum DistanceMetric {
    Cosine,
    Euclidean,
    DotProduct,
}

} // verus!
