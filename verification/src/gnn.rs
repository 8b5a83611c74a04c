//! Configuration and label types of the graph-neural-network layer.

use std::collections::HashMap;

use vstd::prelude::*;

use crate::error::AstraeaError;
use crate::types::NodeId;

verus! {

/// Aggregation strategy for combining neighbor messages.
#[derive(Debug, Clone, Copy, PartialEq, Eq, Structural)]
pub enum Aggregation {
    /// Sum all incoming messages.
    Sum,
    /// Average (mean) of all incoming messages.
    Mean,
    /// Element-wise maximum of all incoming messages.
    Max,
}

/// Activation function applied after aggregation.
#[derive(Debug, Clone, Copy, PartialEq, Eq, Structural)]
pub enum Activation {
    /// Rectified Linear Unit: max(0, x).
    ReLU,
    /// Sigmoid: 1 / (1 + exp(-x)).
    Sigmoid,
    /// Identity (no activation).
    Identity,
}

/// Configuration for a message passing layer.
#[derive(Debug, Clone, Copy, PartialEq, Eq, Structural)]
pub struct MessagePassingConfig {
    pub aggregation: Aggregation,
    pub activation: Activation,
    pub normalize: bool,
}

impl Default for MessagePassingConfig {
    /// Sum aggregation, ReLU activation, no normalization.
    fn default() -> (r: Self)
        ensures
            r.aggregation == Aggregation::Sum,
            r.activation == Activation::ReLU,
            !r.normalize,
    {
        Self { aggregation: Aggregation::Sum, activation: Activation::ReLU, normalize: false }
    }
}

/// Configuration for GraphSAGE-style neighbor sampling.
#[derive(Debug, Clone)]
pub struct SamplingConfig {
    /// Number of neighbors to sample at each layer.
    pub fanout: Vec<usize>,
    /// Number of target (labeled) nodes per mini-batch.
    pub batch_size: usize,
}

/// Labels for supervised node classification.
#[derive(Debug, Clone)]
pub struct TrainingData {
    /// Node-to-class mapping for labeled nodes.
    pub labels: HashMap<NodeId, usize>,
    /// Total number of classes.
    pub num_classes: usize,
}

impl TrainingData {
    /// Check that training can start: there must be labels, and at least
    /// one class.
    pub fn validate(&self) -> (r: Result<(), AstraeaError>)
        ensures
            self.labels@.is_empty() ==> (r matches Err(AstraeaError::QueryExecution(m))
                && m@ == "training data has no labels"@),
            !self.labels@.is_empty() && self.num_classes == 0 ==> (r matches Err(
                AstraeaError::QueryExecution(m),
            ) && m@ == "num_classes must be greater than 0"@),
            !self.labels@.is_empty() && self.num_classes > 0 ==> r is Ok,
    {
        if self.labels.is_empty() {
            return Err(AstraeaError::QueryExecution(String::from_str("training data has no labels")));
        }
        if self.num_classes == 0 {
            return Err(AstraeaError::QueryExecution(String::from_str("num_classes must be greater than 0")));
        }
        Ok(())
    }
}

} // verus!
