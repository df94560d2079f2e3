//! The failures that graph queries report.

use vstd::prelude::*;

verus! {

/// Why a graph query could not produce a result.
#[derive(Clone, Copy, Debug, PartialEq, Eq, Structural)]
pub enum GraphError {
    /// A node value has no index in the graph.
    NodeNotFound,
    /// An index is not below the number of nodes.
    OutOfRange,
    /// No walk leads from the source to the target.
    Unreachable,
}

impl GraphError {
    /// A short description of the failure.
    pub fn message(&self) -> (text: &'static str)
        ensures
            text@ == match *self {
                GraphError::NodeNotFound => "node not found"@,
                GraphError::OutOfRange => "index out of range"@,
                GraphError::Unreachable => "target unreachable"@,
            },
    {
        match self {
            GraphError::NodeNotFound => "node not found",
            GraphError::OutOfRange => "index out of range",
            GraphError::Unreachable => "target unreachable",
        }
    }
}

} // verus!
