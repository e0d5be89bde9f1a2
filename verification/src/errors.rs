use vstd::prelude::*;

verus! {

/// Errors reported by the rank engine.
#[derive(Clone, Copy, Debug, PartialEq, Eq, Structural)]
pub enum MeritRankError {
    /// The node named by the caller is not present in the graph.
    NodeDoesNotExist,
    /// No walks have been generated for the requested ego node.
    NodeIsNotCalculated,
    /// A counter is positive although the graph offers no positive path.
    NoPathExists,
    /// A walk was shorter than an operation on it requires.
    InvalidWalkLength,
    /// A weighted selection was attempted over an empty candidate set.
    RandomChoiceError,
    /// The graph holds an edge from a node to itself.
    SelfReferenceNotAllowed,
}

} // verus!
