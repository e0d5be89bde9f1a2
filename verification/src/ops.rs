//! Operation and result records of the service boundary around the engine.

use vstd::prelude::*;
use crate::types::Score;

verus! {

/// Operations that mutate a graph.
#[derive(Debug, PartialEq, Eq, Structural)]
pub enum AugGraphOpcode {
    WriteEdge,
}

/// One mutation, addressed by the name of its ego.
#[derive(Debug)]
pub struct AugGraphOp {
    pub opcode: AugGraphOpcode,
    pub ego_str: String,
}

impl AugGraphOp {
    pub fn new(opcode: AugGraphOpcode, ego_str: String) -> (r: Self)
        ensures
            r.opcode == opcode,
            r.ego_str == ego_str,
    {
        AugGraphOp { opcode, ego_str }
    }
}

/// Requests the service accepts.
#[derive(Debug, PartialEq, Eq, Structural)]
pub enum ServiceRequestOpcode {
    ReadScores,
    WriteEdge,
}

impl ServiceRequestOpcode {
    /// Whether the request only reads.
    pub fn is_read(&self) -> (r: bool)
        ensures
            r == (*self == ServiceRequestOpcode::ReadScores),
    {
        match self {
            ServiceRequestOpcode::ReadScores => true,
            ServiceRequestOpcode::WriteEdge => false,
        }
    }
}

/// A service reply: one machine word.
#[derive(Debug, PartialEq, Eq, Structural)]
pub struct Response {
    pub response: u64,
}

/// One scored pair of nodes, with both viewing directions and their
/// clusters.
#[derive(Debug, Clone)]
pub struct ScoreResult {
    pub ego: String,
    pub target: String,
    pub score: Score,
    pub reverse_score: Score,
    pub cluster: usize,
    pub reverse_cluster: usize,
}

} // verus!
