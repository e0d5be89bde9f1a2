//! Node identities and fixed-point weights.
//!
//! A weight of `1.0` is represented by `WEIGHT_UNIT`; all weight and score
//! arithmetic is exact integer arithmetic on that scale.

use vstd::prelude::*;

verus! {

/// Identity of a node in the graph.
pub type NodeId = usize;

/// Handle of a walk inside the walk storage.
pub type WalkId = usize;

/// Signed edge weight in fixed-point representation.
pub type Weight = i64;

/// Accumulated penalty or score in fixed-point representation.
pub type Penalty = i128;

/// A node's score from an ego's viewpoint, in fixed-point representation.
pub type Score = i128;

/// The fixed-point representation of `1.0`.
pub const WEIGHT_UNIT: i64 = 1_000_000_000;

/// Weights whose magnitude is at or below this are treated as zero.
pub const EPSILON: i64 = 1;

/// Damping (continuation) probability per step, `0.85` of `WEIGHT_UNIT`.
pub const DEFAULT_ALPHA: i64 = 850_000_000;

/// Largest accepted magnitude of an edge weight.
pub const MAX_WEIGHT: i64 = 1_000_000_000_000_000;

/// Largest length a stored walk may reach.
pub const MAX_WALK_LEN: usize = 65536;

/// Largest number of walk slots the arena may hold.
pub const MAX_WALKS: usize = 100_000_000;

/// Whether an edge addition re-routes a sample of affected walks through the
/// new edge instead of truncating every affected walk.
pub const OPTIMIZE_INVALIDATION: bool = true;

/// Mathematical sign of a weight.
pub open spec fn spec_sign(w: i64) -> int {
    if w > 0 {
        1
    } else if w < 0 {
        -1
    } else {
        0
    }
}

/// Sign of a weight: `1`, `-1` or `0`.
pub fn sign(w: Weight) -> (r: i64)
    ensures
        r as int == spec_sign(w),
{
    if w > 0 {
        1
    } else if w < 0 {
        -1
    } else {
        0
    }
}

} // verus!
