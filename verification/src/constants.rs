//! Fixed parameters of the demonstration problem instance and of the
//! engine's fixed-point arithmetic.

use vstd::prelude::*;

verus! {

/// Number of coordinates in a demonstration state vector.
pub const STATE_SIZE: usize = 6;

/// Smallest value a state coordinate may take; mutations clamp to this.
pub const STATE_VALUE_MIN: i32 = -50000;

/// Largest value a state coordinate may take; mutations clamp to this.
pub const STATE_VALUE_MAX: i32 = 50000;

/// Smallest value drawn for an evaluation-tree node or leaf weight.
pub const NODE_VALUE_MIN: i32 = -500;

/// Largest value drawn for an evaluation-tree node or leaf weight.
pub const NODE_VALUE_MAX: i32 = 500;

/// Extra lookahead plies used by the rollout policy when ranking mutations.
pub const HEURISTIC_SEARCH_DEPTH: usize = 0;

/// Fixed-point scale: all fractional quantities are stored as multiples of
/// `1 / FP_SCALE`.
pub const FP_SCALE: u64 = 65536;

/// `ln(2)` in fixed point: `floor(0.6931471... * FP_SCALE)`.
pub const LN2_FP: u64 = 45426;

/// Denominator of fixed-point probabilities: an epsilon of `EPSILON_ONE`
/// means probability one.
pub const EPSILON_ONE: u32 = 65536;

} // verus!
