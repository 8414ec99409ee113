//! Risk-aware navigation on a discrete 2-D grid.
//!
//! The library enumerates a ring-shaped legal state space, runs synchronous
//! value iteration to compute a minimal expected cost-to-goal for every state
//! under a stochastic disturbance ("nature") model, extracts a greedy policy
//! from the converged cost vector, and evaluates that policy by Monte-Carlo
//! simulation.
//!
//! Costs are held in fixed-point units: one step of motion costs
//! [`COST_SCALE`] units. Probabilities are held as integer weights out of
//! [`PROB_DENOM`].
use vstd::prelude::*;

pub mod dist;
pub mod model;
pub mod policy;
pub mod sim;
pub mod solver;

verus! {

/// Fixed-point cost units per step: a cost of `1000` means one step.
pub const COST_SCALE: u64 = 1000;

/// Convergence tolerance for value iteration, in cost units (a tenth of a step).
pub const COST_EPSILON: u64 = 100;

/// Sentinel cost for states not yet known to reach the goal (ten thousand steps).
pub const COST_INFINITY: u64 = 10_000_000;

/// Probabilities are integer weights out of this denominator.
pub const PROB_DENOM: u64 = 10_000;

/// Largest accepted grid width.
pub const WIDTH_MAX: i64 = 10_000;

/// Bound on the magnitude of an action displacement component.
pub const DELTA_MAX: i64 = 1_000_000;

/// Bound on the magnitude of a state coordinate accepted by the transition
/// function; legal states are far inside it.
pub const COORD_MAX: i64 = 1_000_000;

/// Conditions a caller got wrong, surfaced before any computation runs.
#[derive(Clone, Copy, Debug, PartialEq, Eq, Structural)]
pub enum GridError {
    /// The grid width is too small to form a ring-shaped state space, or
    /// lies beyond [`WIDTH_MAX`].
    InvalidGeometry,
    /// The nature weights do not sum to [`PROB_DENOM`], or an action is out of bounds.
    MalformedDistribution,
}

} // verus!
