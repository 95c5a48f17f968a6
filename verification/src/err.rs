use vstd::prelude::*;

verus! {

/// Failure conditions reported by the planner.
///
/// `Numeric` covers arithmetic that left the representable fixed-point
/// range, division by a zero quantity, and a computed plan that missed its
/// own tolerance checks.  `Infeasible` is the distinct condition for a
/// jerk-limited move whose target is too close to finish the acceleration
/// ramps without coasting; such a request is reported rather than planned
/// incorrectly.
#[derive(Clone, Copy, Debug, PartialEq, Eq, Structural)]
pub enum PlanError {
    Numeric,
    Infeasible,
}

} // verus!
