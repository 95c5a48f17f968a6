//! Single-axis trajectory planning with verified fixed-point arithmetic.
//!
//! The planner turns a position target and kinematic limits (maximum
//! acceleration, optionally maximum jerk) into a queue of motion segments,
//! each holding the highest controlled derivative constant, and advances
//! through that queue as simulation time passes.  All arithmetic is exact
//! decimal fixed-point with fifteen places, so every contract below is a
//! statement about integers.

pub mod err;
pub mod fixed;
pub mod path;
pub mod poly;
pub mod segment;

pub use err::PlanError;
pub use fixed::Fixed;
pub use path::Path;
pub use poly::Poly;
pub use segment::Segment;
