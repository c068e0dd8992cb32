//! Building blocks of a bucket-based multi-scalar multiplication over the
//! BLS12-381 curve.
//!
//! [`batch_adder`] adds many pairs of affine points with a single field
//! inversion. [`collision_state`] schedules the bucket updates that cannot
//! share a batch because they hit the same bucket. [`point`] and [`field`]
//! hold the points, the field elements and the arithmetic that the contracts
//! are stated in.

pub mod batch_adder;
pub mod collision_state;
pub mod field;
pub mod point;
