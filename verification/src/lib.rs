//! A true-shape nesting engine: a genetic-algorithm search over part
//! orderings and rotations, an exact integer polygon-geometry kernel with
//! convex no-fit polygons via Minkowski sums, and a deterministic
//! bottom-left-fill placement evaluator.
use vstd::prelude::*;

pub mod genetic_algorithm;
pub mod geometry;
pub mod job;
pub mod nest_polygon;
pub mod nesting_runner;
pub mod packing;

verus! {

} // verus!
