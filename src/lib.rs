//! Exact analytic geometry for a circle and a line in the plane: lines in
//! general form through two points, line–circle intersection, tangents,
//! reflection of a ray off a circle, and the draggable control points that
//! drive an interactive scene.
//!
//! Coordinates are integers (pixel units). Every quantity is computed exactly;
//! the only roundings are the floor of a square root and the floor of a
//! division, both stated in the contracts.
use vstd::prelude::*;

pub mod arith;
pub mod dot;
pub mod line;
pub mod circle;
pub mod scene;
pub mod control;
pub mod laws;

verus! {

/// Failures of the geometry core.
#[derive(Clone, Copy, Debug, PartialEq, Eq, Structural)]
pub enum GeomError {
    /// A line with `a == 0 && b == 0`: it passes through no well-defined
    /// direction (for instance the two defining points coincide).
    DegenerateLine,
    /// A nearest-point search over an empty sequence.
    EmptyNearestSearch,
}

} // verus!
