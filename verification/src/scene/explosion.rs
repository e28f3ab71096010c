//! Explosions: how their force falls off with distance.
use vstd::prelude::*;

verus! {

/// How the explosion force falls off with distance.
#[derive(Debug, Clone, Copy, PartialEq, Eq, Structural)]
pub enum FalloffType {
    /// Force decreases linearly with distance.
    Linear,
    /// Force decreases with the square of distance.
    Quadratic,
    /// Constant force within the radius, zero outside.
    Constant,
    /// Force increases linearly with distance (inverted).
    InverseLinear,
    /// Force increases with the square of distance (inverted quadratic).
    InverseQuadratic,
}

} // verus!
