//! Particle renderer settings.
use vstd::prelude::*;

verus! {

/// Blend mode for particle rendering.
#[derive(Debug, Clone, Copy, PartialEq, Eq, Structural)]
pub enum BlendModeDef {
    Opaque,
    Alpha,
    Additive,
    Multiply,
    Subtractive,
}

/// Particle alignment mode.
#[derive(Debug, Clone, Copy, PartialEq, Eq, Structural)]
pub enum AlignmentDef {
    ViewFacing,
    WorldY,
    VelocityAligned,
    Fixed,
}

/// Particle sorting mode.
#[derive(Debug, Clone, Copy, PartialEq, Eq, Structural)]
pub enum SortingDef {
    /// No sorting.
    Unsorted,
    Distance,
    Age,
}

} // verus!
