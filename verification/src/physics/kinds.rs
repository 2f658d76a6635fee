//! Small vocabulary types of the physics layer: body and joint kinds, and
//! the error returned for stale handles.

use vstd::prelude::*;

verus! {

/// How a rigid body takes part in the simulation.
#[derive(Debug, Clone, Copy, PartialEq, Eq, Structural)]
pub enum BodyKind {
    /// Moved by the solver.
    Dynamic,
    /// Moved by the caller, never by the solver.
    Kinematic,
    /// Never moves.
    Static,
}

/// The kinds of joint a scene can ask for.
#[derive(Debug, Clone, Copy, PartialEq, Eq, Structural)]
pub enum JointKind {
    /// Locks relative position and orientation.
    Fixed,
    /// Pins a point, leaves rotation free.
    Ball,
    /// Rotation about one axis.
    Hinge,
    /// Translation along one axis.
    Slider,
}

/// Errors from the physics world.
#[derive(Debug, Clone, Copy, PartialEq, Eq, Structural)]
pub enum PhysicsError {
    /// The handle names no slot, or a slot whose body was removed.
    InvalidHandle,
}

impl PhysicsError {
    /// The human-readable message for this error.
    pub fn message(&self) -> (s: String)
        ensures
            s@ == "invalid or stale body handle"@,
    {
        match self {
            PhysicsError::InvalidHandle => String::from_str("invalid or stale body handle"),
        }
    }
}

} // verus!
