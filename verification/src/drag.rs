//! Drag constraints.
use vstd::prelude::*;

verus! {

/// Axis constraint for dragging.
#[derive(Debug, Clone, Copy, PartialEq, Eq, Structural)]
pub enum DragAxis {
    /// Allow only horizontal movement.
    X,
    /// Allow only vertical movement.
    Y,
}

} // verus!
