//! Gesture vocabulary.
use vstd::prelude::*;

verus! {

/// Cardinal swipe direction.
#[derive(Debug, Clone, Copy, PartialEq, Eq, Structural)]
pub enum SwipeDirection {
    /// Swipe toward negative Y (upward on screen).
    Up,
    /// Swipe toward positive Y (downward on screen).
    Down,
    /// Swipe toward negative X.
    Left,
    /// Swipe toward positive X.
    Right,
}

} // verus!
