//! Bezier path segments.
use vstd::prelude::*;

verus! {

/// A single Bezier curve segment — linear, quadratic, or cubic.
#[derive(Debug, Clone)]
pub enum BezierPath<T> {
    /// Straight line from `start` to `end`.
    Linear {
        /// Starting point.
        start: T,
        /// Ending point.
        end: T,
    },
    /// Quadratic Bezier with one control point.
    Quadratic {
        /// Starting point.
        start: T,
        /// Control point.
        control: T,
        /// Ending point.
        end: T,
    },
    /// Cubic Bezier with two control points.
    Cubic {
        /// Starting point.
        start: T,
        /// First control point.
        control1: T,
        /// Second control point.
        control2: T,
        /// Ending point.
        end: T,
    },
}

impl<T> BezierPath<T> {
    /// Create a linear (straight-line) path.
    pub fn linear(start: T, end: T) -> (p: Self)
        ensures
            p == (BezierPath::Linear { start, end }),
    {
        BezierPath::Linear { start, end }
    }

    /// Create a quadratic Bezier path.
    pub fn quadratic(start: T, control: T, end: T) -> (p: Self)
        ensures
            p == (BezierPath::Quadratic { start, control, end }),
    {
        BezierPath::Quadratic { start, control, end }
    }

    /// Create a cubic Bezier path.
    pub fn cubic(start: T, control1: T, control2: T, end: T) -> (p: Self)
        ensures
            p == (BezierPath::Cubic { start, control1, control2, end }),
    {
        BezierPath::Cubic { start, control1, control2, end }
    }
}

} // verus!
