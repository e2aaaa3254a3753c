//! A general-purpose animation library: the verified core.
//!
//! Holds the parts of the library whose behaviour is exact: text splitting,
//! the structure of SVG path strings, the bookkeeping of the animation
//! driver, loop modes and the lifecycle states of tweens and timelines.

pub mod clock;
pub mod drag;
pub mod driver;
pub mod gesture;
pub mod integrations;
pub mod keyframe;
pub mod path;
pub mod svg_path;
pub mod timeline;
pub mod tween;
