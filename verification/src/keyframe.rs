//! Loop modes shared by tweens, keyframe tracks and timelines.
use vstd::prelude::*;

verus! {

/// How an animation repeats after reaching the end.
#[derive(Debug, Clone, Copy, PartialEq, Eq, Structural)]
pub enum Loop {
    /// Play once and stop at the last keyframe.
    Once,
    /// Play a fixed number of times.
    Times(u32),
    /// Loop forever.
    Forever,
    /// Play forward then backward, repeating.
    PingPong,
}

/// What an animation does when one iteration has run to its end.
#[derive(Debug, Clone, Copy, PartialEq, Eq, Structural)]
pub enum LoopStep {
    /// Stop at the end: the animation is complete.
    Complete,
    /// Start the next iteration from the beginning.
    Restart,
    /// Start the next iteration in the opposite direction (start and end swap).
    Reverse,
}

/// The step taken at the end of an iteration, and the new count of
/// completed iterations, given the count before.
pub open spec fn spec_iteration_end(mode: Loop, loop_count: u32) -> (LoopStep, int) {
    match mode {
        Loop::Once => (LoopStep::Complete, loop_count as int),
        Loop::Times(n) => if loop_count + 1 >= n {
            (LoopStep::Complete, loop_count + 1)
        } else {
            (LoopStep::Restart, loop_count + 1)
        },
        Loop::Forever => (LoopStep::Restart, loop_count + 1),
        Loop::PingPong => (LoopStep::Reverse, loop_count + 1),
    }
}

impl Loop {
    /// Decide what a tween does when an iteration reaches its end, given the
    /// number of iterations completed before; returns the step and the new
    /// count (a single play does not count its iteration).
    pub fn iteration_end(&self, loop_count: u32) -> (r: (LoopStep, u32))
        requires
            *self != Loop::Once ==> loop_count < u32::MAX,
        ensures
            (r.0, r.1 as int) == spec_iteration_end(*self, loop_count),
    {
        match self {
            Loop::Once => (LoopStep::Complete, loop_count),
            Loop::Times(n) => {
                let count = loop_count + 1;
                if count >= *n {
                    (LoopStep::Complete, count)
                } else {
                    (LoopStep::Restart, count)
                }
            },
            Loop::Forever => (LoopStep::Restart, loop_count + 1),
            Loop::PingPong => (LoopStep::Reverse, loop_count + 1),
        }
    }
}

/// `Times(n)` plays exactly `n` iterations (at least one): iterations end
/// with a restart until the `n`-th, which completes the animation.
pub proof fn lemma_times_plays_n_iterations(n: u32, count: u32)
    requires
        count < n,
    ensures
        spec_iteration_end(Loop::Times(n), count) == if count + 1 == n {
            (LoopStep::Complete, n as int)
        } else {
            (LoopStep::Restart, count + 1)
        },
{
}

/// `Forever` and `PingPong` never complete; `PingPong` reverses direction at
/// the end of every iteration, and both count every iteration.
pub proof fn lemma_endless_modes_never_complete(count: u32)
    ensures
        spec_iteration_end(Loop::Forever, count) == (LoopStep::Restart, count + 1),
        spec_iteration_end(Loop::PingPong, count) == (LoopStep::Reverse, count + 1),
{
}

/// A single play completes at the end of its one iteration without counting
/// it; only a single play and a fixed count ever complete; every other end
/// of an iteration counts exactly one more iteration.
pub proof fn lemma_iteration_end_modes(mode: Loop, count: u32)
    ensures
        spec_iteration_end(Loop::Once, count) == (LoopStep::Complete, count as int),
        spec_iteration_end(mode, count).0 == LoopStep::Complete <==> (mode == Loop::Once || (
        mode is Times && count + 1 >= mode->Times_0)),
        spec_iteration_end(mode, count).0 == LoopStep::Reverse <==> mode == Loop::PingPong,
        mode != Loop::Once ==> spec_iteration_end(mode, count).1 == count + 1,
{
}

} // verus!
