//! Lifecycle states of a tween.
use vstd::prelude::*;

verus! {

/// Current phase of a tween's lifecycle.
#[derive(Debug, Clone, Copy, PartialEq, Eq, Structural)]
pub enum TweenState {
    /// Inside the delay period — animation has not started yet.
    Waiting,
    /// Actively interpolating between `start` and `end`.
    Running,
    /// Reached the end — `value()` returns `end`.
    Completed,
    /// Manually paused.
    Paused,
}

/// The state after a pause request: a waiting or running tween pauses; a
/// completed or already paused one is unchanged.
pub open spec fn spec_paused(s: TweenState) -> TweenState {
    if s == TweenState::Running || s == TweenState::Waiting {
        TweenState::Paused
    } else {
        s
    }
}

/// The state after a resume request: a paused tween runs again when it can
/// run (it has made progress or has no delay left) and waits otherwise; any
/// other state is unchanged.
pub open spec fn spec_resumed(s: TweenState, can_run: bool) -> TweenState {
    if s == TweenState::Paused {
        if can_run {
            TweenState::Running
        } else {
            TweenState::Waiting
        }
    } else {
        s
    }
}

impl TweenState {
    /// The state a tween starts in (when built or reset): waiting while it
    /// has a delay to sit out, running otherwise.
    pub fn initial(has_delay: bool) -> (r: TweenState)
        ensures
            r == (if has_delay { TweenState::Waiting } else { TweenState::Running }),
    {
        if has_delay {
            TweenState::Waiting
        } else {
            TweenState::Running
        }
    }

    /// The state after a pause request.
    pub fn paused(&self) -> (r: TweenState)
        ensures
            r == spec_paused(*self),
    {
        if *self == TweenState::Running || *self == TweenState::Waiting {
            TweenState::Paused
        } else {
            *self
        }
    }

    /// The state after a resume request.
    pub fn resumed(&self, can_run: bool) -> (r: TweenState)
        ensures
            r == spec_resumed(*self, can_run),
    {
        if *self == TweenState::Paused {
            if can_run {
                TweenState::Running
            } else {
                TweenState::Waiting
            }
        } else {
            *self
        }
    }
}

/// Pause then resume brings a waiting or running tween back to running when
/// it can run and to waiting otherwise; a completed tween ignores both,
/// pausing twice is the same as pausing once, a pause never leaves a tween
/// running or waiting, and a resume never leaves it paused.
pub proof fn lemma_pause_then_resume(s: TweenState, can_run: bool)
    ensures
        spec_paused(s) != TweenState::Running && spec_paused(s) != TweenState::Waiting,
        spec_resumed(s, can_run) != TweenState::Paused,
        (s == TweenState::Running || s == TweenState::Waiting) ==> spec_resumed(spec_paused(s), can_run)
            == (if can_run { TweenState::Running } else { TweenState::Waiting }),
        s == TweenState::Completed ==> spec_paused(s) == s && spec_resumed(s, can_run) == s,
        spec_paused(spec_paused(s)) == spec_paused(s),
{
}

} // verus!
