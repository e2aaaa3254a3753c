use spanda::drag::DragAxis;
use spanda::gesture::SwipeDirection;
use spanda::keyframe::{Loop, LoopStep};
use spanda::path::BezierPath;
use spanda::timeline::TimelineState;
use spanda::tween::TweenState;

#[test]
fn loop_once_completes_first_iteration() {
    assert_eq!(Loop::Once.iteration_end(0), (LoopStep::Complete, 0));
}

#[test]
fn loop_mode_times_completes_after_n() {
    let mode = Loop::Times(3);
    assert_eq!(mode.iteration_end(0), (LoopStep::Restart, 1));
    assert_eq!(mode.iteration_end(1), (LoopStep::Restart, 2));
    assert_eq!(mode.iteration_end(2), (LoopStep::Complete, 3));
    assert_eq!(Loop::Times(0).iteration_end(0), (LoopStep::Complete, 1));
}

#[test]
fn loop_forever_and_ping_pong_never_complete() {
    assert_eq!(Loop::Forever.iteration_end(7), (LoopStep::Restart, 8));
    assert_eq!(Loop::PingPong.iteration_end(0), (LoopStep::Reverse, 1));
}

#[test]
fn tween_state_pause_and_resume() {
    assert_eq!(TweenState::initial(true), TweenState::Waiting);
    assert_eq!(TweenState::initial(false), TweenState::Running);
    assert_eq!(TweenState::Running.paused(), TweenState::Paused);
    assert_eq!(TweenState::Waiting.paused(), TweenState::Paused);
    assert_eq!(TweenState::Completed.paused(), TweenState::Completed);
    assert_eq!(TweenState::Paused.resumed(true), TweenState::Running);
    assert_eq!(TweenState::Paused.resumed(false), TweenState::Waiting);
    assert_eq!(TweenState::Running.resumed(false), TweenState::Running);
}

#[test]
fn timeline_state_pause_and_resume() {
    assert_eq!(TimelineState::Playing.paused(), TimelineState::Paused);
    assert_eq!(TimelineState::Idle.paused(), TimelineState::Idle);
    assert_eq!(TimelineState::Paused.resumed(), TimelineState::Playing);
    assert_eq!(TimelineState::Completed.resumed(), TimelineState::Completed);
}

#[test]
fn bezier_constructors() {
    match BezierPath::linear(1, 2) {
        BezierPath::Linear { start, end } => assert_eq!((start, end), (1, 2)),
        _ => panic!("expected Linear"),
    }
    match BezierPath::quadratic(1, 2, 3) {
        BezierPath::Quadratic { start, control, end } => assert_eq!((start, control, end), (1, 2, 3)),
        _ => panic!("expected Quadratic"),
    }
    match BezierPath::cubic(1, 2, 3, 4) {
        BezierPath::Cubic { start, control1, control2, end } => {
            assert_eq!((start, control1, control2, end), (1, 2, 3, 4))
        }
        _ => panic!("expected Cubic"),
    }
}

#[test]
fn enums_compare() {
    assert_ne!(DragAxis::X, DragAxis::Y);
    assert_ne!(SwipeDirection::Up, SwipeDirection::Down);
    assert_eq!(SwipeDirection::Left, SwipeDirection::Left);
}

use spanda::timeline::{EntryAction, EntryKind, EntryStatus, TickOutcome};

#[test]
fn timeline_entry_not_due_keeps_timeline_running() {
    let mut e = EntryStatus::new(EntryKind::Animation);
    let mut o = TickOutcome::new();
    assert_eq!(e.begin_tick(false, &mut o), EntryAction::NotYet);
    assert!(!o.all_done);
    assert!(!e.started);
    assert_eq!(o.conclude(true), (None, true));
}

#[test]
fn timeline_animation_entry_starts_then_completes() {
    let mut e = EntryStatus::new(EntryKind::Animation);
    let mut o = TickOutcome::new();
    assert_eq!(e.begin_tick(true, &mut o), EntryAction::Step { first: true });
    e.end_step(true, &mut o);
    assert!(!o.all_done && !e.completed);
    let mut o = TickOutcome::new();
    assert_eq!(e.begin_tick(true, &mut o), EntryAction::Step { first: false });
    e.end_step(false, &mut o);
    assert!(o.all_done && e.completed);
    assert_eq!(o.conclude(true), (Some(TimelineState::Completed), false));
    let mut o = TickOutcome::new();
    assert_eq!(e.begin_tick(true, &mut o), EntryAction::Done);
}

#[test]
fn timeline_pause_point_fires_once() {
    let mut e = EntryStatus::new(EntryKind::Pause);
    let mut o = TickOutcome::new();
    assert_eq!(e.begin_tick(true, &mut o), EntryAction::PauseHere);
    assert!(o.should_pause && e.completed);
    assert_eq!(o.conclude(true), (Some(TimelineState::Paused), true));
    let mut o = TickOutcome::new();
    assert_eq!(e.begin_tick(true, &mut o), EntryAction::Done);
    assert!(!o.should_pause);
    e.reset();
    assert!(!e.started && !e.completed);
    assert_eq!(e.kind, EntryKind::Pause);
}

#[test]
fn timeline_callback_point_fires_once() {
    let mut e = EntryStatus::new(EntryKind::Callback);
    let mut o = TickOutcome::new();
    assert_eq!(e.begin_tick(true, &mut o), EntryAction::Fire);
    assert_eq!(e.begin_tick(true, &mut o), EntryAction::Done);
    assert!(o.all_done);
}

#[test]
fn empty_timeline_never_completes() {
    assert_eq!(TickOutcome::new().conclude(false), (None, true));
}
