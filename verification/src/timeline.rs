//! Playback states of a timeline.
use vstd::prelude::*;

verus! {

/// Current playback state of a timeline.
#[derive(Debug, Clone, Copy, PartialEq, Eq, Structural)]
pub enum TimelineState {
    /// Not yet started.
    Idle,
    /// Currently playing.
    Playing,
    /// Manually paused.
    Paused,
    /// All entries have completed.
    Completed,
}

/// Pausing only affects a playing timeline.
pub open spec fn spec_timeline_paused(s: TimelineState) -> TimelineState {
    if s == TimelineState::Playing {
        TimelineState::Paused
    } else {
        s
    }
}

/// Resuming only affects a paused timeline.
pub open spec fn spec_timeline_resumed(s: TimelineState) -> TimelineState {
    if s == TimelineState::Paused {
        TimelineState::Playing
    } else {
        s
    }
}

impl TimelineState {
    /// The state after a pause request.
    pub fn paused(&self) -> (r: TimelineState)
        ensures
            r == spec_timeline_paused(*self),
    {
        if *self == TimelineState::Playing {
            TimelineState::Paused
        } else {
            *self
        }
    }

    /// The state after a resume request.
    pub fn resumed(&self) -> (r: TimelineState)
        ensures
            r == spec_timeline_resumed(*self),
    {
        if *self == TimelineState::Paused {
            TimelineState::Playing
        } else {
            *self
        }
    }
}

/// Resuming undoes pausing a playing timeline; idle and completed timelines
/// ignore both requests.
pub proof fn lemma_timeline_pause_resume(s: TimelineState)
    ensures
        s == TimelineState::Playing ==> spec_timeline_resumed(spec_timeline_paused(s)) == s,
        (s == TimelineState::Idle || s == TimelineState::Completed) ==> spec_timeline_paused(s) == s
            && spec_timeline_resumed(s) == s,
{
}


/// Pausing never starts playback, a paused timeline stays paused when paused
/// again, and only a playing timeline changes state.
pub proof fn lemma_timeline_pause_idempotent(s: TimelineState)
    ensures
        spec_timeline_paused(s) != TimelineState::Playing,
        spec_timeline_paused(spec_timeline_paused(s)) == spec_timeline_paused(s),
        s == TimelineState::Paused ==> spec_timeline_paused(s) == TimelineState::Paused,
        s == TimelineState::Playing ==> spec_timeline_paused(s) == TimelineState::Paused,
        s != TimelineState::Playing ==> spec_timeline_paused(s) == s,
{
}

/// Resuming never pauses, a playing timeline stays playing when resumed
/// again, and only a paused timeline changes state.
pub proof fn lemma_timeline_resume_idempotent(s: TimelineState)
    ensures
        spec_timeline_resumed(s) != TimelineState::Paused,
        spec_timeline_resumed(spec_timeline_resumed(s)) == spec_timeline_resumed(s),
        s == TimelineState::Playing ==> spec_timeline_resumed(s) == TimelineState::Playing,
        s == TimelineState::Paused ==> spec_timeline_resumed(s) == TimelineState::Playing,
        s != TimelineState::Paused ==> spec_timeline_resumed(s) == s,
{
}


/// Kind of timeline entry.
#[derive(Debug, Clone, Copy, PartialEq, Eq, Structural)]
pub enum EntryKind {
    /// Regular animation entry.
    Animation,
    /// Callback entry (fires at a specific time).
    Callback,
    /// Pause point (timeline pauses when reached).
    Pause,
}

/// Bookkeeping of one timeline entry.
#[derive(Debug, Clone, Copy, PartialEq, Eq, Structural)]
pub struct EntryStatus {
    /// Entry kind (animation, callback, or pause).
    pub kind: EntryKind,
    /// Whether this entry has been started.
    pub started: bool,
    /// Whether this entry has completed.
    pub completed: bool,
}

/// What a tick does with an entry.
#[derive(Debug, Clone, Copy, PartialEq, Eq, Structural)]
pub enum EntryAction {
    /// Nothing: the entry is done (or was fired earlier).
    Done,
    /// Nothing yet: the timeline has not reached the entry's start.
    NotYet,
    /// A pause point is reached: the timeline stops at the entry's start.
    PauseHere,
    /// A callback point is reached: fire its callback.
    Fire,
    /// Step the animation forward; `first` when it starts in this tick (it
    /// then gets only the time elapsed since its start).
    Step {
        /// The entry starts in this tick.
        first: bool,
    },
}

/// What a tick has found so far: whether every entry is done, and whether a
/// pause point was reached.
#[derive(Debug, Clone, Copy, PartialEq, Eq, Structural)]
pub struct TickOutcome {
    /// No entry seen so far is still pending or running.
    pub all_done: bool,
    /// A pause point was reached.
    pub should_pause: bool,
}

/// An entry that has not started.
pub open spec fn spec_fresh(kind: EntryKind) -> EntryStatus {
    EntryStatus { kind, started: false, completed: false }
}

/// A tick reaching an entry: the new bookkeeping, the new outcome and what to
/// do with the entry. `due` tells whether the timeline has reached the
/// entry's start time.
pub open spec fn spec_begin(e: EntryStatus, due: bool, o: TickOutcome) -> (EntryStatus, TickOutcome, EntryAction) {
    if e.completed {
        (e, o, EntryAction::Done)
    } else if !due {
        (e, TickOutcome { all_done: false, ..o }, EntryAction::NotYet)
    } else {
        match e.kind {
            EntryKind::Pause => if !e.started {
                (
                    EntryStatus { started: true, completed: true, ..e },
                    TickOutcome { should_pause: true, ..o },
                    EntryAction::PauseHere,
                )
            } else {
                (e, o, EntryAction::Done)
            },
            EntryKind::Callback => if !e.started {
                (EntryStatus { started: true, completed: true, ..e }, o, EntryAction::Fire)
            } else {
                (e, o, EntryAction::Done)
            },
            EntryKind::Animation => (
                EntryStatus { started: true, ..e },
                o,
                EntryAction::Step { first: !e.started },
            ),
        }
    }
}

/// An animation step reported whether the animation is still running.
pub open spec fn spec_end_step(e: EntryStatus, still_running: bool, o: TickOutcome) -> (EntryStatus, TickOutcome) {
    if !still_running {
        (EntryStatus { completed: true, ..e }, o)
    } else {
        (e, TickOutcome { all_done: false, ..o })
    }
}

/// The end of a tick: the state to switch to, if any, and whether the
/// timeline is still running. A reached pause point pauses it; otherwise it
/// completes once every entry is done (and there is at least one).
pub open spec fn spec_conclude(o: TickOutcome, has_entries: bool) -> (Option<TimelineState>, bool) {
    if o.should_pause {
        (Some(TimelineState::Paused), true)
    } else if o.all_done && has_entries {
        (Some(TimelineState::Completed), false)
    } else {
        (None, true)
    }
}

/// An entry whose start time the timeline has not reached is never acted
/// on: whatever its kind, a tick leaves it unchanged, reports `NotYet` (so no
/// callback fires and no pause point pauses) and notes that the timeline is
/// not done; only the pause flag of the outcome is kept.
pub proof fn lemma_begin_not_due(e: EntryStatus, o: TickOutcome)
    requires
        !e.completed,
    ensures
        spec_begin(e, false, o) == (e, TickOutcome { all_done: false, should_pause: o.should_pause }, EntryAction::NotYet),
{
}

/// A tick acts on an entry only when the entry is due and not completed; a
/// callback fires, and a pause point pauses, only on the tick that first
/// reaches it, and the entry is then completed, so it fires once. An
/// animation is stepped, and only a pause point raises the pause flag.
pub proof fn lemma_begin_actions(e: EntryStatus, due: bool, o: TickOutcome)
    ensures
        ({
            let (e2, o2, a) = spec_begin(e, due, o);
            &&& (a is Fire || a is PauseHere || a is Step) ==> due && !e.completed
            &&& a is Fire <==> (due && !e.completed && !e.started && e.kind == EntryKind::Callback)
            &&& a is PauseHere <==> (due && !e.completed && !e.started && e.kind == EntryKind::Pause)
            &&& a is Step <==> (due && !e.completed && e.kind == EntryKind::Animation)
            &&& (a is Fire || a is PauseHere) ==> e2.started && e2.completed
            &&& e.completed ==> e2 == e && o2 == o && a is Done
            &&& e2.kind == e.kind
            &&& e.completed ==> e2.completed
            &&& o2.should_pause <==> (o.should_pause || a is PauseHere)
            &&& spec_begin(e2, due, o2).2 !is Fire
            &&& spec_begin(e2, due, o2).2 !is PauseHere
        }),
{
}

/// A reached pause point always pauses the timeline and keeps it running,
/// whether or not other entries are still pending; the timeline completes
/// only when every entry is done, no pause point was reached and there is at
/// least one entry.
pub proof fn lemma_conclude_pause_wins(o: TickOutcome, has_entries: bool)
    ensures
        o.should_pause ==> spec_conclude(o, has_entries) == (Some(TimelineState::Paused), true),
        spec_conclude(o, has_entries).0 == Some(TimelineState::Completed) <==> (o.all_done
            && !o.should_pause && has_entries),
        spec_conclude(o, has_entries).0 == Some(TimelineState::Paused) <==> o.should_pause,
        spec_conclude(o, has_entries).1 <==> spec_conclude(o, has_entries).0 != Some(
            TimelineState::Completed,
        ),
        spec_conclude(o, has_entries).0 != Some(TimelineState::Playing),
        spec_conclude(o, has_entries).0 != Some(TimelineState::Idle),
{
}

impl EntryStatus {
    /// Bookkeeping of a new entry.
    pub fn new(kind: EntryKind) -> (e: EntryStatus)
        ensures
            e == spec_fresh(kind),
    {
        EntryStatus { kind, started: false, completed: false }
    }

    /// Forget that the entry started or completed (seek and reset).
    pub fn reset(&mut self)
        ensures
            *final(self) == spec_fresh(old(self).kind),
    {
        self.started = false;
        self.completed = false;
    }

    /// A tick reaches this entry; `due` tells whether the timeline has
    /// reached the entry's start time.
    pub fn begin_tick(&mut self, due: bool, outcome: &mut TickOutcome) -> (a: EntryAction)
        ensures
            (*final(self), *final(outcome), a) == spec_begin(*old(self), due, *old(outcome)),
    {
        if self.completed {
            return EntryAction::Done;
        }
        if !due {
            outcome.all_done = false;
            return EntryAction::NotYet;
        }
        match self.kind {
            EntryKind::Pause => {
                if !self.started {
                    self.started = true;
                    self.completed = true;
                    outcome.should_pause = true;
                    EntryAction::PauseHere
                } else {
                    EntryAction::Done
                }
            },
            EntryKind::Callback => {
                if !self.started {
                    self.started = true;
                    self.completed = true;
                    EntryAction::Fire
                } else {
                    EntryAction::Done
                }
            },
            EntryKind::Animation => {
                let first = !self.started;
                self.started = true;
                EntryAction::Step { first }
            },
        }
    }

    /// The animation of this entry was stepped and reported whether it is
    /// still running.
    pub fn end_step(&mut self, still_running: bool, outcome: &mut TickOutcome)
        ensures
            (*final(self), *final(outcome)) == spec_end_step(*old(self), still_running, *old(outcome)),
    {
        if !still_running {
            self.completed = true;
        } else {
            outcome.all_done = false;
        }
    }
}

impl TickOutcome {
    /// The outcome before any entry is seen.
    pub fn new() -> (o: TickOutcome)
        ensures
            o == (TickOutcome { all_done: true, should_pause: false }),
    {
        TickOutcome { all_done: true, should_pause: false }
    }

    /// The end of a tick over a timeline that has entries (`has_entries`).
    pub fn conclude(&self, has_entries: bool) -> (r: (Option<TimelineState>, bool))
        ensures
            r == spec_conclude(*self, has_entries),
    {
        if self.should_pause {
            (Some(TimelineState::Paused), true)
        } else if self.all_done && has_entries {
            (Some(TimelineState::Completed), false)
        } else {
            (None, true)
        }
    }
}

/// One entry's part of a tick: begin it, and when the tick steps its
/// animation, end the step with the animation's report.
pub open spec fn spec_visit(e: EntryStatus, due: bool, running: bool, o: TickOutcome) -> (EntryStatus, TickOutcome) {
    let b = spec_begin(e, due, o);
    match b.2 {
        EntryAction::Step { .. } => spec_end_step(b.0, running, b.1),
        _ => (b.0, b.1),
    }
}

/// A tick over the first `n` entries, given for each entry whether it is due
/// and what its animation reports when stepped.
pub open spec fn spec_scan(entries: Seq<EntryStatus>, due: Seq<bool>, running: Seq<bool>, n: int) -> (Seq<EntryStatus>, TickOutcome)
    decreases n,
{
    if n <= 0 {
        (entries, TickOutcome { all_done: true, should_pause: false })
    } else {
        let prev = spec_scan(entries, due, running, n - 1);
        let v = spec_visit(prev.0[n - 1], due[n - 1], running[n - 1], prev.1);
        (prev.0.update(n - 1, v.0), v.1)
    }
}

/// Callbacks and pause points complete as soon as they start.
pub open spec fn points_complete_when_started(entries: Seq<EntryStatus>) -> bool {
    forall|i: int|
        0 <= i < entries.len() && (#[trigger] entries[i]).kind != EntryKind::Animation
            && entries[i].started ==> entries[i].completed
}

/// After a tick over all entries: the tick finds every entry done exactly
/// when every entry has completed; completed entries stay completed; and
/// callbacks and pause points still complete as soon as they start.
pub proof fn lemma_tick_done_iff_all_completed(
    entries: Seq<EntryStatus>,
    due: Seq<bool>,
    running: Seq<bool>,
)
    requires
        due.len() == entries.len(),
        running.len() == entries.len(),
        points_complete_when_started(entries),
    ensures
        ({
            let r = spec_scan(entries, due, running, entries.len() as int);
            &&& r.0.len() == entries.len()
            &&& r.1.all_done <==> forall|i: int| 0 <= i < r.0.len() ==> (#[trigger] r.0[i]).completed
            &&& forall|i: int| 0 <= i < entries.len() && (#[trigger] entries[i]).completed ==> r.0[i].completed
            &&& points_complete_when_started(r.0)
        }),
{
    lemma_scan_prefix(entries, due, running, entries.len() as int);
}

proof fn lemma_scan_prefix(entries: Seq<EntryStatus>, due: Seq<bool>, running: Seq<bool>, n: int)
    requires
        0 <= n <= entries.len(),
        due.len() == entries.len(),
        running.len() == entries.len(),
        points_complete_when_started(entries),
    ensures
        ({
            let r = spec_scan(entries, due, running, n);
            &&& r.0.len() == entries.len()
            &&& r.1.all_done <==> forall|i: int| 0 <= i < n ==> (#[trigger] r.0[i]).completed
            &&& forall|i: int| n <= i < entries.len() ==> #[trigger] r.0[i] == entries[i]
            &&& forall|i: int| 0 <= i < entries.len() && (#[trigger] entries[i]).completed ==> r.0[i].completed
            &&& points_complete_when_started(r.0)
        }),
    decreases n,
{
    if n > 0 {
        lemma_scan_prefix(entries, due, running, n - 1);
        let prev = spec_scan(entries, due, running, n - 1);
        let r = spec_scan(entries, due, running, n);
        let e = prev.0[n - 1];
        assert(e == entries[n - 1]);
        assert forall|i: int| 0 <= i < n implies (#[trigger] r.0[i]).completed == (if i == n - 1 {
            r.0[n - 1].completed
        } else {
            prev.0[i].completed
        }) by {}
        assert(r.1.all_done <==> (prev.1.all_done && r.0[n - 1].completed));
        if r.1.all_done {
            assert forall|i: int| 0 <= i < n implies (#[trigger] r.0[i]).completed by {
                if i < n - 1 {
                    assert(prev.0[i].completed);
                }
            }
        } else if r.0[n - 1].completed {
            let j = choose|j: int| 0 <= j < n - 1 && !(#[trigger] prev.0[j]).completed;
            assert(!r.0[j].completed);
        }
        assert(r.0.len() == entries.len());
        assert(forall|i: int| n <= i < entries.len() ==> #[trigger] r.0[i] == entries[i]);
        assert(forall|i: int| 0 <= i < entries.len() && (#[trigger] entries[i]).completed ==> r.0[i].completed);
        assert(points_complete_when_started(r.0));
    }
}

/// Over a whole tick: entries the timeline has not reached are left exactly
/// as they were (no callback fires and no pause point is used up early), and
/// a pause point that the tick reaches for the first time pauses the tick and
/// is completed by it.
pub proof fn lemma_tick_not_due_untouched(entries: Seq<EntryStatus>, due: Seq<bool>, running: Seq<bool>)
    requires
        due.len() == entries.len(),
        running.len() == entries.len(),
    ensures
        ({
            let r = spec_scan(entries, due, running, entries.len() as int);
            &&& r.0.len() == entries.len()
            &&& forall|i: int| 0 <= i < entries.len() && !due[i] ==> #[trigger] r.0[i] == entries[i]
            &&& forall|i: int|
                0 <= i < entries.len() && due[i] && (#[trigger] entries[i]).kind == EntryKind::Pause
                    && !entries[i].started && !entries[i].completed ==> r.1.should_pause
                    && r.0[i].completed
        }),
{
    lemma_scan_reach(entries, due, running, entries.len() as int);
}

proof fn lemma_scan_reach(entries: Seq<EntryStatus>, due: Seq<bool>, running: Seq<bool>, n: int)
    requires
        0 <= n <= entries.len(),
        due.len() == entries.len(),
        running.len() == entries.len(),
    ensures
        ({
            let r = spec_scan(entries, due, running, n);
            &&& r.0.len() == entries.len()
            &&& forall|i: int| n <= i < entries.len() ==> #[trigger] r.0[i] == entries[i]
            &&& forall|i: int| 0 <= i < n && !due[i] ==> #[trigger] r.0[i] == entries[i]
            &&& forall|i: int|
                0 <= i < n && due[i] && (#[trigger] entries[i]).kind == EntryKind::Pause
                    && !entries[i].started && !entries[i].completed ==> r.1.should_pause
                    && r.0[i].completed
        }),
    decreases n,
{
    if n > 0 {
        lemma_scan_reach(entries, due, running, n - 1);
        let prev = spec_scan(entries, due, running, n - 1);
        let r = spec_scan(entries, due, running, n);
        assert(prev.0[n - 1] == entries[n - 1]);
        let e = entries[n - 1];
        let b = spec_begin(e, due[n - 1], prev.1);
        assert(b.1.should_pause ==> r.1.should_pause);
        assert(prev.1.should_pause ==> b.1.should_pause);
        assert(forall|i: int| n <= i < entries.len() ==> #[trigger] r.0[i] == entries[i]);
        assert forall|i: int| 0 <= i < n && !due[i] implies #[trigger] r.0[i] == entries[i] by {
            if i < n - 1 {
                assert(r.0[i] == prev.0[i]);
            }
        }
        assert forall|i: int|
            0 <= i < n && due[i] && (#[trigger] entries[i]).kind == EntryKind::Pause
                && !entries[i].started && !entries[i].completed implies r.1.should_pause
                && r.0[i].completed by {
            if i < n - 1 {
                assert(r.0[i] == prev.0[i]);
            }
        }
    }
}

} // verus!
