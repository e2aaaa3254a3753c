//! Wall-clock time source.
use vstd::prelude::*;
use std::time::{Duration, Instant};

verus! {

/// A point in time from std's monotonic clock.
#[verifier::external_type_specification]
#[verifier::external_body]
pub struct ExInstant(Instant);

/// `Instant::now`: the current time. It depends on when it is called, so
/// nothing is stated of it.
#[verifier::external_body]
fn instant_now() -> Instant {
    Instant::now()
}

/// The time from the reading `earlier` to the reading `now`, as
/// `Instant::duration_since` reports it (zero when `earlier` is the later
/// one). It is a function of the two readings alone.
pub uninterp spec fn elapsed_between(now: Instant, earlier: Instant) -> Duration;

/// `Instant::duration_since`: the time from `earlier` to `now`; the
/// contract names that result, as a function of the two readings.
#[verifier::external_body]
fn duration_between(now: &Instant, earlier: &Instant) -> (d: Duration)
    ensures
        d == elapsed_between(*now, *earlier),
{
    now.duration_since(*earlier)
}

/// Real wall-clock time using [`std::time::Instant`].
#[derive(Debug)]
pub struct WallClock {
    last: Instant,
}

impl WallClock {
    /// The clock reading at which the current lap started.
    pub closed spec fn last_reading(&self) -> Instant {
        self.last
    }

    /// A clock whose first lap starts at the reading `now`.
    pub fn starting_at(now: Instant) -> (c: Self)
        ensures
            c.last_reading() == now,
    {
        WallClock { last: now }
    }

    /// Create a new `WallClock` starting from now.
    pub fn new() -> Self {
        Self::starting_at(instant_now())
    }

    /// End the current lap at the reading `now`: the result is the time from
    /// the reading that started the lap to `now`, and a new lap starts at `now`.
    pub fn lap_at(&mut self, now: Instant) -> (d: Duration)
        ensures
            final(self).last_reading() == now,
            d == elapsed_between(now, old(self).last_reading()),
    {
        let dt = duration_between(&now, &self.last);
        self.last = now;
        dt
    }

    /// The time elapsed since the previous lap (or since creation), and a
    /// new lap starts now: the clock is read once and the lap ends at that
    /// reading.
    pub fn lap(&mut self) -> (d: Duration)
        ensures
            d == elapsed_between(final(self).last_reading(), old(self).last_reading()),
    {
        self.lap_at(instant_now())
    }
}

} // verus!
