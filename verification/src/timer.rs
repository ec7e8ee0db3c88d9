use std::time::{Duration, Instant};
use vstd::prelude::*;

verus! {

#[verifier::external_type_specification]
#[verifier::external_body]
pub struct ExInstant(Instant);

/// Measures the time from one call to the next. The timer keeps the instant
/// at which it was made, and how long after that instant it was last asked,
/// in nanoseconds.
pub struct DeltaTimer {
    start: Instant,
    last: u128,
}

/// `Instant::now`: a reading of the monotonic clock. Nothing is claimed of
/// what it reads.
#[verifier::external_body]
fn read_clock() -> Instant {
    Instant::now()
}

/// `Instant::elapsed`: the time that has passed since `start`. Nothing is
/// claimed of its length.
#[verifier::external_body]
fn time_since(start: &Instant) -> Duration {
    start.elapsed()
}

/// `Duration::as_nanos`: the length of `d` in whole nanoseconds. Nothing is
/// claimed of the number.
#[verifier::external_body]
fn nanos_of(d: &Duration) -> u128 {
    d.as_nanos()
}

/// The time from the reading `from` to the reading `to`, and zero where the
/// clock gave the later reading first.
pub open spec fn span(from: nat, to: nat) -> nat {
    if to >= from {
        (to - from) as nat
    } else {
        0
    }
}

impl DeltaTimer {
    /// The instant at which the timer was made.
    pub closed spec fn origin(self) -> Instant {
        self.start
    }

    /// How long after its making the timer was last asked, in nanoseconds.
    pub closed spec fn mark(self) -> nat {
        self.last as nat
    }

    /// A timer that starts now: it has not been asked yet.
    pub fn new() -> (t: DeltaTimer)
        ensures
            t.mark() == 0,
    {
        DeltaTimer { start: read_clock(), last: 0 }
    }

    /// Takes the reading `reading` of the clock, in nanoseconds since the
    /// making of the timer, as the latest: gives the time since the reading
    /// before, and keeps the new one.
    pub fn advance(&mut self, reading: u128) -> (delta: u128)
        ensures
            delta == span(old(self).mark(), reading as nat),
            final(self).mark() == reading,
            final(self).origin() == old(self).origin(),
    {
        let delta = if reading >= self.last {
            reading - self.last
        } else {
            0
        };
        self.last = reading;
        delta
    }

    /// The time in nanoseconds since the timer was made or last asked,
    /// whichever is later. The clock is read once, and the reading is kept:
    /// what is returned is the time from the reading kept before to the one
    /// kept now.
    pub fn next_delta(&mut self) -> (delta: u128)
        ensures
            delta == span(old(self).mark(), final(self).mark()),
            final(self).origin() == old(self).origin(),
    {
        let passed = time_since(&self.start);
        let reading = nanos_of(&passed);
        self.advance(reading)
    }
}

} // verus!
