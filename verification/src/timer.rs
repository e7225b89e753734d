//! A restartable stopwatch over the system clock.

use vstd::prelude::*;

verus! {

#[verifier::external_type_specification]
#[verifier::external_body]
pub struct ExInstant(std::time::Instant);

/// Relies on std::time::Instant::now: an opaque reading of the clock.
/// Nothing is assumed of the value.
#[verifier::external_body]
fn instant_now() -> std::time::Instant {
    std::time::Instant::now()
}

/// Relies on std::time::Instant::duration_since: the time between two
/// readings, zero when they are out of order.  Nothing is assumed of
/// the value.
#[verifier::external_body]
fn duration_since(later: &std::time::Instant, earlier: &std::time::Instant) -> core::time::Duration {
    later.duration_since(*earlier)
}

/// A stopwatch: it remembers the clock reading it was started at.
pub struct Timer {
    start_time: std::time::Instant,
}

impl Timer {
    /// Make a new timer, started now.
    pub fn new() -> Timer {
        Timer { start_time: instant_now() }
    }

    /// Restart the timer at the present moment.
    pub fn restart(&mut self) {
        self.start_time = instant_now();
    }

    /// The time passed since the timer was started or restarted.
    pub fn elapsed(&self) -> core::time::Duration {
        let now = instant_now();
        duration_since(&now, &self.start_time)
    }
}

} // verus!
