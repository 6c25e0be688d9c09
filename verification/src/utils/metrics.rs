//! Accumulated running times.

use std::time::Duration;
use vstd::prelude::*;

verus! {

/// What `Duration::as_nanos` returns: the whole length of a duration in
/// nanoseconds.
pub uninterp spec fn nanos_of(d: Duration) -> nat;

/// The longest duration there is: `u64::MAX` seconds and 999,999,999
/// nanoseconds.
pub open spec fn max_duration_nanos() -> nat {
    (u64::MAX as nat) * 1_000_000_000 + 999_999_999
}

/// `Duration::as_nanos`: the whole length of `d` in nanoseconds.
#[verifier::external_body]
fn duration_as_nanos(d: &Duration) -> (n: u128)
    ensures
        n == nanos_of(*d),
        n <= max_duration_nanos(),
{
    d.as_nanos()
}

/// `Duration::checked_add`: the sum of both lengths, or `None` when that sum
/// is longer than the longest duration.
#[verifier::external_body]
fn duration_checked_add(a: &Duration, b: &Duration) -> (r: Option<Duration>)
    ensures
        match r {
            Some(sum) => nanos_of(sum) == nanos_of(*a) + nanos_of(*b) && nanos_of(sum)
                <= max_duration_nanos(),
            None => nanos_of(*a) + nanos_of(*b) > max_duration_nanos(),
        },
{
    a.checked_add(*b)
}

/// `Duration::default`: the empty duration.
#[verifier::external_body]
fn duration_zero() -> (d: Duration)
    ensures
        nanos_of(d) == 0,
{
    Duration::default()
}

/// `Duration::clone`: a duration is plain data, its clone is the same value.
pub assume_specification[ <Duration as Clone>::clone ](d: &Duration) -> (r: Duration)
    ensures
        r == *d,
;

/// Total time and number of the measurements taken so far.
#[derive(Debug, Clone)]
pub struct AggregateTimer {
    dur: Duration,
    count: usize,
}

impl AggregateTimer {
    /// Sum of all measurements, in nanoseconds.
    pub closed spec fn total_nanos(&self) -> nat {
        nanos_of(self.dur)
    }

    /// Number of measurements.
    pub closed spec fn measurements(&self) -> nat {
        self.count as nat
    }

    /// Whether one more measurement of `m` can be recorded.
    pub open spec fn has_room_for(&self, m: Duration) -> bool {
        &&& self.measurements() < usize::MAX
        &&& self.total_nanos() + nanos_of(m) <= max_duration_nanos()
    }

    /// A timer that has taken `count` measurements of `dur` in all.
    pub fn new(dur: Duration, count: usize) -> (timer: AggregateTimer)
        ensures
            timer.total_nanos() == nanos_of(dur),
            timer.measurements() == count,
    {
        AggregateTimer { dur, count }
    }

    /// Records one more measurement.
    pub fn add_measurement(&mut self, m: Duration)
        requires
            old(self).has_room_for(m),
        ensures
            final(self).total_nanos() == old(self).total_nanos() + nanos_of(m),
            final(self).measurements() == old(self).measurements() + 1,
    {
        match duration_checked_add(&self.dur, &m) {
            Some(sum) => {
                self.dur = sum;
                self.count = self.count + 1;
            },
            None => {},
        }
    }

    /// Records one more measurement if the totals can still hold it, and
    /// says whether it did.
    pub fn try_add_measurement(&mut self, m: Duration) -> (done: bool)
        ensures
            done == old(self).has_room_for(m),
            done ==> final(self).total_nanos() == old(self).total_nanos() + nanos_of(m)
                && final(self).measurements() == old(self).measurements() + 1,
            !done ==> *final(self) == *old(self),
    {
        if self.count == usize::MAX {
            return false;
        }
        match duration_checked_add(&self.dur, &m) {
            Some(sum) => {
                self.dur = sum;
                self.count = self.count + 1;
                true
            },
            None => false,
        }
    }

    /// Sum of all measurements.
    pub fn dur(&self) -> (d: Duration)
        ensures
            nanos_of(d) == self.total_nanos(),
    {
        self.dur
    }

    /// Number of measurements.
    pub fn count(&self) -> (n: usize)
        ensures
            n == self.measurements(),
    {
        self.count
    }

    /// Sum of all measurements in nanoseconds.
    pub fn total_nanoseconds(&self) -> (n: u128)
        ensures
            n == self.total_nanos(),
    {
        duration_as_nanos(&self.dur)
    }

    /// The totals of two timers taken together, where they fit.
    pub fn merged(&self, rhs: &AggregateTimer) -> (r: Option<AggregateTimer>)
        ensures
            match r {
                Some(t) => t.total_nanos() == self.total_nanos() + rhs.total_nanos()
                    && t.measurements() == self.measurements() + rhs.measurements(),
                None => self.total_nanos() + rhs.total_nanos() > max_duration_nanos()
                    || self.measurements() + rhs.measurements() > usize::MAX,
            },
    {
        if self.count > usize::MAX - rhs.count {
            return None;
        }
        match duration_checked_add(&self.dur, &rhs.dur) {
            Some(dur) => Some(AggregateTimer { dur, count: self.count + rhs.count }),
            None => None,
        }
    }
}

impl Default for AggregateTimer {
    fn default() -> (t: AggregateTimer)
        ensures
            t.total_nanos() == 0,
            t.measurements() == 0,
    {
        AggregateTimer { dur: duration_zero(), count: 0 }
    }
}

} // verus!
