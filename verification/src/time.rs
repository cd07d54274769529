//! Durations and points in time, in nanoseconds.

use vstd::prelude::*;

verus! {

/// Nanoseconds in a second.
pub const NANOS_PER_SEC: u128 = 1_000_000_000;

/// The longest duration: all the seconds that fit in sixty-four bits, and a
/// nanosecond short of one more.
pub const MAX_DURATION_NANOS: u128 = 18_446_744_073_709_551_615_999_999_999;

/// A span of time.
#[derive(Clone, Copy, Debug, PartialEq, Eq, PartialOrd, Ord, Structural)]
pub struct Duration {
    pub nanos: u128,
}

impl Duration {
    pub fn from_nanos(nanos: u64) -> (res: Duration)
        ensures
            res.nanos == nanos,
    {
        Duration { nanos: nanos as u128 }
    }

    pub fn from_millis(millis: u64) -> (res: Duration)
        ensures
            res.nanos == millis * 1_000_000,
    {
        Duration { nanos: millis as u128 * 1_000_000 }
    }

    pub fn from_secs(secs: u64) -> (res: Duration)
        ensures
            res.nanos == secs * 1_000_000_000,
    {
        Duration { nanos: secs as u128 * 1_000_000_000 }
    }
}

/// The last nanosecond a clock can hold: seconds count in sixty-four signed
/// bits.
pub const LATEST_NANOS: i128 = 9_223_372_036_854_775_807_999_999_999;

/// The first nanosecond a clock can hold.
pub const EARLIEST_NANOS: i128 = -9_223_372_036_854_775_808_000_000_000;

/// A point on the wall clock, from the epoch.
#[derive(Clone, Copy, Debug, PartialEq, Eq, PartialOrd, Ord, Structural)]
pub struct SystemTime {
    pub nanos: i128,
}

impl SystemTime {
    pub open spec fn valid(self) -> bool {
        EARLIEST_NANOS <= self.nanos <= LATEST_NANOS
    }

    /// The time `duration` later, if the clock can hold it.
    pub fn checked_add(&self, duration: Duration) -> (res: Option<SystemTime>)
        requires
            self.valid(),
        ensures
            match res {
                Some(at) => at.valid() && at.nanos == self.nanos + duration.nanos,
                None => self.nanos + duration.nanos > LATEST_NANOS,
            },
    {
        let room: u128 = (LATEST_NANOS - self.nanos) as u128;
        if duration.nanos <= room {
            Some(SystemTime { nanos: self.nanos + duration.nanos as i128 })
        } else {
            None
        }
    }
}

/// A point on the monotonic clock, from its own origin.
#[derive(Clone, Copy, Debug, PartialEq, Eq, PartialOrd, Ord, Structural)]
pub struct Instant {
    pub nanos: i128,
}

impl Instant {
    pub open spec fn valid(self) -> bool {
        EARLIEST_NANOS <= self.nanos <= LATEST_NANOS
    }

    /// The time `duration` later, if the clock can hold it.
    pub fn checked_add(&self, duration: Duration) -> (res: Option<Instant>)
        requires
            self.valid(),
        ensures
            match res {
                Some(at) => at.valid() && at.nanos == self.nanos + duration.nanos,
                None => self.nanos + duration.nanos > LATEST_NANOS,
            },
    {
        let room: u128 = (LATEST_NANOS - self.nanos) as u128;
        if duration.nanos <= room {
            Some(Instant { nanos: self.nanos + duration.nanos as i128 })
        } else {
            None
        }
    }
}

} // verus!
