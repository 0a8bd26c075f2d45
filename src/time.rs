use vstd::prelude::*;

verus! {

/// Microseconds in one millisecond, second, minute, hour and day.
pub const MICROS_PER_MILLI: i64 = 1000;
pub const MICROS_PER_SECOND: i64 = 1000000;
pub const MICROS_PER_MINUTE: i64 = 60000000;
pub const MICROS_PER_HOUR: i64 = 3600000000;
pub const MICROS_PER_DAY: i64 = 86400000000;

/// A signed span of time, counted in microseconds.
///
/// All times inside the engine are kept on this single scale, so that comparing
/// two of them is one integer comparison.
#[derive(Clone, Copy, Debug, PartialEq, Eq, PartialOrd, Ord, Hash, Structural)]
pub struct Duration(pub i64);

impl Duration {
    /// The number of microseconds this duration stands for.
    pub open spec fn micros(self) -> int {
        self.0 as int
    }

    pub fn zero() -> (r: Duration)
        ensures
            r.micros() == 0,
    {
        Duration(0)
    }

    pub fn microseconds(n: i64) -> (r: Duration)
        ensures
            r.micros() == n,
    {
        Duration(n)
    }

    pub fn milliseconds(n: i64) -> (r: Duration)
        requires
            i64::MIN <= n * MICROS_PER_MILLI <= i64::MAX,
        ensures
            r.micros() == n * MICROS_PER_MILLI,
    {
        Duration(n * MICROS_PER_MILLI)
    }

    pub fn seconds(n: i64) -> (r: Duration)
        requires
            i64::MIN <= n * MICROS_PER_SECOND <= i64::MAX,
        ensures
            r.micros() == n * MICROS_PER_SECOND,
    {
        Duration(n * MICROS_PER_SECOND)
    }

    pub fn minutes(n: i64) -> (r: Duration)
        requires
            i64::MIN <= n * MICROS_PER_MINUTE <= i64::MAX,
        ensures
            r.micros() == n * MICROS_PER_MINUTE,
    {
        Duration(n * MICROS_PER_MINUTE)
    }

    pub fn hours(n: i64) -> (r: Duration)
        requires
            i64::MIN <= n * MICROS_PER_HOUR <= i64::MAX,
        ensures
            r.micros() == n * MICROS_PER_HOUR,
    {
        Duration(n * MICROS_PER_HOUR)
    }

    pub fn days(n: i64) -> (r: Duration)
        requires
            i64::MIN <= n * MICROS_PER_DAY <= i64::MAX,
        ensures
            r.micros() == n * MICROS_PER_DAY,
    {
        Duration(n * MICROS_PER_DAY)
    }

    /// The sum of two durations, or `None` where it leaves the `i64` range.
    pub fn checked_add(self, rhs: Duration) -> (r: Option<Duration>)
        ensures
            r.is_some() <==> i64::MIN <= self.micros() + rhs.micros() <= i64::MAX,
            r.is_some() ==> r.unwrap().micros() == self.micros() + rhs.micros(),
    {
        match self.0.checked_add(rhs.0) {
            Some(v) => Some(Duration(v)),
            None => None,
        }
    }
}

/// An instant on the engine's time scale, as microseconds from its epoch.
#[derive(Clone, Copy, Debug, PartialEq, Eq, PartialOrd, Ord, Hash, Structural)]
pub struct Time(pub i64);

impl Time {
    pub open spec fn micros(self) -> int {
        self.0 as int
    }

    /// The epoch itself.
    pub fn zero_todo() -> (r: Time)
        ensures
            r.micros() == 0,
    {
        Time(0)
    }

    /// The instant `d` after this one.
    pub fn add(self, d: Duration) -> (r: Time)
        requires
            i64::MIN <= self.micros() + d.micros() <= i64::MAX,
        ensures
            r.micros() == self.micros() + d.micros(),
    {
        Time(self.0 + d.0)
    }

    /// The instant `d` before this one.
    pub fn sub(self, d: Duration) -> (r: Time)
        requires
            i64::MIN <= self.micros() - d.micros() <= i64::MAX,
        ensures
            r.micros() == self.micros() - d.micros(),
    {
        Time(self.0 - d.0)
    }

    /// Moves this instant `d` later.
    pub fn add_assign(&mut self, d: Duration)
        requires
            i64::MIN <= old(self).micros() + d.micros() <= i64::MAX,
        ensures
            final(self).micros() == old(self).micros() + d.micros(),
    {
        self.0 = self.0 + d.0;
    }

    /// Moves this instant `d` earlier.
    pub fn sub_assign(&mut self, d: Duration)
        requires
            i64::MIN <= old(self).micros() - d.micros() <= i64::MAX,
        ensures
            final(self).micros() == old(self).micros() - d.micros(),
    {
        self.0 = self.0 - d.0;
    }

    /// The span from `earlier` to this instant.
    pub fn since(self, earlier: Time) -> (r: Duration)
        requires
            i64::MIN <= self.micros() - earlier.micros() <= i64::MAX,
        ensures
            r.micros() == self.micros() - earlier.micros(),
    {
        Duration(self.0 - earlier.0)
    }
}

/// Something that lasts for a known span of time.
pub trait Durative {
    fn duration(&self) -> Duration;
}

} // verus!
