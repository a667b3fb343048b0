//! Injectable time source.
//!
//! The engine reads wall-clock time in one place: the `created_at` stamp of a
//! newly written SST, by which compaction breaks ties between files of equal
//! overlap. Wall-clock rather than monotonic time, because stamps must stay
//! comparable after a restart.

use std::time::{SystemTime, SystemTimeError, UNIX_EPOCH};
use vstd::prelude::*;

verus! {

/// Time source: Unix epoch seconds.
pub trait Clock {
    /// Current Unix epoch seconds.
    fn now_secs(&self) -> u64;
}

/// `at` is what the clock may show.
pub open spec fn may_show<C: Clock>(clock: C, at: u64) -> bool {
    call_ensures(C::now_secs, (&clock,), at)
}

/// A point of the system's time.
#[verifier::external_type_specification]
#[verifier::external_body]
pub struct ExSystemTime(SystemTime);

/// A point of time that lies after the one it is measured against.
#[verifier::external_type_specification]
#[verifier::external_body]
pub struct ExSystemTimeError(SystemTimeError);

/// `SystemTime::now` reads the system's clock; nothing is promised of what it
/// shows.
pub assume_specification[ SystemTime::now ]() -> SystemTime
;

/// `SystemTime::duration_since` measures the time from `earlier` on, and fails
/// where `earlier` is later; nothing is promised of the length.
pub assume_specification[ SystemTime::duration_since ](
    t: &SystemTime,
    earlier: SystemTime,
) -> std::result::Result<std::time::Duration, SystemTimeError>
;

/// `Duration::as_secs` counts whole seconds; nothing is promised of the count.
pub assume_specification[ std::time::Duration::as_secs ](d: &std::time::Duration) -> u64
;

/// `UNIX_EPOCH`, the start of Unix time.
#[verifier::external_body]
fn unix_epoch() -> SystemTime {
    UNIX_EPOCH
}

/// The stamp for a clock that shows `since_epoch` seconds after the Unix
/// epoch, or a time before it: then the stamp is `0`.
pub fn epoch_stamp(since_epoch: Option<u64>) -> (r: u64)
    ensures
        r == (match since_epoch {
            Some(secs) => secs,
            None => 0,
        }),
{
    match since_epoch {
        Some(secs) => secs,
        None => 0,
    }
}

/// `secs` are the whole seconds from the Unix epoch to a point of time that
/// `SystemTime::now` may show, or `0` where that lies before the epoch.
pub closed spec fn may_be_now(secs: u64) -> bool {
    exists|t: SystemTime, epoch: SystemTime, d: std::result::Result<
        std::time::Duration,
        SystemTimeError,
    >|
        call_ensures(SystemTime::now, (), t) && call_ensures(unix_epoch, (), epoch)
            && #[trigger] call_ensures(SystemTime::duration_since, (&t, epoch), d) && match d {
            Ok(elapsed) => call_ensures(std::time::Duration::as_secs, (&elapsed,), secs),
            Err(_) => secs == 0,
        }
}

/// Real wall clock. A system time before the Unix epoch counts as `0`.
#[derive(Debug, Default, Clone, Copy, PartialEq, Eq, Structural)]
pub struct SystemClock;

impl Clock for SystemClock {
    fn now_secs(&self) -> (r: u64)
        ensures
            may_be_now(r),
    {
        let now = SystemTime::now();
        let epoch = unix_epoch();
        let since_epoch = match now.duration_since(epoch) {
            Ok(elapsed) => Some(elapsed.as_secs()),
            Err(_) => None,
        };
        epoch_stamp(since_epoch)
    }
}

/// Clock for testing and simulation: it stands still until it is set or
/// advanced.
#[derive(Debug, PartialEq, Eq, Structural)]
pub struct ManualClock {
    now_secs: u64,
}

impl ManualClock {
    /// What the clock shows.
    pub closed spec fn shows(&self) -> u64 {
        self.now_secs
    }

    /// Makes a clock that shows the given Unix epoch seconds.
    pub fn new(initial_secs: u64) -> (r: Self)
        ensures
            r.shows() == initial_secs,
    {
        ManualClock { now_secs: initial_secs }
    }

    /// Sets the current time to `secs`.
    pub fn set(&mut self, secs: u64)
        ensures
            final(self).shows() == secs,
    {
        self.now_secs = secs;
    }

    /// Advances by `delta` seconds and returns the time afterwards.
    pub fn advance(&mut self, delta: u64) -> (r: u64)
        requires
            old(self).shows() + delta <= u64::MAX,
        ensures
            r == old(self).shows() + delta,
            final(self).shows() == r,
    {
        self.now_secs = self.now_secs + delta;
        self.now_secs
    }
}

impl Default for ManualClock {
    fn default() -> (r: Self)
        ensures
            r.shows() == 0,
    {
        ManualClock::new(0)
    }
}

impl Clock for ManualClock {
    fn now_secs(&self) -> (r: u64)
        ensures
            r == self.shows(),
    {
        self.now_secs
    }
}

} // verus!
