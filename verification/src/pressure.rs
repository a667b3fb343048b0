//! Write-pressure throttling.
//!
//! When the memtable approaches its flush threshold, writes are slowed (Soft)
//! or rejected (Hard) so that the durable path has time to drain. The check
//! only reads the memtable gauge; it takes no lock and never splits a group
//! commit.

use crate::metrics::MetricsSnapshot;
use vstd::prelude::*;

verus! {

/// How aggressively a write should be throttled.
#[derive(Debug, Clone, Copy, PartialEq, Eq, Structural)]
pub enum ThrottleLevel {
    /// No backpressure: proceed immediately.
    Off,
    /// Soft backpressure: the caller should briefly delay before committing.
    Soft,
    /// Hard backpressure: reject the write so the caller can retry later.
    Hard,
}

/// Default memtable flush threshold (bytes), shared by the engine's flush
/// trigger and the throttle.
pub const DEFAULT_MEMTABLE_FLUSH_BYTES: usize = 67_108_864;

/// A share of the flush threshold, in millionths.
pub type Ratio = u64;

/// One, as a [`Ratio`].
pub const RATIO_ONE: u64 = 1_000_000;

/// Tuning for [`PressureThrottle`].
#[derive(Debug, Clone, Copy, PartialEq, Eq, Structural)]
pub struct PressureConfig {
    /// Memtable-occupancy ratio at which Soft throttling begins.
    pub soft_memtable_ratio: Ratio,
    /// Memtable-occupancy ratio at which writes are Hard-rejected.
    pub hard_memtable_ratio: Ratio,
    /// Flush threshold in bytes.
    pub memtable_flush_bytes: usize,
    /// Soft-throttle delay applied before each throttled write, in
    /// milliseconds.
    pub soft_sleep_millis: u64,
}

impl Default for PressureConfig {
    fn default() -> (r: Self)
        ensures
            r.soft_memtable_ratio == 700_000,
            r.hard_memtable_ratio == 950_000,
            r.memtable_flush_bytes == DEFAULT_MEMTABLE_FLUSH_BYTES,
            r.soft_sleep_millis == 1,
    {
        PressureConfig {
            soft_memtable_ratio: 700_000,
            hard_memtable_ratio: 950_000,
            memtable_flush_bytes: DEFAULT_MEMTABLE_FLUSH_BYTES,
            soft_sleep_millis: 1,
        }
    }
}

/// The memtable fills at least `ratio` of the threshold; a threshold of zero
/// counts as one byte.
pub open spec fn reaches(memtable_bytes: u64, flush_bytes: usize, ratio: Ratio) -> bool {
    let capacity: int = if flush_bytes == 0 {
        1
    } else {
        flush_bytes as int
    };
    memtable_bytes * RATIO_ONE >= ratio * capacity
}

/// The throttle level for a memtable of so many bytes.
pub open spec fn level_of(config: PressureConfig, memtable_bytes: u64) -> ThrottleLevel {
    if reaches(memtable_bytes, config.memtable_flush_bytes, config.hard_memtable_ratio) {
        ThrottleLevel::Hard
    } else if reaches(memtable_bytes, config.memtable_flush_bytes, config.soft_memtable_ratio) {
        ThrottleLevel::Soft
    } else {
        ThrottleLevel::Off
    }
}

fn fills(memtable_bytes: u64, flush_bytes: usize, ratio: Ratio) -> (r: bool)
    ensures
        r == reaches(memtable_bytes, flush_bytes, ratio),
{
    let capacity: u128 = if flush_bytes == 0 {
        1
    } else {
        flush_bytes as u128
    };
    assert(ratio * capacity <= u64::MAX * u64::MAX) by (nonlinear_arith)
        requires
            ratio <= u64::MAX,
            capacity <= u64::MAX,
    ;
    assert(memtable_bytes * RATIO_ONE <= u64::MAX * 1_000_000) by (nonlinear_arith)
        requires
            memtable_bytes <= u64::MAX,
            RATIO_ONE == 1_000_000,
    ;
    memtable_bytes as u128 * RATIO_ONE as u128 >= ratio as u128 * capacity
}

/// Stateless throttle: every decision is derived from the snapshot passed in.
#[derive(Debug, Clone, Copy, PartialEq, Eq, Structural)]
pub struct PressureThrottle {
    config: PressureConfig,
}

impl PressureThrottle {
    /// The tuning.
    pub closed spec fn tuning(&self) -> PressureConfig {
        self.config
    }

    /// Creates a throttle with `config`.
    pub fn new(config: PressureConfig) -> (r: Self)
        ensures
            r.tuning() == config,
    {
        PressureThrottle { config }
    }

    /// Classifies the current write pressure from `metrics`: the memtable's
    /// size against the flush threshold.
    pub fn should_throttle(&self, metrics: &MetricsSnapshot) -> (r: ThrottleLevel)
        ensures
            r == level_of(self.tuning(), metrics.memtable_bytes),
    {
        let flush_bytes: usize = self.config.memtable_flush_bytes;
        if fills(metrics.memtable_bytes, flush_bytes, self.config.hard_memtable_ratio) {
            ThrottleLevel::Hard
        } else if fills(metrics.memtable_bytes, flush_bytes, self.config.soft_memtable_ratio) {
            ThrottleLevel::Soft
        } else {
            ThrottleLevel::Off
        }
    }

    /// The delay, in milliseconds, that a Soft-throttled caller should sleep
    /// before committing.
    pub fn soft_sleep(&self) -> (r: u64)
        ensures
            r == self.tuning().soft_sleep_millis,
    {
        self.config.soft_sleep_millis
    }
}

impl Default for PressureThrottle {
    fn default() -> (r: Self)
        ensures
            r.tuning().soft_memtable_ratio == 700_000,
            r.tuning().hard_memtable_ratio == 950_000,
            r.tuning().memtable_flush_bytes == DEFAULT_MEMTABLE_FLUSH_BYTES,
            r.tuning().soft_sleep_millis == 1,
    {
        PressureThrottle::new(PressureConfig::default())
    }
}

/// A fuller memtable is never throttled less.
pub proof fn law_pressure_is_monotone(config: PressureConfig, less: u64, more: u64)
    requires
        less <= more,
    ensures
        level_of(config, less) is Hard ==> level_of(config, more) is Hard,
        level_of(config, less) is Soft ==> !(level_of(config, more) is Off),
{
}

} // verus!
