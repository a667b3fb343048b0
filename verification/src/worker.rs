//! When the background worker collects garbage, backs off and gives up.

use vstd::prelude::*;

verus! {

/// Milliseconds between two passes.
pub const COMPACTION_INTERVAL_MS: u64 = 5000;

/// Consecutive panics beyond which the worker quits.
pub const MAX_PANICS_BEFORE_QUIT: u64 = 100;

/// What the worker does after a pass.
#[derive(Debug, Clone, Copy, PartialEq, Eq, Structural)]
pub enum WorkerStep {
    /// Wait `backoff_ms` and then `interval_ms` before the next pass.
    Wait {
        /// Milliseconds of back-off after a panic.
        backoff_ms: u64,
        /// Milliseconds between two passes.
        interval_ms: u64,
    },
    /// Stop for good.
    Quit,
}

/// What the worker remembers between passes.
#[derive(Debug, Clone, Copy, PartialEq, Eq, Structural)]
pub struct WorkerState {
    /// Consecutive passes that panicked.
    pub panic_count: u64,
    /// Milliseconds at which garbage was last collected.
    pub last_gc_at: u64,
}

/// Two to the power of `n`.
pub open spec fn doubled(n: nat) -> nat
    decreases n,
{
    if n == 0 {
        1
    } else {
        2 * doubled((n - 1) as nat)
    }
}

/// Milliseconds of back-off after the `n`-th panic in a row: they double with
/// each, up to the sixth.
pub open spec fn backoff_after(n: u64) -> nat {
    100 * doubled(if n < 6 {
        n as nat
    } else {
        6
    })
}

/// One more panic, or the largest number.
pub open spec fn one_more(n: u64) -> u64 {
    if n == u64::MAX {
        u64::MAX
    } else {
        (n + 1) as u64
    }
}

impl WorkerState {
    /// A worker that starts at `now`.
    pub fn new(now: u64) -> (r: Self)
        ensures
            r == (WorkerState { panic_count: 0, last_gc_at: now }),
    {
        WorkerState { panic_count: 0, last_gc_at: now }
    }

    /// Returns whether garbage is due at `now`, and remembers the time where
    /// it is.
    pub fn collects_garbage(&mut self, now: u64, gc_interval: u64) -> (r: bool)
        ensures
            r == (old(self).last_gc_at + gc_interval <= now || (gc_interval == 0 && now < old(
                self,
            ).last_gc_at)),
            *final(self) == (WorkerState {
                last_gc_at: if r {
                    now
                } else {
                    old(self).last_gc_at
                },
                ..*old(self)
            }),
    {
        let elapsed: u64 = now.saturating_sub(self.last_gc_at);
        if elapsed >= gc_interval {
            self.last_gc_at = now;
            true
        } else {
            false
        }
    }

    /// Decides what follows a pass: a clean one resets the count of panics,
    /// each panic backs off further, and too many in a row end the worker.
    pub fn after_pass(&mut self, panicked: bool) -> (r: WorkerStep)
        ensures
            final(self).last_gc_at == old(self).last_gc_at,
            final(self).panic_count == (if panicked {
                one_more(old(self).panic_count)
            } else {
                0
            }),
            r is Quit <==> panicked && final(self).panic_count > MAX_PANICS_BEFORE_QUIT,
            r matches WorkerStep::Wait { backoff_ms, interval_ms } ==> {
                &&& interval_ms == COMPACTION_INTERVAL_MS
                &&& backoff_ms == (if panicked {
                    backoff_after(final(self).panic_count)
                } else {
                    0
                })
            },
    {
        if !panicked {
            self.panic_count = 0;
            return WorkerStep::Wait { backoff_ms: 0, interval_ms: COMPACTION_INTERVAL_MS };
        }
        self.panic_count = self.panic_count.saturating_add(1);
        if self.panic_count > MAX_PANICS_BEFORE_QUIT {
            return WorkerStep::Quit;
        }
        WorkerStep::Wait {
            backoff_ms: backoff_ms(self.panic_count),
            interval_ms: COMPACTION_INTERVAL_MS,
        }
    }
}

/// Milliseconds of back-off after the `panics`-th panic in a row.
fn backoff_ms(panics: u64) -> (r: u64)
    ensures
        r == backoff_after(panics),
{
    let doublings: u64 = if panics < 6 {
        panics
    } else {
        6
    };
    let mut ms: u64 = 100;
    let mut i: u64 = 0;
    while i < doublings
        invariant
            i <= doublings <= 6,
            ms == 100 * doubled(i as nat),
            doubled(i as nat) <= 64,
        decreases doublings - i,
    {
        proof {
            reveal_with_fuel(doubled, 8);
        }
        ms = ms * 2;
        i += 1;
    }
    ms
}

} // verus!
