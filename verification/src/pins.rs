//! Snapshots that live readers hold, and the watermark that they keep back.

use crate::id_map::IdMap;
use vstd::prelude::*;

verus! {

/// How many readers hold each snapshot. A snapshot that nobody holds is not
/// listed.
#[derive(Debug)]
pub struct SnapshotPins {
    counts: IdMap<usize>,
}

impl View for SnapshotPins {
    type V = Map<u64, usize>;

    closed spec fn view(&self) -> Map<u64, usize> {
        self.counts@
    }
}

/// The pins after one more of `ts`; a count stays at the largest number.
pub open spec fn pinned(pins: Map<u64, usize>, ts: u64) -> Map<u64, usize> {
    pins.insert(
        ts,
        if !pins.contains_key(ts) {
            1
        } else if pins[ts] == usize::MAX {
            usize::MAX
        } else {
            (pins[ts] + 1) as usize
        },
    )
}

/// The pins after one of `ts` is released.
pub open spec fn unpinned(pins: Map<u64, usize>, ts: u64) -> Map<u64, usize> {
    if !pins.contains_key(ts) {
        pins
    } else if pins[ts] <= 1 {
        pins.remove(ts)
    } else {
        pins.insert(ts, (pins[ts] - 1) as usize)
    }
}

/// `w` is the oldest snapshot that a reader can still observe, with
/// `committed` as the newest.
pub open spec fn is_watermark(w: u64, pins: Map<u64, usize>, committed: u64) -> bool {
    &&& w <= committed
    &&& forall|ts: u64| #[trigger] pins.contains_key(ts) ==> w <= ts
    &&& w == committed || pins.contains_key(w)
}

impl SnapshotPins {
    /// No count is zero.
    pub closed spec fn wf(&self) -> bool {
        self.counts.wf() && forall|ts: u64| #[trigger]
            self.counts@.contains_key(ts) ==> self.counts@[ts] > 0
    }

    /// Starts without pins.
    pub fn new() -> (r: Self)
        ensures
            r.wf(),
            r@ == Map::<u64, usize>::empty(),
    {
        SnapshotPins { counts: IdMap::new() }
    }

    /// Holds `ts` once more.
    pub fn pin(&mut self, ts: u64)
        requires
            old(self).wf(),
        ensures
            final(self).wf(),
            final(self)@ == pinned(old(self)@, ts),
    {
        let count: usize = match self.counts.get(ts) {
            Some(n) => n.saturating_add(1),
            None => 1,
        };
        self.counts.insert(ts, count);
    }

    /// Releases `ts` once; a snapshot that nobody holds stays that way.
    pub fn unpin(&mut self, ts: u64)
        requires
            old(self).wf(),
        ensures
            final(self).wf(),
            final(self)@ == unpinned(old(self)@, ts),
    {
        let count: usize = match self.counts.get(ts) {
            Some(n) => *n,
            None => {
                return;
            },
        };
        if count <= 1 {
            let _ = self.counts.remove(ts);
        } else {
            self.counts.insert(ts, count - 1);
        }
    }

    /// Returns the oldest snapshot that a reader can still observe.
    pub fn watermark(&self, committed: u64) -> (r: u64)
        requires
            self.wf(),
        ensures
            is_watermark(r, self@, committed),
    {
        match self.counts.first() {
            Some(ts) => {
                if ts < committed {
                    ts
                } else {
                    committed
                }
            },
            None => committed,
        }
    }
}

impl Default for SnapshotPins {
    fn default() -> (r: Self)
        ensures
            r.wf(),
            r@ == Map::<u64, usize>::empty(),
    {
        SnapshotPins::new()
    }
}

/// Releasing a pin undoes taking it.
pub proof fn law_unpin_undoes_pin(pins: Map<u64, usize>, ts: u64)
    requires
        pins.contains_key(ts) ==> 0 < pins[ts] < usize::MAX,
    ensures
        unpinned(pinned(pins, ts), ts) == pins,
{
    assert(unpinned(pinned(pins, ts), ts) =~= pins);
}

/// While a snapshot is pinned, no watermark passes it, and releasing other
/// snapshots does not change that.
pub proof fn law_watermark_respects_pins(
    pins: Map<u64, usize>,
    ts: u64,
    other: u64,
    w: u64,
    committed: u64,
)
    requires
        other != ts,
        is_watermark(w, unpinned(pinned(pins, ts), other), committed),
    ensures
        w <= ts,
{
    assert(unpinned(pinned(pins, ts), other).contains_key(ts));
}

/// The watermark is determined by the pins and the newest snapshot.
pub proof fn law_watermark_is_unique(a: u64, b: u64, pins: Map<u64, usize>, committed: u64)
    requires
        is_watermark(a, pins, committed),
        is_watermark(b, pins, committed),
    ensures
        a == b,
{
}

} // verus!
