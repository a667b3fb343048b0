//! MVCC version chains, snapshots and garbage collection.

use crate::buf::{bytes_view, opt_bytes_clone, opt_bytes_view};
use bytes::Bytes;
use smallvec::SmallVec;
use vstd::prelude::*;

verus! {

/// Commit timestamp.
pub type TxnTs = u64;

/// End of a version that nothing has superseded.
pub const OPEN_ENDED_TS: u64 = 0xFFFF_FFFF_FFFF_FFFF;

/// One version of a row value.
#[derive(Debug, PartialEq, Eq)]
pub struct VersionedValue {
    /// Encoded row payload (`None` is a delete tombstone).
    pub value: Option<Bytes>,
    /// Timestamp at which this version became visible.
    pub begin_ts: TxnTs,
    /// Timestamp at which this version was superseded.
    pub end_ts: TxnTs,
    /// Originating transaction identifier.
    pub tx_id: u64,
}

/// What a version says.
#[verifier::ext_equal]
pub struct VersionModel {
    /// Payload; none is a tombstone.
    pub value: Option<Seq<u8>>,
    /// First timestamp at which it is visible.
    pub begin_ts: u64,
    /// First timestamp at which it is no longer visible.
    pub end_ts: u64,
    /// Originating transaction identifier.
    pub tx_id: u64,
}

impl VersionModel {
    /// Visible to a reader at `ts`.
    pub open spec fn visible_at(self, ts: u64) -> bool {
        self.begin_ts <= ts < self.end_ts
    }

    /// The same version, superseded at `end_ts`.
    pub open spec fn ending(self, end_ts: u64) -> VersionModel {
        VersionModel { end_ts, ..self }
    }
}

/// A version that nothing has superseded.
pub open spec fn open_version(value: Option<Seq<u8>>, ts: u64, tx_id: u64) -> VersionModel {
    VersionModel { value, begin_ts: ts, end_ts: OPEN_ENDED_TS, tx_id }
}

impl View for VersionedValue {
    type V = VersionModel;

    open spec fn view(&self) -> VersionModel {
        VersionModel {
            value: opt_bytes_view(self.value),
            begin_ts: self.begin_ts,
            end_ts: self.end_ts,
            tx_id: self.tx_id,
        }
    }
}

impl Clone for VersionedValue {
    fn clone(&self) -> (r: Self)
        ensures
            r@ == self@,
    {
        VersionedValue {
            value: opt_bytes_clone(&self.value),
            begin_ts: self.begin_ts,
            end_ts: self.end_ts,
            tx_id: self.tx_id,
        }
    }
}

impl VersionedValue {
    /// Creates a live value whose visibility has no upper bound yet.
    pub fn live(value: Bytes, ts: TxnTs, tx_id: u64) -> (r: Self)
        ensures
            r@ == open_version(Some(bytes_view(value)), ts, tx_id),
    {
        VersionedValue { value: Some(value), begin_ts: ts, end_ts: OPEN_ENDED_TS, tx_id }
    }

    /// Creates a delete tombstone.
    pub fn tombstone(ts: TxnTs, tx_id: u64) -> (r: Self)
        ensures
            r@ == open_version(None, ts, tx_id),
    {
        VersionedValue { value: None, begin_ts: ts, end_ts: OPEN_ENDED_TS, tx_id }
    }

    /// Returns whether this committed version is visible to `snapshot_ts`.
    pub fn visible_at(&self, snapshot_ts: TxnTs) -> (r: bool)
        ensures
            r == self@.visible_at(snapshot_ts),
    {
        self.begin_ts <= snapshot_ts && snapshot_ts < self.end_ts
    }
}

/// Consistent read point used by a transaction.
#[derive(Debug, Clone, Copy, PartialEq, Eq, Structural)]
pub struct Snapshot {
    /// Highest committed timestamp visible to the reader.
    pub ts: TxnTs,
}

impl Snapshot {
    /// Creates a snapshot at `ts`.
    pub fn new(ts: TxnTs) -> (r: Self)
        ensures
            r.ts == ts,
    {
        Snapshot { ts }
    }

    /// Tests visibility without exposing interval details to callers.
    pub fn sees(self, version: &VersionedValue) -> (r: bool)
        ensures
            r == version@.visible_at(self.ts),
    {
        version.visible_at(self.ts)
    }
}

// ── The inline vector of versions ─────────────────────────────────────────

/// A `smallvec::SmallVec` of versions: few of them are kept inline.
#[verifier::external_body]
#[derive(Debug)]
pub struct VersionList {
    inner: SmallVec<[VersionedValue; 4]>,
}

/// The versions that an inline vector holds, in order.
pub uninterp spec fn small_view(v: VersionList) -> Seq<VersionedValue>;

/// `SmallVec::new` makes an empty vector.
#[verifier::external_body]
fn small_new() -> (r: VersionList)
    ensures
        small_view(r) == Seq::<VersionedValue>::empty(),
{
    VersionList { inner: SmallVec::new() }
}

/// `SmallVec::as_slice` lends the versions in order.
#[verifier::external_body]
fn small_slice(v: &VersionList) -> (r: &[VersionedValue])
    ensures
        r@ == small_view(*v),
{
    v.inner.as_slice()
}

/// `SmallVec::insert` puts an item at `index` and shifts the later ones back.
#[verifier::external_body]
fn small_insert(v: &mut VersionList, index: usize, item: VersionedValue)
    requires
        index <= small_view(*old(v)).len(),
    ensures
        small_view(*final(v)) == small_view(*old(v)).insert(index as int, item),
{
    v.inner.insert(index, item)
}

/// `SmallVec::deref_mut` gives the slice in which the item at `index` is
/// overwritten.
#[verifier::external_body]
fn small_set(v: &mut VersionList, index: usize, item: VersionedValue)
    requires
        index < small_view(*old(v)).len(),
    ensures
        small_view(*final(v)) == small_view(*old(v)).update(index as int, item),
{
    v.inner[index] = item;
}

/// `SmallVec::retain` keeps, in order, the versions for which
/// [`survives_gc`] holds.
#[verifier::external_body]
fn small_retain(v: &mut VersionList, newest: u64, oldest_snapshot: u64)
    ensures
        small_view(*final(v)) == small_view(*old(v)).filter(
            |x: VersionedValue| kept_by_gc(x@, newest, oldest_snapshot),
        ),
{
    v.inner.retain(|x| survives_gc(x, newest, oldest_snapshot))
}

/// `SmallVec::clone` clones item by item, in order.
#[verifier::external_body]
fn small_clone(v: &VersionList) -> (r: VersionList)
    ensures
        small_view(r).map_values(|x: VersionedValue| x@) == small_view(*v).map_values(
            |x: VersionedValue| x@,
        ),
{
    VersionList { inner: v.inner.clone() }
}

// ── Version chains ────────────────────────────────────────────────────────

/// Ordered versions for one logical key, newest first.
#[derive(Debug)]
pub struct VersionChain {
    versions: VersionList,
}

impl View for VersionChain {
    type V = Seq<VersionModel>;

    closed spec fn view(&self) -> Seq<VersionModel> {
        small_view(self.versions).map_values(|x: VersionedValue| x@)
    }
}

/// The versions begin later the closer they stand to the front.
pub open spec fn newest_first(s: Seq<VersionModel>) -> bool {
    forall|i: int, j: int|
        0 <= i < j < s.len() ==> (#[trigger] s[i]).begin_ts > (#[trigger] s[j]).begin_ts
}

/// Newest first, and each version ends where the next newer one begins; the
/// newest has no end.
pub open spec fn contiguous(s: Seq<VersionModel>) -> bool {
    &&& newest_first(s)
    &&& s.len() > 0 ==> s[0].end_ts == OPEN_ENDED_TS
    &&& forall|i: int| 1 <= i < s.len() ==> (#[trigger] s[i]).end_ts == s[i - 1].begin_ts
}

/// How many versions of `s` begin after `ts`.
pub open spec fn count_after(s: Seq<VersionModel>, ts: u64) -> nat
    decreases s.len(),
{
    if s.len() == 0 || s[0].begin_ts <= ts {
        0
    } else {
        1 + count_after(s.drop_first(), ts)
    }
}

/// The chain after `v` was installed: a version of the same timestamp is
/// replaced in place; else `v` goes to its place, ends where the next newer
/// version begins, and ends the next older one.
pub open spec fn chain_insert(s: Seq<VersionModel>, v: VersionModel) -> Seq<VersionModel> {
    let p = count_after(s, v.begin_ts) as int;
    if p < s.len() && s[p].begin_ts == v.begin_ts {
        s.update(p, v.ending(s[p].end_ts))
    } else {
        let placed = if p > 0 {
            v.ending(s[p - 1].begin_ts)
        } else {
            v
        };
        let older = if p >= s.len() {
            s
        } else if p == 0 || s[p].end_ts > v.begin_ts {
            s.update(p, s[p].ending(v.begin_ts))
        } else {
            s
        };
        older.insert(p, placed)
    }
}

/// The first version of `s` that is visible at `ts`.
pub open spec fn chain_read(s: Seq<VersionModel>, ts: u64) -> Option<VersionModel>
    decreases s.len(),
{
    if s.len() == 0 {
        None
    } else if s[0].visible_at(ts) {
        Some(s[0])
    } else {
        chain_read(s.drop_first(), ts)
    }
}

/// A version that garbage collection keeps: the newest one, and those that a
/// snapshot at `oldest_snapshot` or later may still see.
pub open spec fn kept_by_gc(v: VersionModel, newest: u64, oldest_snapshot: u64) -> bool {
    v.begin_ts == newest || v.end_ts > oldest_snapshot
}

/// The chain after garbage collection.
pub open spec fn chain_gc(s: Seq<VersionModel>, oldest_snapshot: u64) -> Seq<VersionModel> {
    if s.len() == 0 {
        s
    } else {
        s.filter(|v: VersionModel| kept_by_gc(v, s[0].begin_ts, oldest_snapshot))
    }
}

fn survives_gc(v: &VersionedValue, newest: u64, oldest_snapshot: u64) -> (r: bool)
    ensures
        r == kept_by_gc(v@, newest, oldest_snapshot),
{
    v.begin_ts == newest || v.end_ts > oldest_snapshot
}

/// `count_after` splits a newest-first chain.
pub proof fn lemma_count_after(s: Seq<VersionModel>, ts: u64)
    requires
        newest_first(s),
    ensures
        count_after(s, ts) <= s.len(),
        forall|i: int| 0 <= i < count_after(s, ts) ==> (#[trigger] s[i]).begin_ts > ts,
        forall|i: int| count_after(s, ts) <= i < s.len() ==> (#[trigger] s[i]).begin_ts <= ts,
    decreases s.len(),
{
    if s.len() > 0 {
        let t = s.drop_first();
        if s[0].begin_ts > ts {
            assert forall|i: int, j: int| 0 <= i < j < t.len() implies (#[trigger] t[i]).begin_ts
                > (#[trigger] t[j]).begin_ts by {
                assert(t[i] == s[i + 1] && t[j] == s[j + 1]);
            }
            lemma_count_after(t, ts);
            assert forall|i: int| 0 <= i < count_after(s, ts) implies (#[trigger] s[i]).begin_ts
                > ts by {
                if i > 0 {
                    assert(s[i] == t[i - 1]);
                }
            }
            assert forall|i: int| count_after(s, ts) <= i < s.len() implies (
            #[trigger] s[i]).begin_ts <= ts by {
                assert(s[i] == t[i - 1]);
            }
        } else {
            assert forall|i: int| 0 <= i < s.len() implies (#[trigger] s[i]).begin_ts <= ts by {
                if i > 0 {
                    assert(s[0].begin_ts > s[i].begin_ts);
                }
            }
        }
    }
}

/// The place that splits a newest-first chain is `count_after`.
proof fn lemma_count_after_is(s: Seq<VersionModel>, ts: u64, p: int)
    requires
        newest_first(s),
        0 <= p <= s.len(),
        forall|i: int| 0 <= i < p ==> (#[trigger] s[i]).begin_ts > ts,
        p < s.len() ==> s[p].begin_ts <= ts,
    ensures
        count_after(s, ts) == p,
{
    lemma_count_after(s, ts);
    let n = count_after(s, ts) as int;
    if n < p {
        assert(s[n].begin_ts > ts);
    } else if n > p {
        assert(s[p].begin_ts > ts);
    }
}

/// The read finds the version at `i` if that one is visible and none in front
/// of it is.
pub proof fn lemma_chain_read_at(s: Seq<VersionModel>, ts: u64, i: int)
    requires
        0 <= i < s.len(),
        s[i].visible_at(ts),
        forall|j: int| 0 <= j < i ==> !(#[trigger] s[j]).visible_at(ts),
    ensures
        chain_read(s, ts) == Some(s[i]),
    decreases s.len(),
{
    if i > 0 {
        assert(!s[0].visible_at(ts));
        let t = s.drop_first();
        assert forall|j: int| 0 <= j < i - 1 implies !(#[trigger] t[j]).visible_at(ts) by {
            assert(t[j] == s[j + 1]);
        }
        lemma_chain_read_at(t, ts, i - 1);
    }
}

/// The read finds nothing if nothing is visible.
pub proof fn lemma_chain_read_none(s: Seq<VersionModel>, ts: u64)
    requires
        forall|j: int| 0 <= j < s.len() ==> !(#[trigger] s[j]).visible_at(ts),
    ensures
        chain_read(s, ts) is None,
    decreases s.len(),
{
    if s.len() > 0 {
        let t = s.drop_first();
        assert forall|j: int| 0 <= j < t.len() implies !(#[trigger] t[j]).visible_at(ts) by {
            assert(t[j] == s[j + 1]);
        }
        assert(!s[0].visible_at(ts));
        lemma_chain_read_none(t, ts);
    }
}

/// What the read found, spelled out.
pub proof fn lemma_chain_read_found(s: Seq<VersionModel>, ts: u64) -> (i: int)
    ensures
        chain_read(s, ts) is None ==> forall|j: int|
            0 <= j < s.len() ==> !(#[trigger] s[j]).visible_at(ts),
        chain_read(s, ts) matches Some(v) ==> {
            &&& 0 <= i < s.len()
            &&& s[i] == v
            &&& v.visible_at(ts)
            &&& forall|j: int| 0 <= j < i ==> !(#[trigger] s[j]).visible_at(ts)
        },
    decreases s.len(),
{
    if s.len() == 0 {
        0
    } else if s[0].visible_at(ts) {
        0
    } else {
        let t = s.drop_first();
        let k = lemma_chain_read_found(t, ts);
        assert forall|j: int| 0 < j < s.len() implies s[j] == #[trigger] t[j - 1] by {}
        if chain_read(s, ts) is None {
            assert forall|j: int| 0 <= j < s.len() implies !(#[trigger] s[j]).visible_at(ts) by {
                if j > 0 {
                    assert(s[j] == t[j - 1]);
                }
            }
        } else {
            assert forall|j: int| 0 <= j < k + 1 implies !(#[trigger] s[j]).visible_at(ts) by {
                if j > 0 {
                    assert(s[j] == t[j - 1]);
                }
            }
        }
        k + 1
    }
}

/// Installing a version keeps the chain newest first.
pub proof fn lemma_insert_keeps_order(s: Seq<VersionModel>, v: VersionModel)
    requires
        newest_first(s),
    ensures
        newest_first(chain_insert(s, v)),
        count_after(s, v.begin_ts) <= s.len(),
{
    lemma_count_after(s, v.begin_ts);
}

/// Installing an open-ended version keeps the intervals contiguous.
pub proof fn law_insert_keeps_contiguous(s: Seq<VersionModel>, v: VersionModel)
    requires
        contiguous(s),
        v.end_ts == OPEN_ENDED_TS,
    ensures
        contiguous(chain_insert(s, v)),
{
    lemma_count_after(s, v.begin_ts);
    lemma_insert_keeps_order(s, v);
    let p = count_after(s, v.begin_ts) as int;
    let t = chain_insert(s, v);
    if p < s.len() && s[p].begin_ts == v.begin_ts {
        assert forall|i: int| 1 <= i < t.len() implies (#[trigger] t[i]).end_ts == t[i
            - 1].begin_ts by {
            assert(s[i].end_ts == s[i - 1].begin_ts);
        }
    } else {
        assert forall|i: int| 1 <= i < t.len() implies (#[trigger] t[i]).end_ts == t[i
            - 1].begin_ts by {
            if i < p {
                assert(t[i] == s[i] && t[i - 1] == s[i - 1]);
                assert(s[i].end_ts == s[i - 1].begin_ts);
            } else if i == p {
                assert(t[i - 1] == s[p - 1]);
            } else if i == p + 1 {
                if p > 0 {
                    assert(s[p].end_ts == s[p - 1].begin_ts);
                }
            } else {
                assert(t[i] == s[i - 1] && t[i - 1].begin_ts == s[i - 2].begin_ts);
                assert(s[i - 1].end_ts == s[i - 2].begin_ts);
            }
        }
    }
}

/// In a contiguous chain the read at `ts` is the newest version that does not
/// begin after `ts`.
pub proof fn law_read_is_newest_not_later(s: Seq<VersionModel>, ts: u64)
    requires
        contiguous(s),
        ts < OPEN_ENDED_TS,
    ensures
        ({
            let p = count_after(s, ts) as int;
            chain_read(s, ts) == (if p < s.len() {
                Some(s[p])
            } else {
                None
            })
        }),
{
    lemma_count_after(s, ts);
    let p = count_after(s, ts) as int;
    if p < s.len() {
        assert(s[p].begin_ts <= ts);
        if p > 0 {
            assert(s[p - 1].begin_ts > ts);
            assert(s[p].end_ts == s[p - 1].begin_ts);
        }
        assert forall|j: int| 0 <= j < p implies !(#[trigger] s[j]).visible_at(ts) by {
            assert(s[j].begin_ts > ts);
        }
        lemma_chain_read_at(s, ts, p);
    } else {
        assert forall|j: int| 0 <= j < s.len() implies !(#[trigger] s[j]).visible_at(ts) by {
            assert(s[j].begin_ts > ts);
        }
        lemma_chain_read_none(s, ts);
    }
}

/// Where the split at `ts` moves when a version is replaced in place.
proof fn lemma_count_after_replace(s: Seq<VersionModel>, v: VersionModel, ts: u64)
    requires
        newest_first(s),
        count_after(s, v.begin_ts) < s.len(),
        s[count_after(s, v.begin_ts) as int].begin_ts == v.begin_ts,
    ensures
        count_after(chain_insert(s, v), ts) == count_after(s, ts),
{
    let t = chain_insert(s, v);
    let q = count_after(s, ts) as int;
    lemma_count_after(s, ts);
    lemma_insert_keeps_order(s, v);
    assert forall|i: int| 0 <= i < q implies (#[trigger] t[i]).begin_ts > ts by {
        assert(s[i].begin_ts > ts);
    }
    if q < s.len() {
        assert(s[q].begin_ts <= ts);
    }
    lemma_count_after_is(t, ts, q);
}

/// Where the split at `ts` moves when a version gets a place of its own.
proof fn lemma_count_after_insert(s: Seq<VersionModel>, v: VersionModel, ts: u64)
    requires
        newest_first(s),
        count_after(s, v.begin_ts) < s.len() ==> s[count_after(s, v.begin_ts) as int].begin_ts
            != v.begin_ts,
    ensures
        count_after(chain_insert(s, v), ts) == count_after(s, ts) + (if v.begin_ts > ts {
            1int
        } else {
            0int
        }),
        v.begin_ts <= ts ==> count_after(s, ts) <= count_after(s, v.begin_ts),
        v.begin_ts > ts ==> count_after(s, ts) >= count_after(s, v.begin_ts),
{
    let p = count_after(s, v.begin_ts) as int;
    let q = count_after(s, ts) as int;
    let t = chain_insert(s, v);
    lemma_count_after(s, ts);
    lemma_count_after(s, v.begin_ts);
    lemma_insert_keeps_order(s, v);
    if v.begin_ts <= ts {
        if q > p {
            assert(s[p].begin_ts > ts);
            assert(s[p].begin_ts <= v.begin_ts);
        }
        assert forall|i: int| 0 <= i < q implies (#[trigger] t[i]).begin_ts > ts by {
            assert(t[i] == s[i]);
        }
        if q < p {
            assert(t[q] == s[q]);
        }
        lemma_count_after_is(t, ts, q);
    } else {
        if q < p {
            assert(s[q].begin_ts > v.begin_ts);
            assert(s[q].begin_ts <= ts);
        }
        assert forall|i: int| 0 <= i < q + 1 implies (#[trigger] t[i]).begin_ts > ts by {
            if i < p {
                assert(t[i] == s[i]);
                assert(s[i].begin_ts > v.begin_ts);
            } else if i > p {
                assert(t[i].begin_ts == s[i - 1].begin_ts);
                assert(s[i - 1].begin_ts > ts);
            }
        }
        if q + 1 < t.len() {
            assert(t[q + 1].begin_ts == s[q].begin_ts);
        }
        lemma_count_after_is(t, ts, q + 1);
    }
}

/// Installing an open-ended version changes exactly the reads between its own
/// timestamp and that of the next newer version: those see it, all others see
/// what they saw before.
pub proof fn law_insert_and_reads(s: Seq<VersionModel>, v: VersionModel, ts: u64)
    requires
        contiguous(s),
        v.end_ts == OPEN_ENDED_TS,
        ts < OPEN_ENDED_TS,
    ensures
        ({
            let p = count_after(s, v.begin_ts) as int;
            let covered = v.begin_ts <= ts && (p > 0 ==> ts < s[p - 1].begin_ts);
            let before = chain_read(s, ts);
            let after = chain_read(chain_insert(s, v), ts);
            &&& covered ==> {
                &&& after matches Some(w)
                &&& w.value == v.value
                &&& w.begin_ts == v.begin_ts
                &&& w.tx_id == v.tx_id
            }
            &&& !covered ==> {
                &&& after is Some <==> before is Some
                &&& after matches Some(w) ==> {
                    &&& w.value == before->0.value
                    &&& w.begin_ts == before->0.begin_ts
                    &&& w.tx_id == before->0.tx_id
                }
            }
        }),
{
    let p = count_after(s, v.begin_ts) as int;
    let q = count_after(s, ts) as int;
    let t = chain_insert(s, v);
    lemma_count_after(s, v.begin_ts);
    lemma_count_after(s, ts);
    law_insert_keeps_contiguous(s, v);
    law_read_is_newest_not_later(s, ts);
    law_read_is_newest_not_later(t, ts);
    if p < s.len() && s[p].begin_ts == v.begin_ts {
        lemma_count_after_replace(s, v, ts);
        if p < q {
            assert(s[p].begin_ts > ts);
        }
        if q < p {
            assert(s[q].begin_ts <= ts);
            if q < p - 1 {
                assert(s[q].begin_ts > s[p - 1].begin_ts);
            }
        }
    } else {
        lemma_count_after_insert(s, v, ts);
        if q < p {
            assert(s[q].begin_ts <= ts);
            if q < p - 1 {
                assert(s[q].begin_ts > s[p - 1].begin_ts);
            }
        }
        if p > 0 && q == p {
            assert(s[p - 1].begin_ts > ts);
        }
    }
}

proof fn lemma_chain_read_push(s: Seq<VersionModel>, v: VersionModel, ts: u64)
    ensures
        chain_read(s.push(v), ts) == (match chain_read(s, ts) {
            Some(w) => Some(w),
            None => if v.visible_at(ts) {
                Some(v)
            } else {
                None
            },
        }),
    decreases s.len(),
{
    let t = s.push(v);
    if s.len() == 0 {
        assert(t.drop_first() =~= Seq::<VersionModel>::empty());
    } else {
        assert(t.drop_first() =~= s.drop_first().push(v));
        lemma_chain_read_push(s.drop_first(), v, ts);
    }
}

proof fn lemma_read_through_filter(
    s: Seq<VersionModel>,
    keep: spec_fn(VersionModel) -> bool,
    ts: u64,
)
    requires
        forall|v: VersionModel| v.visible_at(ts) ==> #[trigger] keep(v),
    ensures
        chain_read(s.filter(keep), ts) == chain_read(s, ts),
    decreases s.len(),
{
    reveal(Seq::filter);
    if s.len() > 0 {
        let init = s.drop_last();
        lemma_read_through_filter(init, keep, ts);
        lemma_chain_read_push(init, s.last(), ts);
        lemma_chain_read_push(init.filter(keep), s.last(), ts);
        assert(s =~= init.push(s.last()));
    }
}

/// Garbage collection never changes what a reader at `oldest_snapshot` or
/// later sees.
pub proof fn law_gc_keeps_reads(s: Seq<VersionModel>, oldest_snapshot: u64, ts: u64)
    requires
        ts >= oldest_snapshot,
    ensures
        chain_read(chain_gc(s, oldest_snapshot), ts) == chain_read(s, ts),
{
    if s.len() > 0 {
        lemma_read_through_filter(
            s,
            |v: VersionModel| kept_by_gc(v, s[0].begin_ts, oldest_snapshot),
            ts,
        );
    }
}

proof fn lemma_filter_prefix(s: Seq<VersionModel>, keep: spec_fn(VersionModel) -> bool, n: int)
    requires
        0 <= n <= s.len(),
        forall|i: int| 0 <= i < n ==> keep(#[trigger] s[i]),
        forall|i: int| n <= i < s.len() ==> !keep(#[trigger] s[i]),
    ensures
        s.filter(keep) == s.take(n),
    decreases s.len(),
{
    reveal(Seq::filter);
    if s.len() == 0 {
        assert(s.filter(keep) =~= s.take(n));
    } else {
        let init = s.drop_last();
        if n == s.len() {
            lemma_filter_prefix(init, keep, n - 1);
            assert(keep(s[s.len() - 1]));
            assert(init.take(n - 1).push(s.last()) =~= s.take(n));
        } else {
            lemma_filter_prefix(init, keep, n);
            assert(!keep(s[s.len() - 1]));
            assert(init.take(n) =~= s.take(n));
        }
    }
}

/// In a contiguous chain garbage collection drops the oldest versions, keeps
/// the newest, and leaves a contiguous chain.
pub proof fn law_gc_drops_the_oldest(s: Seq<VersionModel>, oldest_snapshot: u64)
    requires
        contiguous(s),
    ensures
        contiguous(chain_gc(s, oldest_snapshot)),
        exists|n: int|
            0 <= n <= s.len() && (s.len() > 0 ==> n > 0) && #[trigger] s.take(n) == chain_gc(
                s,
                oldest_snapshot,
            ),
{
    if s.len() == 0 {
        assert(s.take(0) =~= s);
    } else {
        let keep = |v: VersionModel| kept_by_gc(v, s[0].begin_ts, oldest_snapshot);
        let n = lemma_gc_split(s, oldest_snapshot, s.len() as int);
        lemma_filter_prefix(s, keep, n);
        let t = s.take(n);
        assert(t == chain_gc(s, oldest_snapshot));
        assert forall|i: int| 1 <= i < t.len() implies (#[trigger] t[i]).end_ts == t[i
            - 1].begin_ts by {
            assert(t[i] == s[i] && t[i - 1] == s[i - 1]);
        }
        assert forall|i: int, j: int| 0 <= i < j < t.len() implies (#[trigger] t[i]).begin_ts > (
        #[trigger] t[j]).begin_ts by {
            assert(t[i] == s[i] && t[j] == s[j]);
        }
    }
}

proof fn lemma_gc_split(s: Seq<VersionModel>, oldest_snapshot: u64, m: int) -> (n: int)
    requires
        contiguous(s),
        1 <= m <= s.len(),
        forall|i: int|
            m <= i < s.len() ==> !kept_by_gc(#[trigger] s[i], s[0].begin_ts, oldest_snapshot),
    ensures
        1 <= n <= s.len(),
        forall|i: int|
            0 <= i < n ==> kept_by_gc(#[trigger] s[i], s[0].begin_ts, oldest_snapshot),
        forall|i: int|
            n <= i < s.len() ==> !kept_by_gc(#[trigger] s[i], s[0].begin_ts, oldest_snapshot),
    decreases m,
{
    if kept_by_gc(s[m - 1], s[0].begin_ts, oldest_snapshot) {
        assert forall|i: int| 0 <= i < m implies kept_by_gc(
            #[trigger] s[i],
            s[0].begin_ts,
            oldest_snapshot,
        ) by {
            if 0 < i && i < m - 1 {
                assert(s[i].end_ts == s[i - 1].begin_ts);
                assert(s[m - 1].end_ts == s[m - 2].begin_ts);
                assert(s[0].begin_ts > s[m - 1].begin_ts);
                if i - 1 < m - 2 {
                    assert(s[i - 1].begin_ts > s[m - 2].begin_ts);
                }
            }
        }
        m
    } else {
        lemma_gc_split(s, oldest_snapshot, m - 1)
    }
}

proof fn lemma_filter_model(
    s: Seq<VersionedValue>,
    keep: spec_fn(VersionedValue) -> bool,
    keep_model: spec_fn(VersionModel) -> bool,
)
    requires
        forall|x: VersionedValue| #[trigger] keep(x) == keep_model(x@),
    ensures
        s.filter(keep).map_values(|x: VersionedValue| x@) == s.map_values(
            |x: VersionedValue| x@,
        ).filter(keep_model),
        s.filter(keep).len() <= s.len(),
    decreases s.len(),
{
    reveal(Seq::filter);
    let f = |x: VersionedValue| x@;
    if s.len() > 0 {
        let init = s.drop_last();
        lemma_filter_model(init, keep, keep_model);
        assert(s.map_values(f).drop_last() =~= init.map_values(f));
        assert(keep(s.last()) == keep_model(s.last()@));
        assert(init.filter(keep).push(s.last()).map_values(f) =~= init.filter(keep).map_values(
            f,
        ).push(s.last()@));
    } else {
        assert(s.filter(keep).map_values(f) =~= s.map_values(f).filter(keep_model));
    }
}

impl VersionChain {
    /// The chain is newest first.
    pub open spec fn wf(&self) -> bool {
        newest_first(self@)
    }

    /// Creates an empty version chain.
    pub fn new() -> (r: Self)
        ensures
            r@ == Seq::<VersionModel>::empty(),
            r.wf(),
    {
        let r = VersionChain { versions: small_new() };
        assert(r@ =~= Seq::<VersionModel>::empty());
        r
    }

    /// Installs a committed version while preserving visibility intervals.
    pub fn insert(&mut self, version: VersionedValue)
        requires
            old(self).wf(),
        ensures
            final(self)@ == chain_insert(old(self)@, version@),
            final(self).wf(),
    {
        let ghost s = self@;
        let ghost v = version@;
        let n: usize = small_slice(&self.versions).len();
        let mut lo: usize = 0;
        let mut hi: usize = n;
        while lo < hi
            invariant
                lo <= hi <= n,
                n == s.len(),
                s == self@,
                newest_first(s),
                version@ == v,
                forall|i: int| 0 <= i < lo ==> (#[trigger] s[i]).begin_ts > v.begin_ts,
                forall|i: int| hi <= i < n ==> (#[trigger] s[i]).begin_ts <= v.begin_ts,
            decreases hi - lo,
        {
            let mid = lo + (hi - lo) / 2;
            let candidate: u64 = small_slice(&self.versions)[mid].begin_ts;
            assert(candidate == s[mid as int].begin_ts);
            if candidate > version.begin_ts {
                assert forall|i: int| 0 <= i < mid + 1 implies (#[trigger] s[i]).begin_ts
                    > v.begin_ts by {
                    if i < mid {
                        assert(s[i].begin_ts > s[mid as int].begin_ts);
                    }
                }
                lo = mid + 1;
            } else {
                assert forall|i: int| mid <= i < n implies (#[trigger] s[i]).begin_ts
                    <= v.begin_ts by {
                    if i > mid {
                        assert(s[mid as int].begin_ts > s[i].begin_ts);
                    }
                }
                hi = mid;
            }
        }
        let idx: usize = lo;
        proof {
            lemma_count_after_is(s, v.begin_ts, idx as int);
            lemma_insert_keeps_order(s, v);
        }
        let mut version = version;
        if idx < n && small_slice(&self.versions)[idx].begin_ts == version.begin_ts {
            version.end_ts = small_slice(&self.versions)[idx].end_ts;
            assert(version@ == v.ending(s[idx as int].end_ts));
            small_set(&mut self.versions, idx, version);
            assert(self@ =~= chain_insert(s, v));
            return ;
        }
        if idx > 0 {
            version.end_ts = small_slice(&self.versions)[idx - 1].begin_ts;
            assert(version@ == v.ending(s[idx - 1].begin_ts));
        }
        let ghost placed = version@;
        if idx < n {
            let mut older = small_slice(&self.versions)[idx].clone();
            if idx == 0 || older.end_ts > version.begin_ts {
                older.end_ts = version.begin_ts;
                assert(older@ == s[idx as int].ending(v.begin_ts));
                small_set(&mut self.versions, idx, older);
                assert(self@ =~= s.update(idx as int, s[idx as int].ending(v.begin_ts)));
            }
        }
        let ghost mid_view = self@;
        small_insert(&mut self.versions, idx, version);
        assert(self@ =~= mid_view.insert(idx as int, placed));
    }

    /// Returns the version visible at a snapshot.
    pub fn get(&self, snapshot: Snapshot) -> (r: Option<VersionedValue>)
        ensures
            r is Some <==> chain_read(self@, snapshot.ts) is Some,
            r matches Some(v) ==> chain_read(self@, snapshot.ts) == Some(v@),
    {
        let versions = small_slice(&self.versions);
        let ghost s = self@;
        let mut i: usize = 0;
        while i < versions.len()
            invariant
                i <= versions@.len(),
                s == self@,
                s == versions@.map_values(|x: VersionedValue| x@),
                forall|j: int| 0 <= j < i ==> !(#[trigger] s[j]).visible_at(snapshot.ts),
            decreases versions@.len() - i,
        {
            assert(s[i as int] == versions@[i as int]@);
            if snapshot.sees(&versions[i]) {
                proof {
                    lemma_chain_read_at(s, snapshot.ts, i as int);
                }
                return Some(versions[i].clone());
            }
            i += 1;
        }
        proof {
            lemma_chain_read_none(s, snapshot.ts);
        }
        None
    }

    /// Removes superseded versions that no active snapshot can observe.
    /// The newest version is always retained even when it is a tombstone.
    /// Returns how many were removed.
    pub fn garbage_collect(&mut self, oldest_snapshot: TxnTs) -> (r: usize)
        ensures
            final(self)@ == chain_gc(old(self)@, oldest_snapshot),
            r == old(self)@.len() - final(self)@.len(),
            old(self).wf() ==> final(self).wf(),
    {
        let before: usize = small_slice(&self.versions).len();
        if before == 0 {
            return 0;
        }
        let newest_ts: u64 = small_slice(&self.versions)[0].begin_ts;
        let ghost s = self@;
        let ghost items = small_view(self.versions);
        let ghost keep = |x: VersionedValue| kept_by_gc(x@, newest_ts, oldest_snapshot);
        let ghost keep_model = |v: VersionModel| kept_by_gc(v, s[0].begin_ts, oldest_snapshot);
        assert(s[0] == items[0]@);
        small_retain(&mut self.versions, newest_ts, oldest_snapshot);
        proof {
            lemma_filter_model(items, keep, keep_model);
            if newest_first(s) {
                lemma_filter_keeps_order(s, keep_model);
            }
        }
        let after: usize = small_slice(&self.versions).len();
        before - after
    }

    /// Returns all versions in newest-first order.
    pub fn versions(&self) -> (r: &[VersionedValue])
        ensures
            r@.map_values(|x: VersionedValue| x@) == self@,
    {
        small_slice(&self.versions)
    }

    /// Returns whether the chain is empty.
    pub fn is_empty(&self) -> (r: bool)
        ensures
            r == (self@.len() == 0),
    {
        small_slice(&self.versions).len() == 0
    }
}

proof fn lemma_filter_keeps_order(s: Seq<VersionModel>, keep: spec_fn(VersionModel) -> bool)
    requires
        newest_first(s),
    ensures
        newest_first(s.filter(keep)),
        forall|i: int|
            0 <= i < s.filter(keep).len() ==> s.contains(#[trigger] s.filter(keep)[i]),
    decreases s.len(),
{
    reveal(Seq::filter);
    if s.len() > 0 {
        let init = s.drop_last();
        assert forall|i: int, j: int| 0 <= i < j < init.len() implies (#[trigger] init[i]).begin_ts
            > (#[trigger] init[j]).begin_ts by {
            assert(init[i] == s[i] && init[j] == s[j]);
        }
        lemma_filter_keeps_order(init, keep);
        let t = init.filter(keep);
        assert forall|i: int| 0 <= i < t.len() implies s.contains(#[trigger] t[i]) && t[i].begin_ts
            > s.last().begin_ts by {
            assert(init.contains(t[i]));
            let k = choose|k: int| 0 <= k < init.len() && init[k] == t[i];
            assert(s[k] == t[i]);
            assert(s[k].begin_ts > s[s.len() - 1].begin_ts);
        }
        assert(s.contains(s.last())) by {
            assert(s[s.len() - 1] == s.last());
        }
    }
}

impl Clone for VersionChain {
    fn clone(&self) -> (r: Self)
        ensures
            r@ == self@,
    {
        VersionChain { versions: small_clone(&self.versions) }
    }
}

impl Default for VersionChain {
    fn default() -> (r: Self)
        ensures
            r@ == Seq::<VersionModel>::empty(),
    {
        VersionChain::new()
    }
}

} // verus!
