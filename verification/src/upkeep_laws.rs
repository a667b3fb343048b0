//! What throttling, the background worker, watchers, pins, garbage collection and
//! the replay of a log come down to.

use crate::buf::{lists_keys, sorted_keys};
use crate::chain_store::Chains;
use crate::committer::Committer;
use crate::config::{EngineConfig, SyncMode};
use crate::file_io::FileIO;
use crate::memtable::{chains_gc, gc_dropped, MemTable, MemTableBackend};
use crate::metrics::{EngineMetrics, MetricsSnapshot};
use crate::mutation::{mutation_models, Mutation};
use crate::pins::{pinned, unpinned, SnapshotPins};
use crate::pressure::{PressureConfig, PressureThrottle, ThrottleLevel};
use crate::recovery::{groups_of, highest_tx, pending_of, replay_wal, ts_after, Replayed};
use crate::version::{chain_gc, kept_by_gc, VersionModel};
use crate::wal::{record_models, OpType, RecordModel, WalRecord};
use crate::watch::{WatchEvent, Watcher};
use crate::worker::{doubled, WorkerState, WorkerStep};
use vstd::prelude::*;

verus! {

// ── Throttling ────────────────────────────────────────────────────────────

/// Writes are refused from the hard share of the threshold on, slowed from the soft
/// share on, and go freely below both. Shares are in millionths; a threshold of
/// zero counts as one byte.
pub proof fn law_pressure_goes_by_the_shares(
    t: &PressureThrottle,
    metrics: &MetricsSnapshot,
    r: ThrottleLevel,
    threshold: int,
)
    requires
        call_ensures(PressureThrottle::should_throttle, (t, metrics), r),
        threshold == (if t.tuning().memtable_flush_bytes == 0 {
            1
        } else {
            t.tuning().memtable_flush_bytes as int
        }),
    ensures
        r is Hard <==> metrics.memtable_bytes * 1_000_000 >= t.tuning().hard_memtable_ratio
            * threshold,
        r is Soft <==> {
            &&& metrics.memtable_bytes * 1_000_000 < t.tuning().hard_memtable_ratio * threshold
            &&& metrics.memtable_bytes * 1_000_000 >= t.tuning().soft_memtable_ratio * threshold
        },
{
}

// ── The worker ────────────────────────────────────────────────────────────

/// Garbage is due once the interval has passed since it was last collected, and the
/// time is kept where it is collected, and only there.
pub proof fn law_garbage_is_due_after_the_interval(
    w: &mut WorkerState,
    now: u64,
    gc_interval: u64,
    r: bool,
)
    requires
        call_ensures(WorkerState::collects_garbage, (w, now, gc_interval), r),
        old(w).last_gc_at <= now,
    ensures
        r <==> now - old(w).last_gc_at >= gc_interval,
        r ==> final(w).last_gc_at == now,
        !r ==> final(w).last_gc_at == old(w).last_gc_at,
        final(w).panic_count == old(w).panic_count,
{
}

/// A clean pass forgets the panics and waits for the interval alone.
pub proof fn law_clean_pass_starts_over(w: &mut WorkerState, r: WorkerStep)
    requires
        call_ensures(WorkerState::after_pass, (w, false), r),
    ensures
        final(w).panic_count == 0,
        r == (WorkerStep::Wait { backoff_ms: 0, interval_ms: 5000 }),
{
}

/// Each panic in a row doubles the back-off, from two hundred milliseconds to six
/// thousand four hundred and no further; beyond a hundred in a row the worker quits.
pub proof fn law_panics_back_off(w: &mut WorkerState, r: WorkerStep)
    requires
        call_ensures(WorkerState::after_pass, (w, true), r),
    ensures
        old(w).panic_count < u64::MAX ==> final(w).panic_count == old(w).panic_count + 1,
        r is Quit <==> final(w).panic_count > 100,
        r matches WorkerStep::Wait { backoff_ms, interval_ms } ==> {
            &&& interval_ms == 5000
            &&& final(w).panic_count == 1 ==> backoff_ms == 200
            &&& final(w).panic_count == 2 ==> backoff_ms == 400
            &&& final(w).panic_count == 3 ==> backoff_ms == 800
            &&& final(w).panic_count == 4 ==> backoff_ms == 1600
            &&& final(w).panic_count == 5 ==> backoff_ms == 3200
            &&& final(w).panic_count >= 6 ==> backoff_ms == 6400
        },
{
    reveal_with_fuel(doubled, 8);
}

// ── Watchers ──────────────────────────────────────────────────────────────

/// A published commit is resolved from then on, and what was resolved before stays
/// so; it is announced as it was published, where anyone listens.
pub proof fn law_published_commit_is_resolved(
    w: &mut Watcher,
    tx_id: u64,
    commit_ts: u64,
    mutations: Vec<Mutation>,
    r: Option<WatchEvent>,
)
    requires
        call_ensures(Watcher::publish, (w, tx_id, commit_ts, mutations), r),
    ensures
        final(w).resolved() >= commit_ts,
        final(w).resolved() >= old(w).resolved(),
        final(w).resolved() == commit_ts || final(w).resolved() == old(w).resolved(),
        r is Some <==> old(w).listeners() > 0,
        r matches Some(event) ==> {
            &&& event.tx_id == tx_id
            &&& event.commit_ts == commit_ts
            &&& mutation_models(event.mutations@) == mutation_models(mutations@)
        },
{
}

/// A waiter is let go once what it waits for is resolved, and not before.
pub proof fn law_waiters_wait_for_the_watermark(w: &Watcher, ts: u64, r: Option<u64>)
    requires
        call_ensures(Watcher::wait_for_resolved, (w, ts), r),
    ensures
        w.resolved() < ts ==> r is None,
        w.resolved() >= ts ==> r == Some(w.resolved()),
{
}

// ── Pins ──────────────────────────────────────────────────────────────────

/// A snapshot is held from its first pin until it was released as often, and pins
/// of one snapshot say nothing of another.
pub proof fn law_pins_are_counted(pins: Map<u64, usize>, ts: u64, other: u64)
    ensures
        pinned(pins, ts).contains_key(other) <==> pins.contains_key(other) || other == ts,
        !pins.contains_key(ts) ==> pinned(pins, ts)[ts] == 1,
        pins.contains_key(ts) && pins[ts] < usize::MAX ==> pinned(pins, ts)[ts] == pins[ts] + 1,
        other != ts && pins.contains_key(other) ==> pinned(pins, ts)[other] == pins[other]
            && unpinned(pins, ts).contains_key(other) && unpinned(pins, ts)[other] == pins[other],
        unpinned(pins, ts).contains_key(ts) <==> pins.contains_key(ts) && pins[ts] > 1,
        pins.contains_key(ts) && pins[ts] > 1 ==> unpinned(pins, ts)[ts] == pins[ts] - 1,
        !pins.contains_key(other) && other != ts ==> !unpinned(pins, ts).contains_key(other),
{
}

/// The watermark is the oldest snapshot that is held, or the newest commit where
/// that is older.
pub proof fn law_watermark_is_the_oldest(p: &SnapshotPins, committed: u64, r: u64, ts: u64)
    requires
        call_ensures(SnapshotPins::watermark, (p, committed), r),
    ensures
        r <= committed,
        p@.contains_key(ts) ==> r <= ts,
        r == committed || p@.contains_key(r),
{
}

// ── Garbage collection ────────────────────────────────────────────────────

/// Garbage collection keeps of each key the newest version and every version that
/// ends after the oldest snapshot, and drops every other; no key is lost.
pub proof fn law_gc_keeps_what_can_be_seen(m: Chains, oldest: u64, key: Seq<u8>, v: VersionModel)
    ensures
        chains_gc(m, oldest).dom() == m.dom(),
        m.contains_key(key) ==> (chains_gc(m, oldest)[key].contains(v) <==> m[key].contains(v) && (
        v.begin_ts == m[key][0].begin_ts || v.end_ts > oldest)),
{
    assert(chains_gc(m, oldest).dom() =~= m.dom());
    if m.contains_key(key) && m[key].len() > 0 {
        let s = m[key];
        let keep = |x: VersionModel| kept_by_gc(x, s[0].begin_ts, oldest);
        assert(chain_gc(s, oldest) == s.filter(keep));
        lemma_filter_of(s, keep, v);
    }
}

proof fn lemma_filter_of(
    s: Seq<VersionModel>,
    keep: spec_fn(VersionModel) -> bool,
    v: VersionModel,
)
    ensures
        s.filter(keep).contains(v) <==> s.contains(v) && keep(v),
    decreases s.len(),
{
    reveal(Seq::filter);
    if s.len() > 0 {
        let init = s.drop_last();
        lemma_filter_of(init, keep, v);
        let f = init.filter(keep);
        if s.contains(v) {
            let i = choose|i: int| 0 <= i < s.len() && s[i] == v;
            if i < init.len() {
                assert(init[i] == v);
            }
        }
        if init.contains(v) {
            let i = choose|i: int| 0 <= i < init.len() && init[i] == v;
            assert(s[i] == v);
        }
        if keep(s.last()) {
            assert(s.filter(keep) == f.push(s.last()));
            if f.contains(v) {
                let i = choose|i: int| 0 <= i < f.len() && f[i] == v;
                assert(f.push(s.last())[i] == v);
            }
            if f.push(s.last()).contains(v) {
                let i = choose|i: int| 0 <= i < f.len() + 1 && f.push(s.last())[i] == v;
                if i < f.len() {
                    assert(f[i] == v);
                }
            }
            assert(f.push(s.last())[f.len() as int] == s.last());
        }
        assert(s[s.len() - 1] == s.last());
    }
}

/// How many versions the chains under the keys hold.
pub open spec fn versions_under(ks: Seq<Seq<u8>>, m: Chains) -> nat
    decreases ks.len(),
{
    if ks.len() == 0 {
        0
    } else {
        versions_under(ks.drop_last(), m) + m[ks.last()].len()
    }
}

/// The number that garbage collection reports is how many versions fewer there are.
pub proof fn law_gc_reports_what_it_dropped(ks: Seq<Seq<u8>>, m: Chains, oldest: u64)
    requires
        forall|i: int| 0 <= i < ks.len() ==> m.contains_key(#[trigger] ks[i]),
        versions_under(ks, m) <= usize::MAX,
    ensures
        gc_dropped(ks, m, oldest) == versions_under(ks, m) - versions_under(
            ks,
            chains_gc(m, oldest),
        ),
        versions_under(ks, chains_gc(m, oldest)) <= versions_under(ks, m),
    decreases ks.len(),
{
    if ks.len() > 0 {
        let init = ks.drop_last();
        assert forall|i: int| 0 <= i < init.len() implies m.contains_key(#[trigger] init[i]) by {
            assert(init[i] == ks[i]);
        }
        law_gc_reports_what_it_dropped(init, m, oldest);
        assert(m.contains_key(ks[ks.len() - 1]));
        let s = m[ks.last()];
        if s.len() > 0 {
            let keep = |x: VersionModel| kept_by_gc(x, s[0].begin_ts, oldest);
            s.lemma_filter_len(keep);
        }
    }
}

/// Collecting garbage changes no key's newest version and nothing that a snapshot at
/// the watermark or later sees, takes the rest away, and says how much that was.
pub proof fn law_garbage_is_collected<F: FileIO>(
    c: &mut Committer<F>,
    watermark: u64,
    r: usize,
    key: Seq<u8>,
    v: VersionModel,
)
    requires
        call_ensures(Committer::<F>::garbage_collect, (c, watermark), r),
        old(c)@.chains.contains_key(key),
        lists_keys(sorted_keys(old(c)@.chains.dom()), old(c)@.chains.dom()),
        versions_under(sorted_keys(old(c)@.chains.dom()), old(c)@.chains) <= usize::MAX,
    ensures
        final(c)@.chains.dom() == old(c)@.chains.dom(),
        final(c)@.chains[key].contains(v) <==> old(c)@.chains[key].contains(v) && (v.begin_ts
            == old(c)@.chains[key][0].begin_ts || v.end_ts > watermark),
        r == versions_under(sorted_keys(old(c)@.chains.dom()), old(c)@.chains) - versions_under(
            sorted_keys(old(c)@.chains.dom()),
            final(c)@.chains,
        ),
        final(c)@.log == old(c)@.log,
        final(c)@.commit_seq == old(c)@.commit_seq,
{
    let m = old(c)@.chains;
    let ks = sorted_keys(m.dom());
    law_gc_keeps_what_can_be_seen(m, watermark, key, v);
    assert forall|i: int| 0 <= i < ks.len() implies m.contains_key(#[trigger] ks[i]) by {
        assert(ks.contains(ks[i]));
    }
    law_gc_reports_what_it_dropped(ks, m, watermark);
}

// ── Replay ────────────────────────────────────────────────────────────────

/// The highest transaction of a log is one of its transactions, and none is higher.
pub proof fn law_highest_transaction(rs: Seq<RecordModel>, i: int)
    requires
        0 <= i < rs.len(),
    ensures
        rs[i].tx_id <= highest_tx(rs),
        exists|j: int| 0 <= j < rs.len() && (#[trigger] rs[j]).tx_id == highest_tx(rs),
    decreases rs.len(),
{
    let init = rs.drop_last();
    assert(rs.last() == rs[rs.len() - 1]);
    if init.len() > 0 {
        let k = if i < init.len() {
            i
        } else {
            0
        };
        law_highest_transaction(init, k);
        assert(init[k] == rs[k]);
        let j = choose|j: int| 0 <= j < init.len() && (#[trigger] init[j]).tx_id == highest_tx(init);
        assert(rs[j].tx_id == highest_tx(init));
    } else {
        assert(highest_tx(init) == 0);
    }
}

/// Commits are numbered one after the other.
pub proof fn law_commits_are_numbered_in_turn(ts: u64, n: nat)
    ensures
        ts + n <= u64::MAX ==> ts_after(ts, n) == ts + n,
        ts + n > u64::MAX ==> ts_after(ts, n) == u64::MAX,
    decreases n,
{
    if n > 0 {
        law_commits_are_numbered_in_turn(ts, (n - 1) as nat);
    }
}

/// A replay ends above everything in the log: no transaction of the log is above
/// the one it reports, and the next commit comes after all that were applied.
pub proof fn law_replay_ends_above_the_log<B: MemTableBackend>(
    memtable: &mut MemTable<B>,
    records: &[WalRecord],
    first_ts: u64,
    p: Replayed,
    i: int,
)
    requires
        call_ensures(replay_wal::<B>, (memtable, records, first_ts), Ok(p)),
        0 <= i < records@.len(),
        first_ts + groups_of(record_models(records@)).len() <= u64::MAX,
    ensures
        records@[i].tx_id <= p.highest_tx,
        p.next_commit_ts == first_ts + groups_of(record_models(records@)).len(),
{
    let rs = record_models(records@);
    assert(rs[i] == records@[i]@);
    law_highest_transaction(rs, i);
    law_commits_are_numbered_in_turn(first_ts, groups_of(rs).len());
}

/// One more record of a log does this: a put or a delete waits for the marker of
/// its transaction; a commit applies what waits for it, together and last; an abort
/// forgets it; and no record touches another transaction.
pub proof fn law_markers_decide(rs: Seq<RecordModel>, r: RecordModel, other: u64)
    requires
        other != r.tx_id,
    ensures
        pending_of(rs.push(r), other) == pending_of(rs, other),
        r.op == OpType::Put || r.op == OpType::Delete ==> {
            &&& pending_of(rs.push(r), r.tx_id) == pending_of(rs, r.tx_id).push(r)
            &&& groups_of(rs.push(r)) == groups_of(rs)
        },
        r.op == OpType::Abort ==> {
            &&& pending_of(rs.push(r), r.tx_id).len() == 0
            &&& groups_of(rs.push(r)) == groups_of(rs)
        },
        r.op == OpType::Commit ==> {
            &&& pending_of(rs.push(r), r.tx_id).len() == 0
            &&& pending_of(rs, r.tx_id).len() > 0 ==> groups_of(rs.push(r)) == groups_of(rs).push(
                pending_of(rs, r.tx_id),
            )
            &&& pending_of(rs, r.tx_id).len() == 0 ==> groups_of(rs.push(r)) == groups_of(rs)
        },
        pending_of(Seq::empty(), other).len() == 0,
        groups_of(Seq::empty()).len() == 0,
{
    assert(rs.push(r).drop_last() =~= rs);
    assert(pending_of(Seq::<RecordModel>::empty(), other).len() == 0);
    assert(groups_of(Seq::<RecordModel>::empty()).len() == 0);
}

// ── Settings and counters ─────────────────────────────────────────────────

/// The throttle of a configuration always goes by the engine's own flush threshold;
/// the shares and the delay are those that were given.
pub proof fn law_throttle_goes_by_the_flush_threshold<C, P, S>(
    config: EngineConfig<C, P, S>,
    pressure: PressureConfig,
    r: EngineConfig<C, P, S>,
)
    requires
        call_ensures(EngineConfig::<C, P, S>::with_pressure, (config, pressure), r),
    ensures
        r.pressure.memtable_flush_bytes == config.memtable_flush_bytes,
        r.pressure.soft_memtable_ratio == pressure.soft_memtable_ratio,
        r.pressure.hard_memtable_ratio == pressure.hard_memtable_ratio,
        r.pressure.soft_sleep_millis == pressure.soft_sleep_millis,
        r.memtable_flush_bytes == config.memtable_flush_bytes,
        r.wal_max_size_bytes == config.wal_max_size_bytes,
        r.gc_interval == config.gc_interval,
        r.sync_mode == config.sync_mode,
        r.path == config.path,
{
}

/// A setting is changed alone.
pub proof fn law_settings_are_changed_one_by_one<C, P, S>(
    config: EngineConfig<C, P, S>,
    bytes: u64,
    a: EngineConfig<C, P, S>,
    interval: u64,
    b: EngineConfig<C, P, S>,
    mode: SyncMode,
    c: EngineConfig<C, P, S>,
)
    requires
        call_ensures(EngineConfig::<C, P, S>::with_wal_max_size, (config, bytes), a),
        call_ensures(EngineConfig::<C, P, S>::with_gc_interval, (config, interval), b),
        call_ensures(EngineConfig::<C, P, S>::with_sync_mode, (config, mode), c),
    ensures
        a.wal_max_size_bytes == bytes && a.gc_interval == config.gc_interval && a.sync_mode
            == config.sync_mode && a.pressure == config.pressure,
        b.gc_interval == interval && b.wal_max_size_bytes == config.wal_max_size_bytes
            && b.sync_mode == config.sync_mode && b.pressure == config.pressure,
        c.sync_mode == mode && c.wal_max_size_bytes == config.wal_max_size_bytes && c.gc_interval
            == config.gc_interval && c.pressure == config.pressure,
{
}

/// Each event is counted in its own counter, and no other counter moves.
pub proof fn law_events_are_counted_apart(
    a: &mut EngineMetrics,
    b: &mut EngineMetrics,
    c: &mut EngineMetrics,
    bytes: u64,
)
    requires
        call_ensures(EngineMetrics::record_commit, (a,), ()),
        call_ensures(EngineMetrics::record_abort, (b,), ()),
        call_ensures(EngineMetrics::record_wal_write, (c, bytes), ()),
        old(a).tx_committed < u64::MAX,
        old(b).tx_aborted < u64::MAX,
        old(c).wal_bytes_written + bytes <= u64::MAX,
    ensures
        final(a).tx_committed == old(a).tx_committed + 1,
        final(a).tx_aborted == old(a).tx_aborted,
        final(b).tx_aborted == old(b).tx_aborted + 1,
        final(b).tx_committed == old(b).tx_committed,
        final(c).wal_bytes_written == old(c).wal_bytes_written + bytes,
        final(c).sst_bytes_written == old(c).sst_bytes_written,
{
}

/// A snapshot of the counters shows each of them.
pub proof fn law_snapshot_shows_every_counter(m: &EngineMetrics, r: MetricsSnapshot)
    requires
        call_ensures(EngineMetrics::snapshot, (m,), r),
    ensures
        r.tx_committed == m.tx_committed,
        r.tx_aborted == m.tx_aborted,
        r.ssi_conflicts == m.ssi_conflicts,
        r.wal_bytes_written == m.wal_bytes_written,
        r.sst_bytes_written == m.sst_bytes_written,
        r.flush_count == m.flush_count,
        r.compaction_count == m.compaction_count,
        r.memtable_bytes == m.memtable_bytes,
        r.sst_read_failures == m.sst_read_failures,
        r.gc_versions_dropped == m.gc_versions_dropped,
        r.compaction_panics == m.compaction_panics,
{
}

} // verus!
