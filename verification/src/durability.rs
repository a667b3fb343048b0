//! What a reopened engine gives back.

use crate::buf::{lists_keys, sorted_keys};
use crate::chain_store::{chain_of, chains_read, Chains};
use crate::committer::{law_commit_is_read_back, snapshot_of};
use crate::engine::{is_opened, EngineModel};
use crate::engine_laws::{
    files_before, healthy, law_reads_exist, lemma_count_after_bound, with_commit,
};
use crate::key_index::lookup_visible;
use crate::manifest_laws::{law_reopen_restores, log_holds};
use crate::memtable::{
    apply_records, chains_contiguous, last_write, law_apply_is_read_back,
    law_apply_keeps_contiguous, lemma_apply_none_after, none_after, table_rows, written_value,
    RowModel,
};
use crate::mutation::MutationModel;
use crate::recovery::{
    apply_groups, commit_groups, groups_of, law_replay_restores_commits, log_of, ts_after,
};
use crate::tables::{
    are_tallies, failures, is_listing, lemma_listing_is_live, newest_commit, tallied, tally_step,
    Tally,
};
use crate::tables_laws::{
    is_compacted, is_flushed, law_compaction_keeps_reads, law_flush_keeps_reads,
    lemma_flush_version,
};
use crate::tables_model::{latest_in, law_newest_is_latest, value_of, TablesModel};
use crate::version::{count_after, VersionModel, OPEN_ENDED_TS};
use crate::version_set::{id_after, MetaModel};
use crate::wal::{
    batch_bytes, commit_model, frames, kept, mutation_records, parse_log, OpType, RecordModel,
};
use crate::wal_laws::{all_kept, all_read_back, law_round_trip};
use vstd::prelude::*;

verus! {

/// What the last of the commits that wrote a key left under it.
pub open spec fn last_commit(cs: Seq<(u64, Seq<MutationModel>)>, key: Seq<u8>) -> Option<
    Option<Seq<u8>>,
>
    decreases cs.len(),
{
    if cs.len() == 0 {
        None
    } else {
        match last_write(mutation_records(cs.last().0, cs.last().1), key) {
            Some(r) => Some(written_value(r)),
            None => last_commit(cs.drop_last(), key),
        }
    }
}

/// The commits can be read back from a log.
pub open spec fn are_readable(cs: Seq<(u64, Seq<MutationModel>)>) -> bool {
    &&& all_read_back(log_of(cs))
    &&& frames(log_of(cs)).len() <= usize::MAX
    &&& forall|i: int| 0 <= i < cs.len() ==> (#[trigger] cs[i]).1.len() > 0
}

/// A key reads as the last of the commits left it; of a key that none of them
/// wrote, the memtable shows nothing.
pub open spec fn reads_as(
    m: EngineModel,
    cs: Seq<(u64, Seq<MutationModel>)>,
    key: Seq<u8>,
    ts: u64,
) -> bool {
    match last_commit(cs, key) {
        Some(x) => forall|v: Option<Seq<u8>>| #[trigger]
            m.tables.reads(m.write.chains, key, ts, v) ==> v == x,
        None => chains_read(m.write.chains, key, ts) is None,
    }
}

/// The log holds the commits `cs`, and they are the newest of what they wrote.
pub open spec fn is_current(m: EngineModel, cs: Seq<(u64, Seq<MutationModel>)>) -> bool {
    &&& m.write.log == frames(log_of(cs))
    &&& are_readable(cs)
    &&& forall|key: Seq<u8>, ts: u64|
        !m.tables.is_dropped(key) && snapshot_of(m.write) <= ts < OPEN_ENDED_TS
            ==> #[trigger] reads_as(m, cs, key, ts)
}

// ── The commits of a log ──────────────────────────────────────────────────

proof fn lemma_frames_concat(a: Seq<RecordModel>, b: Seq<RecordModel>)
    ensures
        frames(a + b) == frames(a) + frames(b),
    decreases b.len(),
{
    if b.len() == 0 {
        assert(a + b =~= a);
        assert(frames(a) + frames(b) =~= frames(a));
    } else {
        lemma_frames_concat(a, b.drop_last());
        assert((a + b).drop_last() =~= a + b.drop_last());
        assert((a + b).last() == b.last());
        assert(frames(a + b) =~= frames(a) + frames(b));
    }
}

/// One more commit appends its batch to the log.
pub proof fn lemma_log_push(cs: Seq<(u64, Seq<MutationModel>)>, tx_id: u64, ms: Seq<MutationModel>)
    ensures
        frames(log_of(cs.push((tx_id, ms)))) == frames(log_of(cs)) + batch_bytes(
            mutation_records(tx_id, ms),
            tx_id,
        ),
{
    let next = cs.push((tx_id, ms));
    assert(next.drop_last() =~= cs);
    lemma_frames_concat(
        log_of(cs),
        mutation_records(tx_id, ms).push(commit_model(tx_id)),
    );
}

/// Encoding drops nothing of the records of commits.
pub proof fn lemma_log_is_kept(cs: Seq<(u64, Seq<MutationModel>)>)
    ensures
        all_kept(log_of(cs)) == log_of(cs),
    decreases cs.len(),
{
    if cs.len() > 0 {
        let (tx_id, ms) = cs.last();
        lemma_log_is_kept(cs.drop_last());
        let tail = mutation_records(tx_id, ms).push(commit_model(tx_id));
        assert forall|i: int| 0 <= i < tail.len() implies kept(#[trigger] tail[i]) == tail[i] by {}
        let front = log_of(cs.drop_last());
        assert forall|i: int| 0 <= i < front.len() implies kept(#[trigger] front[i])
            == front[i] by {
            assert(all_kept(front)[i] == kept(front[i]));
        }
        assert(all_kept(log_of(cs)) =~= log_of(cs));
    } else {
        assert(all_kept(log_of(cs)) =~= log_of(cs));
    }
}

proof fn lemma_ts_after(ts: u64, n: nat)
    ensures
        ts_after(ts, n) >= ts,
        ts + n <= u64::MAX ==> ts_after(ts, n) == ts + n,
        ts_after(ts, n) < u64::MAX ==> ts + n < u64::MAX,
    decreases n,
{
    if n > 0 {
        lemma_ts_after(ts, (n - 1) as nat);
    }
}

/// What replaying commits leaves in a memtable.
proof fn lemma_replayed(cs: Seq<(u64, Seq<MutationModel>)>, base: u64)
    requires
        base > 0,
        base + cs.len() <= u64::MAX,
    ensures
        ({
            let chains = apply_groups(Map::empty(), commit_groups(cs), base);
            &&& chains_contiguous(chains)
            &&& none_after(chains, (base + cs.len() - 1) as u64)
            &&& forall|k: Seq<u8>, i: int|
                chains.contains_key(k) && 0 <= i < chains[k].len() ==> (
                #[trigger] chains[k][i]).begin_ts >= base
            &&& forall|key: Seq<u8>, ts: u64|
                base + cs.len() - 1 <= ts < OPEN_ENDED_TS ==> match last_commit(cs, key) {
                    Some(x) => (#[trigger] chains_read(chains, key, ts)) matches Some(v)
                        && v.value == x,
                    None => chains_read(chains, key, ts) is None,
                }
        }),
    decreases cs.len(),
{
    let gs = commit_groups(cs);
    let chains = apply_groups(Map::empty(), gs, base);
    if cs.len() > 0 {
        let front = cs.drop_last();
        lemma_replayed(front, base);
        assert(gs.drop_last() =~= commit_groups(front));
        let mid = apply_groups(Map::empty(), commit_groups(front), base);
        let rs = mutation_records(cs.last().0, cs.last().1);
        let at = (base + cs.len() - 1) as u64;
        lemma_ts_after(base, front.len());
        assert(chains == apply_records(mid, rs, at));
        assert(none_after(mid, at)) by {
            assert forall|k: Seq<u8>, i: int|
                mid.contains_key(k) && 0 <= i < mid[k].len() implies (
            #[trigger] mid[k][i]).begin_ts <= at by {}
        }
        law_apply_keeps_contiguous(mid, rs, at);
        lemma_apply_none_after(mid, rs, at);
        lemma_apply_not_before(mid, rs, at, base);
        assert forall|key: Seq<u8>, ts: u64|
            base + cs.len() - 1 <= ts < OPEN_ENDED_TS implies match last_commit(cs, key) {
            Some(x) => (#[trigger] chains_read(chains, key, ts)) matches Some(v) && v.value == x,
            None => chains_read(chains, key, ts) is None,
        } by {
            law_apply_is_read_back(mid, rs, at, key, ts);
            assert(chains_read(mid, key, ts) == chains_read(mid, key, ts));
        }
    }
}

proof fn lemma_apply_not_before(m: Chains, rs: Seq<RecordModel>, ts: u64, base: u64)
    requires
        base <= ts,
        forall|k: Seq<u8>, i: int|
            m.contains_key(k) && 0 <= i < m[k].len() ==> (#[trigger] m[k][i]).begin_ts >= base,
    ensures
        ({
            let after = apply_records(m, rs, ts);
            forall|k: Seq<u8>, i: int|
                after.contains_key(k) && 0 <= i < after[k].len() ==> (
                #[trigger] after[k][i]).begin_ts >= base
        }),
    decreases rs.len(),
{
    if rs.len() > 0 {
        let r = rs.last();
        let mid = apply_records(m, rs.drop_last(), ts);
        let after = apply_records(m, rs, ts);
        lemma_apply_not_before(m, rs.drop_last(), ts, base);
        if r.op == OpType::Put || r.op == OpType::Delete {
            let c = chain_of(mid, r.key);
            let p = count_after(c, ts) as int;
            lemma_count_after_bound(c, ts);
            assert forall|k: Seq<u8>, i: int|
                after.contains_key(k) && 0 <= i < after[k].len() implies (
            #[trigger] after[k][i]).begin_ts >= base by {
                if k == r.key {
                    if p < c.len() && c[p].begin_ts == ts {
                        if i != p {
                            assert(after[k][i] == mid[k][i]);
                        }
                    } else if i < p {
                        assert(after[k][i].begin_ts == mid[k][i].begin_ts);
                    } else if i > p {
                        assert(after[k][i].begin_ts == mid[k][i - 1].begin_ts);
                    }
                } else {
                    assert(after[k][i] == mid[k][i]);
                }
            }
        }
    }
}

// ── The files of a directory ──────────────────────────────────────────────

proof fn lemma_newest_commit_bounds(rs: Seq<RowModel>, i: int)
    requires
        0 <= i < rs.len(),
    ensures
        rs[i].version.begin_ts <= newest_commit(rs),
    decreases rs.len(),
{
    if i < rs.len() - 1 {
        lemma_newest_commit_bounds(rs.drop_last(), i);
        assert(rs.drop_last()[i] == rs[i]);
    }
}

proof fn lemma_none_failed(readable: Seq<bool>, n: int, i: int)
    requires
        failures(readable, n) == 0,
        0 <= i < n,
    ensures
        readable[i],
    decreases n,
{
    if i < n - 1 {
        lemma_none_failed(readable, n - 1, i);
    }
}

proof fn lemma_tallies_grow(
    ts: Seq<Tally>,
    m: TablesModel,
    ids: Seq<u64>,
    readable: Seq<bool>,
    i: int,
    j: int,
)
    requires
        are_tallies(ts, m, ids, readable),
        0 <= i <= j < ts.len(),
    ensures
        ts[i].newest <= ts[j].newest,
    decreases j - i,
{
    if i < j {
        lemma_tallies_grow(ts, m, ids, readable, i, j - 1);
        assert(tally_step(ts[j - 1], ts[j - 1 + 1], m.rows(ids[j - 1]), readable[j - 1]));
    }
}

/// Where every file was read, no row of a file begins after the newest commit
/// that was found.
proof fn lemma_tally_bounds(m: TablesModel, max_commit: u64)
    requires
        tallied(m, max_commit, 0),
    ensures
        forall|id: u64, j: int|
            #![trigger m.live(id), m.rows(id)[j]]
            m.live(id) && 0 <= j < m.rows(id).len() ==> m.rows(id)[j].version.begin_ts
                <= max_commit,
{
    let (ts, ids, readable) = choose|ts: Seq<Tally>, ids: Seq<u64>, readable: Seq<bool>| #[trigger]
        are_tallies(ts, m, ids, readable) && {
            &&& is_listing(ids, m.version)
            &&& readable.len() == ids.len()
            &&& ts.last() == (Tally {
                rows: m.row_count,
                tables: m.table_rows,
                newest: max_commit,
            })
            &&& 0 == failures(readable, ids.len() as int)
        };
    assert forall|id: u64, j: int|
        #![trigger m.live(id), m.rows(id)[j]]
        m.live(id) && 0 <= j < m.rows(id).len() implies m.rows(id)[j].version.begin_ts
        <= max_commit by {
        lemma_listing_is_live(ids, m, id);
        let i = choose|i: int| 0 <= i < ids.len() && ids[i] == id;
        lemma_none_failed(readable, ids.len() as int, i);
        assert(tally_step(ts[i], ts[i + 1], m.rows(ids[i]), readable[i]));
        lemma_newest_commit_bounds(m.rows(id), j);
        lemma_tallies_grow(ts, m, ids, readable, i + 1, ts.len() - 1);
    }
}

/// The two engines have the same files.
pub open spec fn same_files(a: TablesModel, b: TablesModel) -> bool {
    a.dir == b.dir && a.version == b.version && a.stored == b.stored
}

proof fn lemma_same_files(a: TablesModel, b: TablesModel, key: Seq<u8>, ts: u64)
    requires
        same_files(a, b),
    ensures
        forall|id: u64| #[trigger] a.live(id) <==> b.live(id),
        forall|id: u64| #[trigger] a.rows(id) == b.rows(id),
        forall|v: Option<VersionModel>|
            #![trigger a.newest(key, ts, v)]
            #![trigger b.newest(key, ts, v)]
            a.newest(key, ts, v) <==> b.newest(key, ts, v),
        a.well_kept() ==> b.well_kept(),
        a.agrees() ==> b.agrees(),
{
    assert forall|id: u64| #[trigger] a.live(id) <==> b.live(id) by {
        if a.live(id) {
            let l = choose|l: u32| #[trigger] a.version.holds(l, id);
            assert(b.version.holds(l, id));
        }
        if b.live(id) {
            let l = choose|l: u32| #[trigger] b.version.holds(l, id);
            assert(a.version.holds(l, id));
        }
    }
    assert forall|v: Option<VersionModel>|
        #![trigger a.newest(key, ts, v)]
        #![trigger b.newest(key, ts, v)]
        a.newest(key, ts, v) <==> b.newest(key, ts, v) by {
        if a.newest(key, ts, v) {
            lemma_newest_moves(a, b, key, ts, v);
        }
        if b.newest(key, ts, v) {
            lemma_newest_moves(b, a, key, ts, v);
        }
    }
    if a.well_kept() {
        assert forall|id: u64| #[trigger] b.live(id) implies b.file_kept(id) by {
            assert(a.live(id));
            assert(a.file_kept(id));
        }
        assert forall|id: u64| #[trigger] b.version.meta.contains_key(id) implies b.live(
            id,
        ) by {
            assert(a.live(id));
        }
    }
    if a.agrees() {
        assert forall|x: u64, y: u64, i: int, j: int|
            #![trigger b.rows(x)[i], b.rows(y)[j]]
            b.live(x) && b.live(y) && 0 <= i < b.rows(x).len() && 0 <= j < b.rows(y).len()
                && b.rows(x)[i].key == b.rows(y)[j].key && b.rows(x)[i].version.begin_ts
                == b.rows(y)[j].version.begin_ts implies b.rows(x)[i].version.value == b.rows(
            y,
        )[j].version.value by {
            assert(a.live(x) && a.live(y));
            assert(a.rows(x)[i].version.value == a.rows(y)[j].version.value);
        }
    }
}

proof fn lemma_newest_moves(
    a: TablesModel,
    b: TablesModel,
    key: Seq<u8>,
    ts: u64,
    v: Option<VersionModel>,
)
    requires
        same_files(a, b),
        forall|id: u64| #[trigger] a.live(id) ==> b.live(id),
        forall|id: u64| #[trigger] b.live(id) ==> a.live(id),
        a.newest(key, ts, v),
    ensures
        b.newest(key, ts, v),
{
    if v is Some {
        let id = choose|id: u64| #[trigger]
            a.live(id) && lookup_visible(a.rows(id), key, ts) == v;
        assert(b.live(id) && lookup_visible(b.rows(id), key, ts) == v);
    }
}

/// Snapshots after every row of the files show the same of them.
proof fn lemma_latest_is_one(
    m: TablesModel,
    key: Seq<u8>,
    s: u64,
    t: u64,
    a: Option<VersionModel>,
    b: Option<VersionModel>,
)
    requires
        m.well_kept(),
        m.agrees(),
        s < OPEN_ENDED_TS,
        t < OPEN_ENDED_TS,
        files_before(m, (s + 1) as u64),
        files_before(m, (t + 1) as u64),
        m.newest(key, s, a),
        m.newest(key, t, b),
    ensures
        value_of(a) == value_of(b),
{
    law_newest_is_latest(m, key, s, a);
    law_newest_is_latest(m, key, t, b);
    if a is Some {
        let f = choose|f: u64| #[trigger]
            m.live(f) && latest_in(m.rows(f), key, s, a->0);
        let i = choose|i: int|
            0 <= i < m.rows(f).len() && (#[trigger] m.rows(f)[i]).key == key && m.rows(
                f,
            )[i].version == a->0;
        assert(m.rows(f)[i].version.begin_ts <= t);
        assert(b is Some);
    }
    if b is Some {
        let g = choose|g: u64| #[trigger]
            m.live(g) && latest_in(m.rows(g), key, t, b->0);
        let j = choose|j: int|
            0 <= j < m.rows(g).len() && (#[trigger] m.rows(g)[j]).key == key && m.rows(
                g,
            )[j].version == b->0;
        assert(m.rows(g)[j].version.begin_ts <= s);
        assert(a is Some);
        let f = choose|f: u64| #[trigger]
            m.live(f) && latest_in(m.rows(f), key, s, a->0);
        let i = choose|i: int|
            0 <= i < m.rows(f).len() && (#[trigger] m.rows(f)[i]).key == key && m.rows(
                f,
            )[i].version == a->0;
        assert(m.rows(f)[i].version.begin_ts <= t);
        assert(m.rows(f)[i].version.value == m.rows(g)[j].version.value);
    }
}

// ── Reopening ─────────────────────────────────────────────────────────────

/// The manifest, the log and the files of `m` are those that `after` was
/// opened from, and every file could be read.
pub open spec fn is_reopened(m: EngineModel, after: EngineModel, manifest: Seq<u8>) -> bool {
    &&& log_holds(manifest, m.tables.version)
    &&& is_opened(after, m.tables.dir, m.write.log, manifest)
    &&& after.tables.stored == m.tables.stored
    &&& after.write.metrics.sst_read_failures == 0
    &&& after.write.commit_seq < u64::MAX
}

/// What was replayed, and from where on.
proof fn lemma_reopened(
    m: EngineModel,
    cs: Seq<(u64, Seq<MutationModel>)>,
    after: EngineModel,
    manifest: Seq<u8>,
) -> (base: u64)
    requires
        is_current(m, cs),
        is_reopened(m, after, manifest),
    ensures
        same_files(m.tables, after.tables),
        base > 0,
        base + cs.len() == after.write.commit_seq,
        after.write.chains == apply_groups(Map::empty(), commit_groups(cs), base),
        after.write.log == m.write.log,
        files_before(after.tables, base),
{
    law_reopen_restores(manifest, m.tables.version);
    law_round_trip(log_of(cs));
    lemma_log_is_kept(cs);
    law_replay_restores_commits(cs);
    let log = m.write.log;
    assert(parse_log(log, 0).records == log_of(cs));
    assert(log.take(parse_log(log, 0).valid) =~= log);
    let max_commit = choose|max_commit: u64| #[trigger]
        tallied(after.tables, max_commit, after.write.metrics.sst_read_failures) && {
            &&& after.write.chains == apply_groups(
                Map::empty(),
                groups_of(log_of(cs)),
                id_after(max_commit),
            )
            &&& after.write.commit_seq == ts_after(
                id_after(max_commit),
                groups_of(log_of(cs)).len(),
            )
        };
    lemma_tally_bounds(after.tables, max_commit);
    let base = id_after(max_commit);
    lemma_ts_after(base, cs.len());
    assert(commit_groups(cs).len() == cs.len());
    base
}

/// Reopening an engine from what it has on disk gives a healthy engine again.
pub proof fn law_reopen_is_healthy(
    m: EngineModel,
    cs: Seq<(u64, Seq<MutationModel>)>,
    after: EngineModel,
    manifest: Seq<u8>,
)
    requires
        m.tables.well_kept(),
        m.tables.agrees(),
        is_current(m, cs),
        is_reopened(m, after, manifest),
    ensures
        healthy(after),
{
    let base = lemma_reopened(m, cs, after, manifest);
    lemma_replayed(cs, base);
    lemma_same_files(m.tables, after.tables, Seq::empty(), 0);
    let chains = after.write.chains;
    assert forall|k: Seq<u8>, i: int, id: u64, j: int|
        #![trigger chains[k][i], after.tables.live(id), after.tables.rows(id)[j]]
        chains.contains_key(k) && 0 <= i < chains[k].len() && after.tables.live(id) && 0 <= j
            < after.tables.rows(id).len() && after.tables.rows(id)[j].key == k
        implies after.tables.rows(id)[j].version.begin_ts < chains[k][i].begin_ts by {
        assert(chains[k][i].begin_ts >= base);
    }
}

/// Reopening an engine keeps its log current: the commits in it are the newest
/// of what they wrote, and can be replayed again.
pub proof fn law_reopen_is_current(
    m: EngineModel,
    cs: Seq<(u64, Seq<MutationModel>)>,
    after: EngineModel,
    manifest: Seq<u8>,
)
    requires
        is_current(m, cs),
        is_reopened(m, after, manifest),
    ensures
        is_current(after, cs),
{
    let base = lemma_reopened(m, cs, after, manifest);
    lemma_replayed(cs, base);
    assert forall|key: Seq<u8>, ts: u64|
        !after.tables.is_dropped(key) && snapshot_of(after.write) <= ts
            < OPEN_ENDED_TS implies #[trigger] reads_as(after, cs, key, ts) by {
        let seen = chains_read(after.write.chains, key, ts);
        assert(seen == chains_read(
            apply_groups(Map::empty(), commit_groups(cs), base),
            key,
            ts,
        ));
    }
}

/// Nothing that was committed is lost: every key reads at the latest commit of
/// the reopened engine as it read at the latest commit before.
pub proof fn law_reopen_keeps_reads(
    m: EngineModel,
    cs: Seq<(u64, Seq<MutationModel>)>,
    after: EngineModel,
    manifest: Seq<u8>,
    key: Seq<u8>,
    v: Option<Seq<u8>>,
    w: Option<Seq<u8>>,
)
    requires
        healthy(m),
        is_current(m, cs),
        is_reopened(m, after, manifest),
        m.tables.reads(m.write.chains, key, snapshot_of(m.write), v),
        after.tables.reads(after.write.chains, key, snapshot_of(after.write), w),
    ensures
        v == w,
{
    let base = lemma_reopened(m, cs, after, manifest);
    let s = snapshot_of(m.write);
    let t = snapshot_of(after.write);
    assert(m.tables.is_dropped(key) <==> after.tables.is_dropped(key));
    if !m.tables.is_dropped(key) {
        assert(reads_as(m, cs, key, s));
        law_reopen_is_current(m, cs, after, manifest);
        assert(reads_as(after, cs, key, t));
        if last_commit(cs, key) is None {
            let a = choose|a: Option<VersionModel>| #[trigger]
                m.tables.newest(key, s, a) && v == value_of(a);
            let b = choose|b: Option<VersionModel>| #[trigger]
                after.tables.newest(key, t, b) && w == value_of(b);
            lemma_same_files(m.tables, after.tables, key, t);
            assert(m.tables.newest(key, t, b));
            assert forall|id: u64, j: int|
                #![trigger m.tables.live(id), m.tables.rows(id)[j]]
                m.tables.live(id) && 0 <= j < m.tables.rows(id).len() implies m.tables.rows(
                id,
            )[j].version.begin_ts < t + 1 by {
                assert(after.tables.live(id));
                assert(after.tables.rows(id)[j].version.begin_ts < base);
            }
            lemma_latest_is_one(m.tables, key, s, t, a, b);
        }
    }
}

// ── What keeps the log current ────────────────────────────────────────────

/// A commit keeps the log current.
pub proof fn law_commit_keeps_current(
    m: EngineModel,
    cs: Seq<(u64, Seq<MutationModel>)>,
    tx_id: u64,
    ms: Seq<MutationModel>,
)
    requires
        healthy(m),
        m.write.commit_seq < u64::MAX,
        is_current(m, cs),
        are_readable(cs.push((tx_id, ms))),
    ensures
        is_current(with_commit(m, tx_id, ms), cs.push((tx_id, ms))),
{
    let after = with_commit(m, tx_id, ms);
    let next = cs.push((tx_id, ms));
    assert(next.drop_last() =~= cs);
    lemma_log_push(cs, tx_id, ms);
    assert(after.write.log =~= frames(log_of(next)));
    assert forall|key: Seq<u8>, ts: u64|
        !after.tables.is_dropped(key) && snapshot_of(after.write) <= ts
            < OPEN_ENDED_TS implies #[trigger] reads_as(after, next, key, ts) by {
        law_commit_is_read_back(m.write, tx_id, ms, key, ts);
        assert(reads_as(m, cs, key, ts));
        assert forall|v: Option<Seq<u8>>| #[trigger]
            after.tables.reads(after.write.chains, key, ts, v)
                && last_write(mutation_records(tx_id, ms), key) is None implies m.tables.reads(
            m.write.chains,
            key,
            ts,
            v,
        ) by {}
    }
}

/// A flush that leaves the log keeps it current.
pub proof fn law_flush_keeps_current(
    m: EngineModel,
    cs: Seq<(u64, Seq<MutationModel>)>,
    after: EngineModel,
    meta: MetaModel,
)
    requires
        healthy(m),
        lists_keys(
            sorted_keys(m.write.chains.dom()),
            m.write.chains.dom(),
        ),
        m.tables.version.next_file_id < u64::MAX,
        is_current(m, cs),
        is_flushed(m.tables, after.tables, table_rows(m.write.chains), meta),
        after.write.chains == Map::<Seq<u8>, Seq<VersionModel>>::empty(),
        after.write.commit_seq == m.write.commit_seq,
        after.write.log == m.write.log,
    ensures
        is_current(after, cs),
{
    assert forall|key: Seq<u8>, ts: u64|
        !after.tables.is_dropped(key) && snapshot_of(after.write) <= ts
            < OPEN_ENDED_TS implies #[trigger] reads_as(after, cs, key, ts) by {
        lemma_flush_version(
            m.tables.version,
            m.tables.version.next_file_id,
            meta,
        );
        assert(!m.tables.is_dropped(key));
        assert(reads_as(m, cs, key, ts));
        assert forall|w: Option<Seq<u8>>| #[trigger]
            after.tables.reads(after.write.chains, key, ts, w) implies m.tables.reads(
            m.write.chains,
            key,
            ts,
            w,
        ) by {
            let v = law_reads_exist(m.tables, m.write.chains, key, ts);
            law_flush_keeps_reads(
                m.tables,
                after.tables,
                m.write.chains,
                meta,
                key,
                ts,
                v,
                w,
            );
        }
    }
}

/// A flush that empties the log leaves it current: everything is in files.
pub proof fn law_emptied_log_is_current(after: EngineModel)
    requires
        after.write.chains == Map::<Seq<u8>, Seq<VersionModel>>::empty(),
        after.write.log.len() == 0,
    ensures
        is_current(after, Seq::empty()),
{
    let none: Seq<(u64, Seq<MutationModel>)> = Seq::empty();
    assert(frames(log_of(none)) =~= Seq::<u8>::empty());
    assert(after.write.log =~= frames(log_of(none)));
    assert forall|key: Seq<u8>, ts: u64| #[trigger] reads_as(after, none, key, ts) by {
        assert(last_commit(none, key) is None);
    }
}

/// A compaction below the latest commit keeps the log current.
pub proof fn law_compaction_keeps_current(
    m: EngineModel,
    cs: Seq<(u64, Seq<MutationModel>)>,
    after: EngineModel,
    chunks: Seq<(Seq<u64>, u64)>,
    watermark: u64,
)
    requires
        healthy(m),
        is_current(m, cs),
        is_compacted(m.tables, after.tables, chunks, watermark),
        after.tables.well_kept(),
        after.write.chains == m.write.chains,
        after.write.commit_seq == m.write.commit_seq,
        after.write.log == m.write.log,
        watermark <= snapshot_of(m.write),
    ensures
        is_current(after, cs),
{
    assert forall|key: Seq<u8>, ts: u64|
        !after.tables.is_dropped(key) && snapshot_of(after.write) <= ts
            < OPEN_ENDED_TS implies #[trigger] reads_as(after, cs, key, ts) by {
        assert(!m.tables.is_dropped(key));
        assert(reads_as(m, cs, key, ts));
        assert forall|w: Option<Seq<u8>>| #[trigger]
            after.tables.reads(after.write.chains, key, ts, w) implies m.tables.reads(
            m.write.chains,
            key,
            ts,
            w,
        ) by {
            let v = law_reads_exist(m.tables, m.write.chains, key, ts);
            law_compaction_keeps_reads(
                m.tables,
                after.tables,
                chunks,
                watermark,
                m.write.chains,
                key,
                ts,
                v,
                w,
            );
        }
    }
}

} // verus!
