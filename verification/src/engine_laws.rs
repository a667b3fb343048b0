//! What holds of an engine across its operations.

use crate::batches::{is_empty_batch, project, selected};
use crate::buf::{has_prefix, lists_keys, sorted_keys};
use crate::chain_store::{chain_of, chains_install, chains_read, Chains};
use crate::column_predicate::PredicateModel;
use crate::committer::{
    committed, in_step, law_commit_is_read_back, law_commit_keeps_step, snapshot_of, WriteModel,
};
use crate::engine::{drained, with_mark, EngineModel};
use crate::key_index::{lookup_visible, untagged};
use crate::keys::{key_prefix, law_key_names_its_table, table_prefix_of, zero_free};
use crate::memtable::{
    apply_records, chains_contiguous, chains_gc, last_write, law_table_gc, table_rows,
    written_value,
};
use crate::mutation::MutationModel;
use crate::pins::is_watermark;
use crate::pressure::{level_of, PressureConfig, ThrottleLevel};
use crate::schema::{ColumnBatch, FieldModel};
use crate::table_scan::{is_partitioned, is_table_scan, law_drop_hides_scans};
use crate::tables_laws::{
    is_compacted, is_flushed, law_compaction_keeps_agreement, law_flush_keeps_files,
    lemma_flush_live, lemma_stems_from, lemma_table_rows, memtable_is_newer,
};
use crate::tables_model::{law_table_rows_settled, value_of, TablesModel};
use crate::version::{
    count_after, law_gc_drops_the_oldest, open_version, VersionModel, OPEN_ENDED_TS,
};
use crate::version_set::{EditModel, MetaModel, VersionSetModel};
use crate::wal::{mutation_records, OpType, RecordModel};
use vstd::prelude::*;
use vstd::utf8::encode_utf8;

verus! {

/// Every row in a file begins before `ts`.
pub open spec fn files_before(m: TablesModel, ts: u64) -> bool {
    forall|id: u64, j: int|
        #![trigger m.live(id), m.rows(id)[j]]
        m.live(id) && 0 <= j < m.rows(id).len() ==> m.rows(id)[j].version.begin_ts < ts
}

/// The parts of an engine are in step: its commits ascend, its files are kept
/// and agree, and its memtable is newer than its files.
pub open spec fn healthy(m: EngineModel) -> bool {
    &&& in_step(m.write)
    &&& m.tables.well_kept()
    &&& m.tables.agrees()
    &&& memtable_is_newer(m.tables, m.write.chains)
    &&& files_before(m.tables, m.write.commit_seq)
}

/// An engine after a commit.
pub open spec fn with_commit(m: EngineModel, tx_id: u64, ms: Seq<MutationModel>) -> EngineModel {
    EngineModel { write: committed(m.write, tx_id, ms), ..m }
}

// ── What a snapshot shows ─────────────────────────────────────────────────

proof fn lemma_best_below(m: TablesModel, key: Seq<u8>, ts: u64, n: nat) -> (v: Option<VersionModel>)
    ensures
        match v {
            None => forall|id: u64| #[trigger]
                m.live(id) && id < n ==> lookup_visible(m.rows(id), key, ts) is None,
            Some(v) => {
                &&& exists|id: u64| #[trigger]
                    m.live(id) && lookup_visible(m.rows(id), key, ts) == Some(v)
                &&& forall|id: u64| #[trigger]
                    m.live(id) && id < n ==> (lookup_visible(m.rows(id), key, ts) matches Some(w)
                        ==> w.begin_ts <= v.begin_ts)
            },
        },
    decreases n,
{
    if n == 0 {
        None
    } else {
        let best = lemma_best_below(m, key, ts, (n - 1) as nat);
        if n - 1 <= u64::MAX && m.live((n - 1) as u64) {
            let id = (n - 1) as u64;
            match lookup_visible(m.rows(id), key, ts) {
                Some(w) => if best is Some && best->0.begin_ts >= w.begin_ts {
                    best
                } else {
                    assert(m.live(id) && lookup_visible(m.rows(id), key, ts) == Some(w));
                    Some(w)
                },
                None => best,
            }
        } else {
            best
        }
    }
}

/// Every key reads as something at every snapshot.
pub proof fn law_reads_exist(m: TablesModel, chains: Chains, key: Seq<u8>, ts: u64) -> (v: Option<
    Seq<u8>,
>)
    ensures
        m.reads(chains, key, ts, v),
{
    if m.is_dropped(key) {
        None
    } else {
        match chains_read(chains, key, ts) {
            Some(w) => w.value,
            None => {
                let best = lemma_best_below(m, key, ts, 0x1_0000_0000_0000_0000);
                assert(m.newest(key, ts, best));
                value_of(best)
            },
        }
    }
}

// ── Commits ───────────────────────────────────────────────────────────────

proof fn lemma_apply_is_newer(m: TablesModel, chains: Chains, rs: Seq<RecordModel>, ts: u64)
    requires
        memtable_is_newer(m, chains),
        files_before(m, ts),
    ensures
        memtable_is_newer(m, apply_records(chains, rs, ts)),
    decreases rs.len(),
{
    if rs.len() > 0 {
        let r = rs.last();
        let mid = apply_records(chains, rs.drop_last(), ts);
        lemma_apply_is_newer(m, chains, rs.drop_last(), ts);
        if r.op == OpType::Put || r.op == OpType::Delete {
            let v = open_version(
                if r.op == OpType::Put {
                    r.value
                } else {
                    None
                },
                ts,
                r.tx_id,
            );
            let c = chain_of(mid, r.key);
            let after = apply_records(chains, rs, ts);
            assert(after == chains_install(mid, r.key, v));
            let p = count_after(c, ts) as int;
            assert forall|k: Seq<u8>, i: int, id: u64, j: int|
                #![trigger after[k][i], m.live(id), m.rows(id)[j]]
                after.contains_key(k) && 0 <= i < after[k].len() && m.live(id) && 0 <= j < m.rows(
                    id,
                ).len() && m.rows(id)[j].key == k implies m.rows(id)[j].version.begin_ts
                < after[k][i].begin_ts by {
                if k == r.key {
                    lemma_count_after_bound(c, ts);
                    if p < c.len() && c[p].begin_ts == ts {
                        if i != p {
                            assert(after[k][i] == mid[k][i]);
                        }
                    } else if i < p {
                        assert(after[k][i].begin_ts == mid[k][i].begin_ts);
                    } else if i > p {
                        assert(after[k][i].begin_ts == mid[k][i - 1].begin_ts);
                    }
                } else {
                    assert(after[k][i] == mid[k][i]);
                }
            }
        }
    }
}

/// No more versions begin after a time than there are.
pub proof fn lemma_count_after_bound(s: Seq<VersionModel>, ts: u64)
    ensures
        count_after(s, ts) <= s.len(),
    decreases s.len(),
{
    if s.len() > 0 && s[0].begin_ts > ts {
        lemma_count_after_bound(s.drop_first(), ts);
    }
}

/// Files in order stay so beside a write path that is in step and newer.
proof fn lemma_healthy_with(m: EngineModel, w: WriteModel)
    requires
        m.tables.well_kept(),
        m.tables.agrees(),
        in_step(w),
        memtable_is_newer(m.tables, w.chains),
        files_before(m.tables, w.commit_seq),
    ensures
        healthy(EngineModel { write: w, ..m }),
{
}

/// A commit keeps an engine healthy.
pub proof fn law_commit_keeps_health(m: EngineModel, tx_id: u64, ms: Seq<MutationModel>)
    requires
        healthy(m),
        m.write.commit_seq < u64::MAX,
    ensures
        healthy(with_commit(m, tx_id, ms)),
{
    let w = committed(m.write, tx_id, ms);
    assert(in_step(w)) by {
        law_commit_keeps_step(m.write, tx_id, ms);
    }
    assert(memtable_is_newer(m.tables, w.chains)) by {
        lemma_apply_is_newer(
            m.tables,
            m.write.chains,
            mutation_records(tx_id, ms),
            m.write.commit_seq,
        );
    }
    assert(files_before(m.tables, w.commit_seq)) by {
        lemma_files_before(m.tables, m.write.commit_seq, w.commit_seq);
    }
    lemma_healthy_with(m, w);
}

proof fn lemma_files_before(m: TablesModel, ts: u64, later: u64)
    requires
        files_before(m, ts),
        ts <= later,
    ensures
        files_before(m, later),
{
}

/// What a commit wrote is what every later reader gets, whatever memtable and
/// files held before, unless the table is dropped.
pub proof fn law_write_is_read_back(
    m: EngineModel,
    tx_id: u64,
    ms: Seq<MutationModel>,
    key: Seq<u8>,
    ts: u64,
    v: Option<Seq<u8>>,
)
    requires
        in_step(m.write),
        m.write.commit_seq <= ts < OPEN_ENDED_TS,
        !m.tables.is_dropped(key),
        last_write(mutation_records(tx_id, ms), key) is Some,
        m.tables.reads(with_commit(m, tx_id, ms).write.chains, key, ts, v),
    ensures
        v == written_value(last_write(mutation_records(tx_id, ms), key)->0),
{
    law_commit_is_read_back(m.write, tx_id, ms, key, ts);
}

/// A commit changes nothing of what a snapshot before it shows, nor of keys
/// that it does not write.
pub proof fn law_write_keeps_other_reads(
    m: EngineModel,
    tx_id: u64,
    ms: Seq<MutationModel>,
    key: Seq<u8>,
    ts: u64,
    v: Option<Seq<u8>>,
)
    requires
        in_step(m.write),
        m.write.commit_seq < u64::MAX,
        ts < OPEN_ENDED_TS,
        ts < m.write.commit_seq || last_write(mutation_records(tx_id, ms), key) is None,
    ensures
        m.tables.reads(with_commit(m, tx_id, ms).write.chains, key, ts, v) <==> m.tables.reads(
            m.write.chains,
            key,
            ts,
            v,
        ),
{
    law_commit_is_read_back(m.write, tx_id, ms, key, ts);
}

// ── Flushes ───────────────────────────────────────────────────────────────

/// A flush keeps an engine healthy. The memtable is empty after it.
pub proof fn law_flush_keeps_health(
    m: EngineModel,
    after: EngineModel,
    meta: MetaModel,
)
    requires
        healthy(m),
        lists_keys(sorted_keys(m.write.chains.dom()), m.write.chains.dom()),
        m.tables.version.next_file_id < u64::MAX,
        is_flushed(m.tables, after.tables, table_rows(m.write.chains), meta),
        after.write.chains == Map::<Seq<u8>, Seq<VersionModel>>::empty(),
        after.write.commit_seq == m.write.commit_seq,
    ensures
        healthy(after),
{
    let chains = m.write.chains;
    let rs = table_rows(chains);
    let id = m.tables.version.next_file_id;
    law_table_rows_settled(chains);
    law_flush_keeps_files(m.tables, after.tables, rs, meta);
    lemma_flush_live(m.tables, after.tables, rs, meta);
    lemma_table_rows(chains);
    let new = after.tables.rows(id);
    assert forall|j: int| 0 <= j < new.len() implies {
        &&& (#[trigger] new[j]).key == rs[j].key
        &&& new[j].version.begin_ts == rs[j].version.begin_ts
        &&& new[j].version.value == rs[j].version.value
    } by {
        assert(new[j] == untagged(rs[j]));
    }
    assert forall|k: u64, j: int|
        #![trigger after.tables.live(k), after.tables.rows(k)[j]]
        after.tables.live(k) && 0 <= j < after.tables.rows(k).len() implies after.tables.rows(
        k,
    )[j].version.begin_ts < m.write.commit_seq by {
        if k == id {
            let r = rs[j];
            assert(chains[r.key].contains(r.version));
            let i = choose|i: int| 0 <= i < chains[r.key].len() && chains[r.key][i] == r.version;
            assert(chains[r.key][i].begin_ts <= m.write.commit_seq - 1);
        } else {
            assert(m.tables.live(k));
            assert(m.tables.rows(k)[j].version.begin_ts < m.write.commit_seq);
        }
    }
    assert forall|a: u64, b: u64, i: int, j: int|
        #![trigger after.tables.rows(a)[i], after.tables.rows(b)[j]]
        after.tables.live(a) && after.tables.live(b) && 0 <= i < after.tables.rows(a).len() && 0
            <= j < after.tables.rows(b).len() && after.tables.rows(a)[i].key
            == after.tables.rows(b)[j].key && after.tables.rows(a)[i].version.begin_ts
            == after.tables.rows(b)[j].version.begin_ts implies after.tables.rows(
        a,
    )[i].version.value == after.tables.rows(b)[j].version.value by {
        if a == id && b == id {
            lemma_rows_differ(chains, i, j);
        } else if a == id {
            lemma_row_is_newer(m.tables, chains, i, b, j);
        } else if b == id {
            lemma_row_is_newer(m.tables, chains, j, a, i);
        } else {
            assert(m.tables.live(a) && m.tables.live(b));
            assert(m.tables.rows(a)[i].version.value == m.tables.rows(b)[j].version.value);
        }
    }
}

/// Two memtable rows of one key and one begin hold one value.
proof fn lemma_rows_differ(chains: Chains, i: int, j: int)
    requires
        chains_contiguous(chains),
        lists_keys(sorted_keys(chains.dom()), chains.dom()),
        0 <= i < table_rows(chains).len(),
        0 <= j < table_rows(chains).len(),
        table_rows(chains)[i].key == table_rows(chains)[j].key,
        table_rows(chains)[i].version.begin_ts == table_rows(chains)[j].version.begin_ts,
    ensures
        table_rows(chains)[i].version.value == table_rows(chains)[j].version.value,
{
    lemma_table_rows(chains);
    let a = table_rows(chains)[i];
    let b = table_rows(chains)[j];
    let c = chains[a.key];
    assert(c.contains(a.version) && c.contains(b.version));
    let x = choose|x: int| 0 <= x < c.len() && c[x] == a.version;
    let y = choose|y: int| 0 <= y < c.len() && c[y] == b.version;
    assert(chains.contains_key(a.key));
    if x < y {
        assert(c[x].begin_ts > c[y].begin_ts);
    }
    if y < x {
        assert(c[y].begin_ts > c[x].begin_ts);
    }
}

/// A memtable row begins after every row of its key in a file.
proof fn lemma_row_is_newer(m: TablesModel, chains: Chains, i: int, id: u64, j: int)
    requires
        memtable_is_newer(m, chains),
        lists_keys(sorted_keys(chains.dom()), chains.dom()),
        0 <= i < table_rows(chains).len(),
        m.live(id),
        0 <= j < m.rows(id).len(),
        m.rows(id)[j].key == table_rows(chains)[i].key,
    ensures
        m.rows(id)[j].version.begin_ts < table_rows(chains)[i].version.begin_ts,
{
    lemma_table_rows(chains);
    let a = table_rows(chains)[i];
    let c = chains[a.key];
    assert(c.contains(a.version));
    let x = choose|x: int| 0 <= x < c.len() && c[x] == a.version;
    assert(chains[a.key][x].begin_ts == a.version.begin_ts);
}

/// A writer that was turned away may write again once the memtable is flushed.
pub proof fn law_flush_ends_throttling(
    m: WriteModel,
    bytes: u64,
    log: Seq<u8>,
    tuning: PressureConfig,
)
    requires
        tuning.soft_memtable_ratio > 0,
        tuning.hard_memtable_ratio > 0,
    ensures
        level_of(tuning, drained(m, bytes, log).metrics.memtable_bytes) == ThrottleLevel::Off,
{
    let capacity: int = if tuning.memtable_flush_bytes == 0 {
        1
    } else {
        tuning.memtable_flush_bytes as int
    };
    assert(tuning.soft_memtable_ratio * capacity > 0) by (nonlinear_arith)
        requires
            tuning.soft_memtable_ratio > 0,
            capacity > 0,
    ;
    assert(tuning.hard_memtable_ratio * capacity > 0) by (nonlinear_arith)
        requires
            tuning.hard_memtable_ratio > 0,
            capacity > 0,
    ;
}

// ── Compactions ───────────────────────────────────────────────────────────

/// A compaction keeps an engine healthy.
pub proof fn law_compaction_keeps_health(
    m: EngineModel,
    after: EngineModel,
    chunks: Seq<(Seq<u64>, u64)>,
    watermark: u64,
)
    requires
        healthy(m),
        is_compacted(m.tables, after.tables, chunks, watermark),
        after.tables.well_kept(),
        after.write.chains == m.write.chains,
        after.write.commit_seq == m.write.commit_seq,
    ensures
        healthy(after),
{
    law_compaction_keeps_agreement(m.tables, after.tables, chunks, watermark);
    let chains = m.write.chains;
    assert forall|id: u64, j: int|
        #![trigger after.tables.live(id), after.tables.rows(id)[j]]
        after.tables.live(id) && 0 <= j < after.tables.rows(id).len() implies after.tables.rows(
        id,
    )[j].version.begin_ts < m.write.commit_seq by {
        lemma_stems_from(m.tables, after.tables, chunks, watermark, id, j);
    }
    assert forall|k: Seq<u8>, i: int, id: u64, j: int|
        #![trigger chains[k][i], after.tables.live(id), after.tables.rows(id)[j]]
        chains.contains_key(k) && 0 <= i < chains[k].len() && after.tables.live(id) && 0 <= j
            < after.tables.rows(id).len() && after.tables.rows(id)[j].key == k
        implies after.tables.rows(id)[j].version.begin_ts < chains[k][i].begin_ts by {
        lemma_stems_from(m.tables, after.tables, chunks, watermark, id, j);
    }
}

// ── Garbage and dropped tables ────────────────────────────────────────────

/// An engine after garbage was collected up to a watermark.
pub open spec fn with_gc(m: EngineModel, watermark: u64) -> EngineModel {
    EngineModel {
        write: WriteModel { chains: chains_gc(m.write.chains, watermark), ..m.write },
        ..m
    }
}

/// Collecting garbage up to the watermark keeps an engine healthy and changes
/// no read at a pinned snapshot or at the latest commit.
pub proof fn law_gc_is_invisible(
    m: EngineModel,
    watermark: u64,
    key: Seq<u8>,
    ts: u64,
    v: Option<Seq<u8>>,
)
    requires
        is_watermark(watermark, m.pins, snapshot_of(m.write)),
        m.pins.contains_key(ts) || ts >= snapshot_of(m.write),
    ensures
        healthy(m) ==> healthy(with_gc(m, watermark)),
        m.tables.reads(with_gc(m, watermark).write.chains, key, ts, v) <==> m.tables.reads(
            m.write.chains,
            key,
            ts,
            v,
        ),
{
    let chains = m.write.chains;
    let left = chains_gc(chains, watermark);
    law_table_gc(chains, watermark, key, ts);
    if healthy(m) {
        assert forall|k: Seq<u8>, i: int|
            left.contains_key(k) && 0 <= i < left[k].len() implies (#[trigger] left[k][i]).begin_ts
            <= m.write.commit_seq - 1 by {
            law_gc_drops_the_oldest(chains[k], watermark);
            assert(left[k][i] == chains[k][i]);
        }
        assert forall|k: Seq<u8>, i: int, id: u64, j: int|
            #![trigger left[k][i], m.tables.live(id), m.tables.rows(id)[j]]
            left.contains_key(k) && 0 <= i < left[k].len() && m.tables.live(id) && 0 <= j
                < m.tables.rows(id).len() && m.tables.rows(id)[j].key
                == k implies m.tables.rows(id)[j].version.begin_ts < left[k][i].begin_ts by {
            law_gc_drops_the_oldest(chains[k], watermark);
            assert(left[k][i] == chains[k][i]);
        }
    }
}

/// A key of a dropped table reads as nothing, and the mark hides no other
/// table.
pub proof fn law_drop_hides_table(
    m: TablesModel,
    chains: Chains,
    prefix: Seq<u8>,
    key: Seq<u8>,
    ts: u64,
    v: Option<Seq<u8>>,
)
    ensures
        key_prefix(key) == prefix && with_mark(m, prefix, true).reads(chains, key, ts, v)
            ==> v is None,
        key_prefix(key) != prefix ==> (with_mark(m, prefix, true).reads(chains, key, ts, v)
            <==> m.reads(chains, key, ts, v)),
{
    lemma_mark_keeps_files(m, prefix, true, key, ts);
}

/// A dropped table stays hidden until its mark is cleared: after whatever edits
/// of the manifest but that one, as flushes, compactions and drops of other
/// tables record them, and whatever was written meanwhile, its keys read as
/// nothing and scans of it return one batch without rows.
pub proof fn law_drop_lasts(
    dropped: TablesModel,
    es: Seq<EditModel>,
    later: TablesModel,
    chains: Chains,
    table: Seq<char>,
    ts: u64,
    key: Seq<u8>,
    v: Option<Seq<u8>>,
    fields: Seq<FieldModel>,
    projection: Option<Seq<usize>>,
    bs: Seq<ColumnBatch>,
    preds: Option<Seq<PredicateModel>>,
    batch_size: usize,
    parts: Seq<Vec<ColumnBatch>>,
)
    requires
        zero_free(encode_utf8(table)),
        dropped.version.dropped.contains(table_prefix_of(table)),
        forall|i: int|
            0 <= i < es.len() ==> #[trigger] es[i] != EditModel::UndroppedPrefix(
                table_prefix_of(table),
            ),
        later.version == dropped.version.replay(es),
        has_prefix(key, table_prefix_of(table)),
    ensures
        later.reads(chains, key, ts, v) ==> v is None,
        ({
            let shown = project(fields, selected(projection, fields.len()));
            &&& is_table_scan(bs, later, chains, table, fields, projection, ts) ==> bs.len() == 1
                && is_empty_batch(bs[0], shown)
            &&& is_partitioned(
                parts,
                later,
                chains,
                table,
                fields,
                projection,
                preds,
                ts,
                batch_size,
            ) ==> parts.len() == 1 && parts[0]@.len() == 1 && is_empty_batch(parts[0]@[0], shown)
        }),
{
    let prefix = table_prefix_of(table);
    lemma_mark_stays(dropped.version, es, prefix);
    let rest = key.skip(prefix.len() as int);
    assert(key =~= prefix + rest);
    law_key_names_its_table(table, rest);
    law_drop_hides_scans(
        later,
        chains,
        table,
        fields,
        projection,
        preds,
        ts,
        batch_size,
        bs,
        parts,
    );
}

proof fn lemma_mark_stays(v: VersionSetModel, es: Seq<EditModel>, prefix: Seq<u8>)
    requires
        v.dropped.contains(prefix),
        forall|i: int|
            0 <= i < es.len() ==> #[trigger] es[i] != EditModel::UndroppedPrefix(prefix),
    ensures
        v.replay(es).dropped.contains(prefix),
    decreases es.len(),
{
    if es.len() > 0 {
        let init = es.drop_last();
        assert forall|i: int| 0 <= i < init.len() implies #[trigger] init[i]
            != EditModel::UndroppedPrefix(prefix) by {
            assert(init[i] == es[i]);
        }
        lemma_mark_stays(v, init, prefix);
        assert(es[es.len() - 1] == es.last());
    }
}

/// Dropping a table and clearing the mark again leaves what the files show as
/// it was.
pub proof fn law_undrop_shows_table(
    m: TablesModel,
    chains: Chains,
    prefix: Seq<u8>,
    key: Seq<u8>,
    ts: u64,
    v: Option<Seq<u8>>,
)
    requires
        !m.version.dropped.contains(prefix),
    ensures
        with_mark(with_mark(m, prefix, true), prefix, false).reads(chains, key, ts, v)
            <==> m.reads(chains, key, ts, v),
{
    let there = with_mark(m, prefix, true);
    lemma_mark_keeps_files(m, prefix, true, key, ts);
    lemma_mark_keeps_files(there, prefix, false, key, ts);
}

proof fn lemma_mark_keeps_files(
    m: TablesModel,
    prefix: Seq<u8>,
    dropped: bool,
    key: Seq<u8>,
    ts: u64,
)
    ensures
        forall|v: Option<VersionModel>|
            #![trigger with_mark(m, prefix, dropped).newest(key, ts, v)]
            #![trigger m.newest(key, ts, v)]
            with_mark(m, prefix, dropped).newest(key, ts, v) <==> m.newest(key, ts, v),
{
    let n = with_mark(m, prefix, dropped);
    assert forall|id: u64| #[trigger] n.live(id) <==> m.live(id) by {
        if m.live(id) {
            let l = choose|l: u32| #[trigger] m.version.holds(l, id);
            assert(n.version.holds(l, id));
        }
        if n.live(id) {
            let l = choose|l: u32| #[trigger] n.version.holds(l, id);
            assert(m.version.holds(l, id));
        }
    }
    assert forall|id: u64| #[trigger] n.rows(id) == m.rows(id) by {}
    assert forall|v: Option<VersionModel>|
        #![trigger n.newest(key, ts, v)]
        #![trigger m.newest(key, ts, v)]
        n.newest(key, ts, v) <==> m.newest(key, ts, v) by {
        if n.newest(key, ts, v) {
            if v is Some {
                let id = choose|id: u64| #[trigger]
                    n.live(id) && lookup_visible(n.rows(id), key, ts) == v;
                assert(m.live(id) && lookup_visible(m.rows(id), key, ts) == v);
            }
            assert forall|id: u64| #[trigger] m.live(id) implies n.live(id) by {}
            assert(m.newest(key, ts, v));
        }
        if m.newest(key, ts, v) {
            if v is Some {
                let id = choose|id: u64| #[trigger]
                    m.live(id) && lookup_visible(m.rows(id), key, ts) == v;
                assert(n.live(id) && lookup_visible(n.rows(id), key, ts) == v);
            }
            assert forall|id: u64| #[trigger] n.live(id) implies m.live(id) by {}
            assert(n.newest(key, ts, v));
        }
    }
}

} // verus!
