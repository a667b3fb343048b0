//! What a crash in the middle of a commit, a flush or a compaction leaves
//! behind.
//!
//! The edits of a compaction reach the manifest in one append. A crash may
//! leave any front part of them; the table files are written before, and the
//! inputs are removed only after.

use crate::chain_store::{chains_read, Chains};
use crate::committer::{commit_done, snapshot_of, tx_fits, WriteModel};
use crate::compact_plan::{add_edits, compaction_edit_models, delete_edits, handle_meta, highest_id};
use crate::config::SyncMode;
use crate::durability::{
    are_readable, is_current, law_reopen_keeps_reads, lemma_log_is_kept, lemma_log_push,
};
use crate::engine::{is_opened, EngineModel};
use crate::engine_laws::healthy;
use crate::error::Result;
use crate::file_io::{file_bytes, may_sync, FileIO};
use crate::hook::EngineHook;
use crate::listing::lists;
use crate::manifest_laws::{lemma_replay_concat, log_holds};
use crate::memtable::RowModel;
use crate::merge::is_merged;
use crate::mutation::{mutation_models, Mutation, MutationModel};
use crate::recovery::{
    apply_groups, commit_groups, groups_of, highest_tx, law_replay_restores_commits,
    law_uncommitted_is_not_replayed, log_of, ts_after,
};
use crate::sst_format::SstHandle;
use crate::tables::tallied;
use crate::tables_laws::{
    chunks_cover, flush_edits, has_id, holds_merge, is_written, lemma_adds_version,
    lemma_deletes_version, lemma_edit_holds, lemma_merge_row_from, lemma_merge_row_has,
    lemma_output_kept, level_of_input, rows_all,
};
use crate::tables_model::{latest_in, law_newest_is_latest, none_in, value_of, TablesModel};
use crate::version::{VersionModel, OPEN_ENDED_TS};
use crate::version_set::{id_after, EditModel, MetaModel, VersionSetModel};
use crate::wal::{
    batch_bytes, commit_model, frames, is_extended, is_wal1, kept, mutation_records, parse_log,
    OpType,
};
use crate::wal_laws::{
    all_kept, law_round_trip, law_torn_tail, lemma_frames_prefix, lemma_whole_frames, whole_frames,
};
use vstd::prelude::*;

verus! {

/// How many outputs the first `k` edits add.
pub open spec fn added(k: int, n: int) -> int {
    if k <= n {
        k
    } else {
        n
    }
}

/// How many inputs the first `k` edits retire.
pub open spec fn retired(k: int, n: int) -> int {
    if k <= n + 1 {
        0
    } else {
        k - n - 1
    }
}

/// `mid` is what a crash has left of a compaction of `before`: every file is
/// there, and the manifest holds the first `k` edits.
pub open spec fn is_interrupted(
    before: TablesModel,
    mid: TablesModel,
    inputs: Seq<u64>,
    sl: u32,
    tl: u32,
    chunks: Seq<Seq<u64>>,
    outs: Seq<Seq<RowModel>>,
    hs: Seq<SstHandle>,
    stamps: Seq<u64>,
    watermark: u64,
    k: int,
) -> bool {
    let edits = compaction_edit_models(inputs, before.version.files(sl), sl, tl, hs, stamps);
    &&& lists(inputs, before.version.files(sl).union(before.version.files(tl)))
    &&& before.version.next_file_id + hs.len() < u64::MAX
    &&& is_written(before, mid, chunks, outs, hs, watermark)
    &&& chunks_cover(chunks, inputs)
    &&& mid.dir == before.dir
    &&& 0 <= k <= edits.len()
    &&& mid.version == before.version.replay(edits.take(k))
    &&& forall|id: u64|
        before.live(id) ==> mid.stored.contains_key(#[trigger] mid.path(id))
            && mid.stored[mid.path(id)] == before.stored[before.path(id)]
}

/// Which files the first `k` edits leave.
proof fn lemma_front_version(
    m: TablesModel,
    inputs: Seq<u64>,
    sl: u32,
    tl: u32,
    hs: Seq<SstHandle>,
    stamps: Seq<u64>,
    k: int,
)
    requires
        m.well_kept(),
        lists(inputs, m.version.files(sl).union(m.version.files(tl))),
        forall|i: int|
            0 <= i < hs.len() ==> m.version.next_file_id <= (#[trigger] hs[i]).file_id < u64::MAX,
        forall|i: int, j: int|
            0 <= i < j < hs.len() ==> (#[trigger] hs[i]).file_id != (#[trigger] hs[j]).file_id,
        0 <= k <= compaction_edit_models(inputs, m.version.files(sl), sl, tl, hs, stamps).len(),
    ensures
        ({
            let v = m.version;
            let a = added(k, hs.len() as int);
            let gone = inputs.take(retired(k, hs.len() as int));
            let w = v.replay(
                compaction_edit_models(inputs, v.files(sl), sl, tl, hs, stamps).take(k),
            );
            &&& forall|l: u32, x: u64| #[trigger]
                w.holds(l, x) <==> (v.holds(l, x) && !gone.contains(x)) || (l == tl && has_id(
                    hs,
                    a,
                    x,
                ))
            &&& forall|x: u64| #[trigger]
                w.meta.contains_key(x) <==> (v.meta.contains_key(x) && !gone.contains(x))
                    || has_id(hs, a, x)
            &&& forall|x: u64|
                v.meta.contains_key(x) && !gone.contains(x) ==> #[trigger] w.meta[x] == v.meta[x]
            &&& forall|i: int|
                0 <= i < a ==> w.meta[(#[trigger] hs[i]).file_id] == handle_meta(hs[i], stamps[i])
            &&& w.dropped == v.dropped
            &&& w.next_file_id >= v.next_file_id
            &&& forall|i: int| 0 <= i < a ==> w.next_file_id > (#[trigger] hs[i]).file_id
        }),
{
    let v = m.version;
    let n = hs.len() as int;
    let adds = add_edits(hs, stamps, tl);
    let next = seq![EditModel::NextFileId(id_after(highest_id(hs)))];
    let dels = delete_edits(inputs, v.files(sl), sl, tl);
    let all = compaction_edit_models(inputs, v.files(sl), sl, tl, hs, stamps);
    let a = added(k, n);
    let d = retired(k, n);
    let gone = inputs.take(d);
    let w = v.replay(all.take(k));
    assert(adds.len() == n);
    assert(dels.len() == inputs.len());
    lemma_adds_version(v, hs, stamps, tl, a);
    assert forall|x: u64| #[trigger] gone.contains(x) implies inputs.contains(x) by {
        let i = choose|i: int| 0 <= i < gone.len() && gone[i] == x;
        assert(inputs[i] == x);
    }
    assert forall|x: u64| inputs.contains(x) implies m.live(x) && !has_id(hs, n, x) && v.holds(
        level_of_input(v.files(sl), sl, tl, x),
        x,
    ) by {
        assert(v.files(sl).union(v.files(tl)).contains(x));
        assert(v.holds(level_of_input(v.files(sl), sl, tl, x), x));
        assert(m.live(x));
        assert(m.file_kept(x));
        if has_id(hs, n, x) {
            let i = choose|i: int| 0 <= i < n && (#[trigger] hs[i]).file_id == x;
            assert(hs[i].file_id >= v.next_file_id);
        }
    }
    assert forall|x: u64| v.meta.contains_key(x) implies !has_id(hs, a, x) by {
        assert(m.live(x));
        assert(m.file_kept(x));
        if has_id(hs, a, x) {
            let i = choose|i: int| 0 <= i < a && (#[trigger] hs[i]).file_id == x;
            assert(hs[i].file_id >= v.next_file_id);
        }
    }
    if k <= n {
        assert(all.take(k) =~= adds.take(a));
        assert(gone =~= Seq::<u64>::empty());
    } else {
        let b = v.replay(adds + next);
        let p = v.replay(adds);
        assert(adds.take(n) =~= adds);
        assert(all.take(k) =~= (adds + next) + dels.take(d));
        lemma_replay_concat(v, adds + next, dels.take(d));
        lemma_replay_concat(v, adds, next);
        assert(next.drop_last() =~= Seq::<EditModel>::empty());
        assert(p.replay(next.drop_last()) == p);
        assert(b == p.apply(next[0]));
        lemma_deletes_version(b, inputs, v.files(sl), sl, tl, d);
        assert(w == b.replay(dels.take(d)));
        assert forall|l: u32, x: u64| #[trigger] w.holds(l, x) <==> (v.holds(l, x)
            && !gone.contains(x)) || (l == tl && has_id(hs, a, x)) by {
            lemma_edit_holds(p, next[0], l, x);
            assert(p.holds(l, x) <==> v.holds(l, x) || (l == tl && has_id(hs, n, x)));
            let at = level_of_input(v.files(sl), sl, tl, x);
            assert(w.holds(l, x) <==> b.holds(l, x) && !(gone.contains(x) && l == at));
            if gone.contains(x) && v.holds(l, x) {
                assert(inputs.contains(x));
                assert(v.holds(at, x));
                assert(l == at);
            }
            if gone.contains(x) {
                assert(inputs.contains(x));
                assert(!has_id(hs, n, x));
            }
        }
        assert forall|x: u64| #[trigger] w.meta.contains_key(x) <==> (v.meta.contains_key(x)
            && !gone.contains(x)) || has_id(hs, a, x) by {
            assert(b.meta == p.meta);
            assert(p.meta.contains_key(x) <==> v.meta.contains_key(x) || has_id(hs, n, x));
            if gone.contains(x) {
                assert(inputs.contains(x));
                assert(!has_id(hs, n, x));
            }
        }
        assert forall|x: u64| v.meta.contains_key(x) && !gone.contains(x) implies
            #[trigger] w.meta[x] == v.meta[x] by {
            assert(p.meta[x] == v.meta[x]);
            assert(w.meta.contains_key(x));
        }
        assert forall|i: int| 0 <= i < a implies w.meta[(#[trigger] hs[i]).file_id] == handle_meta(
            hs[i],
            stamps[i],
        ) by {
            assert(has_id(hs, a, hs[i].file_id));
            assert(w.meta.contains_key(hs[i].file_id));
            assert(w.meta[hs[i].file_id] == b.meta[hs[i].file_id]);
        }
        assert forall|i: int| 0 <= i < a implies w.next_file_id > (#[trigger] hs[i]).file_id by {
            assert(p.next_file_id >= id_after(hs[i].file_id));
        }
    }
}

proof fn lemma_output_ids(
    before: TablesModel,
    mid: TablesModel,
    chunks: Seq<Seq<u64>>,
    outs: Seq<Seq<RowModel>>,
    hs: Seq<SstHandle>,
    watermark: u64,
)
    requires
        is_written(before, mid, chunks, outs, hs, watermark),
        before.version.next_file_id + hs.len() < u64::MAX,
    ensures
        forall|i: int|
            0 <= i < hs.len() ==> before.version.next_file_id <= (#[trigger] hs[i]).file_id
                < u64::MAX,
        forall|i: int, j: int|
            0 <= i < j < hs.len() ==> (#[trigger] hs[i]).file_id != (#[trigger] hs[j]).file_id,
{
    let base = before.version.next_file_id;
    assert forall|i: int| 0 <= i < hs.len() implies (#[trigger] hs[i]).file_id == base + i by {
        assert(is_merged(outs[i], rows_all(before, chunks[i]), watermark));
    }
}

/// Which files are live after a crash, and what they hold.
proof fn lemma_interrupted_files(
    before: TablesModel,
    mid: TablesModel,
    inputs: Seq<u64>,
    sl: u32,
    tl: u32,
    chunks: Seq<Seq<u64>>,
    outs: Seq<Seq<RowModel>>,
    hs: Seq<SstHandle>,
    stamps: Seq<u64>,
    watermark: u64,
    k: int,
)
    requires
        before.well_kept(),
        is_interrupted(
            before,
            mid,
            inputs,
            sl,
            tl,
            chunks,
            outs,
            hs,
            stamps,
            watermark,
            k,
        ),
    ensures
        ({
            let a = added(k, hs.len() as int);
            let gone = inputs.take(retired(k, hs.len() as int));
            &&& forall|x: u64| #[trigger]
                mid.live(x) <==> (before.live(x) && !gone.contains(x)) || has_id(hs, a, x)
            &&& forall|x: u64| before.live(x) ==> #[trigger] mid.rows(x) == before.rows(x)
            &&& mid.well_kept()
            &&& mid.version.dropped == before.version.dropped
        }),
{
    let n = hs.len() as int;
    let a = added(k, n);
    let gone = inputs.take(retired(k, n));
    let v = before.version;
    let w = mid.version;
    lemma_output_ids(before, mid, chunks, outs, hs, watermark);
    lemma_front_version(before, inputs, sl, tl, hs, stamps, k);
    assert forall|x: u64| #[trigger] mid.live(x) <==> (before.live(x) && !gone.contains(x))
        || has_id(hs, a, x) by {
        if mid.live(x) {
            let l = choose|l: u32| #[trigger] w.holds(l, x);
            if !(l == tl && has_id(hs, a, x)) {
                assert(v.holds(l, x));
            }
        }
        if has_id(hs, a, x) {
            assert(w.holds(tl, x));
        }
        if before.live(x) && !gone.contains(x) {
            let l = choose|l: u32| #[trigger] v.holds(l, x);
            assert(w.holds(l, x));
        }
    }
    assert forall|x: u64| before.live(x) implies #[trigger] mid.rows(x) == before.rows(x) by {
        assert(before.file_kept(x));
        assert(mid.stored.contains_key(mid.path(x)));
    }
    assert forall|x: u64| before.live(x) implies !has_id(hs, a, x) by {
        assert(before.file_kept(x));
        if has_id(hs, a, x) {
            let i = choose|i: int| 0 <= i < a && (#[trigger] hs[i]).file_id == x;
            assert(hs[i].file_id >= v.next_file_id);
        }
    }
    assert forall|x: u64| #[trigger] mid.live(x) implies mid.file_kept(x) by {
        if has_id(hs, a, x) {
            let c = choose|c: int| 0 <= c < a && (#[trigger] hs[c]).file_id == x;
            assert(w.meta.contains_key(x));
            lemma_output_kept(before, mid, chunks, outs, hs, stamps, watermark, c);
        } else {
            assert(before.file_kept(x));
            assert(mid.stored.contains_key(mid.path(x)));
            assert(mid.rows(x) == before.rows(x));
            assert(w.meta[x] == v.meta[x]);
            assert(w.meta.contains_key(x));
        }
    }
    assert forall|x: u64| #[trigger] w.meta.contains_key(x) implies mid.live(x) by {
        if !has_id(hs, a, x) {
            assert(v.meta.contains_key(x));
            assert(before.live(x));
        }
    }
    assert forall|p: u32, q: u32, x: u64| #[trigger] w.holds(p, x) && #[trigger] w.holds(
        q,
        x,
    ) implies p == q by {
        if has_id(hs, a, x) {
            if v.holds(p, x) || v.holds(q, x) {
                assert(before.live(x));
            }
        } else {
            assert(v.holds(p, x) && v.holds(q, x));
        }
    }
}

/// Every row of a live file before the crash is still shown by one that is at
/// least as new.
proof fn lemma_row_survives(
    before: TablesModel,
    mid: TablesModel,
    inputs: Seq<u64>,
    chunks: Seq<Seq<u64>>,
    outs: Seq<Seq<RowModel>>,
    hs: Seq<SstHandle>,
    watermark: u64,
    k: int,
    f: u64,
    i: int,
    ts: u64,
)
    requires
        is_written(before, mid, chunks, outs, hs, watermark),
        chunks_cover(chunks, inputs),
        forall|x: u64| #[trigger]
            mid.live(x) <==> (before.live(x) && !inputs.take(
                retired(k, hs.len() as int),
            ).contains(x)) || has_id(hs, added(k, hs.len() as int), x),
        forall|x: u64| before.live(x) ==> #[trigger] mid.rows(x) == before.rows(x),
        before.live(f),
        0 <= i < before.rows(f).len(),
        before.rows(f)[i].version.begin_ts <= ts,
        watermark <= ts < OPEN_ENDED_TS,
        retired(k, hs.len() as int) <= inputs.len(),
    ensures
        exists|g: u64, q: int|
            #![trigger mid.rows(g)[q]]
            mid.live(g) && 0 <= q < mid.rows(g).len() && mid.rows(g)[q].key == before.rows(
                f,
            )[i].key && mid.rows(g)[q].version.begin_ts <= ts && mid.rows(g)[q].version.begin_ts
                >= before.rows(f)[i].version.begin_ts,
{
    let gone = inputs.take(retired(k, hs.len() as int));
    if gone.contains(f) {
        let p = choose|p: int| 0 <= p < gone.len() && gone[p] == f;
        assert(inputs[p] == f);
        assert(inputs.contains(f));
        let c = choose|c: int| 0 <= c < chunks.len() && (#[trigger] chunks[c]).contains(f);
        let g = hs[c].file_id;
        assert(is_merged(outs[c], rows_all(before, chunks[c]), watermark));
        assert(has_id(hs, added(k, hs.len() as int), g));
        assert(mid.live(g));
        assert(holds_merge(mid.rows(g), before, chunks[c], watermark));
        lemma_merge_row_has(mid.rows(g), before, chunks[c], watermark, f, i, ts);
        let q = choose|q: int|
            0 <= q < mid.rows(g).len() && (#[trigger] mid.rows(g)[q]).key == before.rows(f)[i].key
                && mid.rows(g)[q].version.begin_ts <= ts && mid.rows(g)[q].version.begin_ts
                >= before.rows(f)[i].version.begin_ts;
        assert(mid.rows(g)[q].version.begin_ts <= ts);
    } else {
        assert(mid.live(f));
        assert(mid.rows(f)[i] == before.rows(f)[i]);
    }
}

/// Every row of a live file after the crash stems from one before it.
proof fn lemma_row_stems(
    before: TablesModel,
    mid: TablesModel,
    inputs: Seq<u64>,
    sl: u32,
    tl: u32,
    chunks: Seq<Seq<u64>>,
    outs: Seq<Seq<RowModel>>,
    hs: Seq<SstHandle>,
    watermark: u64,
    g: u64,
    q: int,
)
    requires
        is_written(before, mid, chunks, outs, hs, watermark),
        chunks_cover(chunks, inputs),
        lists(inputs, before.version.files(sl).union(before.version.files(tl))),
        forall|x: u64| before.live(x) ==> #[trigger] mid.rows(x) == before.rows(x),
        before.live(g) || has_id(hs, hs.len() as int, g),
        0 <= q < mid.rows(g).len(),
    ensures
        exists|f: u64, i: int|
            #![trigger before.rows(f)[i]]
            before.live(f) && 0 <= i < before.rows(f).len() && before.rows(f)[i].key == mid.rows(
                g,
            )[q].key && before.rows(f)[i].version.begin_ts == mid.rows(g)[q].version.begin_ts
                && before.rows(f)[i].version.value == mid.rows(g)[q].version.value,
{
    if before.live(g) {
        assert(before.rows(g)[q] == mid.rows(g)[q]);
    } else {
        let c = choose|c: int| 0 <= c < hs.len() && (#[trigger] hs[c]).file_id == g;
        assert(is_merged(outs[c], rows_all(before, chunks[c]), watermark));
        assert(holds_merge(mid.rows(g), before, chunks[c], watermark));
        lemma_merge_row_from(mid.rows(g), before, chunks[c], watermark, q);
        let (f, i) = choose|f: u64, i: int|
            #![trigger before.rows(f)[i]]
            chunks[c].contains(f) && 0 <= i < before.rows(f).len() && before.rows(f)[i].key
                == mid.rows(g)[q].key && before.rows(f)[i].version.begin_ts == mid.rows(
                g,
            )[q].version.begin_ts && before.rows(f)[i].version.value == mid.rows(
                g,
            )[q].version.value;
        assert(inputs.contains(f));
        let v = before.version;
        assert(v.files(sl).union(v.files(tl)).contains(f));
        assert(v.holds(level_of_input(v.files(sl), sl, tl, f), f));
        assert(before.live(f));
        assert(before.rows(f)[i].key == mid.rows(g)[q].key);
    }
}

/// A crash in the middle of a compaction loses nothing: whichever of its edits
/// the manifest holds, every file is kept, and every read at or after the
/// watermark returns what it returned before.
pub proof fn law_interrupted_compaction_keeps_reads(
    before: TablesModel,
    mid: TablesModel,
    inputs: Seq<u64>,
    sl: u32,
    tl: u32,
    chunks: Seq<Seq<u64>>,
    outs: Seq<Seq<RowModel>>,
    hs: Seq<SstHandle>,
    stamps: Seq<u64>,
    watermark: u64,
    k: int,
    chains: Chains,
    key: Seq<u8>,
    ts: u64,
    v: Option<Seq<u8>>,
    u: Option<Seq<u8>>,
)
    requires
        before.well_kept(),
        before.agrees(),
        is_interrupted(
            before,
            mid,
            inputs,
            sl,
            tl,
            chunks,
            outs,
            hs,
            stamps,
            watermark,
            k,
        ),
        watermark <= ts < OPEN_ENDED_TS,
        before.reads(chains, key, ts, v),
        mid.reads(chains, key, ts, u),
    ensures
        mid.well_kept(),
        v == u,
{
    lemma_interrupted_files(
        before,
        mid,
        inputs,
        sl,
        tl,
        chunks,
        outs,
        hs,
        stamps,
        watermark,
        k,
    );
    if !before.is_dropped(key) && chains_read(chains, key, ts) is None {
        let a = choose|a: Option<VersionModel>| #[trigger]
            before.newest(key, ts, a) && v == value_of(a);
        let b = choose|b: Option<VersionModel>| #[trigger]
            mid.newest(key, ts, b) && u == value_of(b);
        law_newest_is_latest(before, key, ts, a);
        law_newest_is_latest(mid, key, ts, b);
        if a is Some {
            let f = choose|f: u64| #[trigger]
                before.live(f) && latest_in(before.rows(f), key, ts, a->0);
            let i = choose|i: int|
                0 <= i < before.rows(f).len() && (#[trigger] before.rows(f)[i]).key == key
                    && before.rows(f)[i].version == a->0;
            lemma_row_survives(
                before,
                mid,
                inputs,
                chunks,
                outs,
                hs,
                watermark,
                k,
                f,
                i,
                ts,
            );
            let (g, q) = choose|g: u64, q: int|
                #![trigger mid.rows(g)[q]]
                mid.live(g) && 0 <= q < mid.rows(g).len() && mid.rows(g)[q].key == key && mid.rows(
                    g,
                )[q].version.begin_ts <= ts && mid.rows(g)[q].version.begin_ts >= a->0.begin_ts;
            assert(mid.live(g));
            if b is None {
                assert(none_in(mid.rows(g), key, ts));
                assert(mid.rows(g)[q].version.begin_ts > ts);
            } else {
                assert(mid.rows(g)[q].version.begin_ts <= b->0.begin_ts);
            }
        }
        if b is Some {
            let g = choose|g: u64| #[trigger]
                mid.live(g) && latest_in(mid.rows(g), key, ts, b->0);
            let q = choose|q: int|
                0 <= q < mid.rows(g).len() && (#[trigger] mid.rows(g)[q]).key == key && mid.rows(
                    g,
                )[q].version == b->0;
            if !before.live(g) {
                let c = choose|c: int|
                    0 <= c < added(k, hs.len() as int) && (#[trigger] hs[c]).file_id == g;
                assert(hs[c].file_id == g);
            }
            lemma_row_stems(before, mid, inputs, sl, tl, chunks, outs, hs, watermark, g, q);
            let (f, i) = choose|f: u64, i: int|
                #![trigger before.rows(f)[i]]
                before.live(f) && 0 <= i < before.rows(f).len() && before.rows(f)[i].key == key
                    && before.rows(f)[i].version.begin_ts == b->0.begin_ts && before.rows(
                    f,
                )[i].version.value == b->0.value;
            assert(before.live(f));
            if a is None {
                assert(none_in(before.rows(f), key, ts));
                assert(before.rows(f)[i].version.begin_ts > ts);
            } else {
                assert(before.rows(f)[i].version.begin_ts <= a->0.begin_ts);
                let h = choose|h: u64| #[trigger]
                    before.live(h) && latest_in(before.rows(h), key, ts, a->0);
                let j = choose|j: int|
                    0 <= j < before.rows(h).len() && (#[trigger] before.rows(h)[j]).key == key
                        && before.rows(h)[j].version == a->0;
                assert(before.rows(f)[i].version.value == before.rows(h)[j].version.value);
            }
        }
    }
}

/// A crash in the middle of recording a flushed file leaves the version set
/// without the file or with all of the flush.
pub proof fn law_interrupted_flush_is_all_or_nothing(
    v: VersionSetModel,
    id: u64,
    meta: MetaModel,
    k: int,
)
    requires
        0 <= k <= flush_edits(id, meta).len(),
    ensures
        v.replay(flush_edits(id, meta).take(k)) == (if k == 0 {
            v
        } else {
            v.replay(flush_edits(id, meta))
        }),
{
    let es = flush_edits(id, meta);
    let one = es.drop_last();
    assert(one.drop_last() =~= Seq::<EditModel>::empty());
    assert(v.replay(one.drop_last()) == v);
    assert(v.replay(one) == v.apply(es[0]));
    assert(v.replay(es) == v.apply(es[0]).apply(es[1]));
    if k == 0 {
        assert(es.take(0) =~= Seq::<EditModel>::empty());
    } else if k == 1 {
        assert(es.take(1) =~= one);
    } else {
        assert(es.take(2) =~= es);
    }
}

// ── Torn commits ──────────────────────────────────────────────────────────

/// The log of the commits `cs`, and the first `n` bytes of one more.
pub open spec fn torn_log(
    cs: Seq<(u64, Seq<MutationModel>)>,
    tx_id: u64,
    ms: Seq<MutationModel>,
    n: int,
) -> Seq<u8> {
    frames(log_of(cs)) + batch_bytes(mutation_records(tx_id, ms), tx_id).take(n)
}

/// A commit of which the log holds only a part is not replayed, and all before
/// it are.
pub proof fn law_torn_commit_is_not_replayed(
    cs: Seq<(u64, Seq<MutationModel>)>,
    tx_id: u64,
    ms: Seq<MutationModel>,
    n: int,
)
    requires
        are_readable(cs.push((tx_id, ms))),
        0 <= n < batch_bytes(mutation_records(tx_id, ms), tx_id).len(),
    ensures
        parse_log(torn_log(cs, tx_id, ms, n), 0).stop is Torn,
        groups_of(parse_log(torn_log(cs, tx_id, ms, n), 0).records) == commit_groups(cs),
{
    let next = cs.push((tx_id, ms));
    let front = log_of(cs);
    let all = log_of(next);
    let batch = batch_bytes(mutation_records(tx_id, ms), tx_id);
    let log = torn_log(cs, tx_id, ms, n);
    let cut = frames(front).len() + n;
    let k = whole_frames(all, cut) as int;
    let l = front.len() as int;
    assert(next.drop_last() =~= cs);
    assert(all == front + mutation_records(tx_id, ms).push(commit_model(tx_id)));
    lemma_log_push(cs, tx_id, ms);
    assert(log =~= frames(all).take(cut));
    law_torn_tail(all, cut);
    lemma_whole_frames(all, cut);
    assert(all.take(all.len() as int) =~= all);
    assert(all.take(l) =~= front);
    if k < l {
        lemma_frames_prefix(front, k + 1);
        assert(front.take(k + 1) =~= all.take(k + 1));
    }
    let tail = all.subrange(l, k);
    lemma_log_is_kept(next);
    let got = parse_log(log, 0).records;
    assert(got =~= front + tail) by {
        assert forall|i: int| 0 <= i < k implies #[trigger] got[i] == all[i] by {
            assert(all_kept(all)[i] == kept(all[i]));
            assert(all.take(k)[i] == all[i]);
        }
    }
    assert forall|i: int| 0 <= i < tail.len() implies (#[trigger] tail[i]).op
        != OpType::Commit by {
        assert(tail[i] == mutation_records(tx_id, ms)[i]);
    }
    law_uncommitted_is_not_replayed(front, tail);
    assert forall|i: int| 0 <= i < cs.len() implies (#[trigger] cs[i]).1.len() > 0 by {
        assert(next[i] == cs[i]);
    }
    law_replay_restores_commits(cs);
}

/// An engine that crashed in the middle of a commit opens with every commit
/// before it and nothing of that one: every key reads at the latest commit as
/// it read before.
pub proof fn law_torn_commit_is_forgotten(
    m: EngineModel,
    cs: Seq<(u64, Seq<MutationModel>)>,
    tx_id: u64,
    ms: Seq<MutationModel>,
    n: int,
    after: EngineModel,
    manifest: Seq<u8>,
    key: Seq<u8>,
    v: Option<Seq<u8>>,
    w: Option<Seq<u8>>,
)
    requires
        healthy(m),
        is_current(m, cs),
        are_readable(cs.push((tx_id, ms))),
        0 <= n < batch_bytes(mutation_records(tx_id, ms), tx_id).len(),
        log_holds(manifest, m.tables.version),
        is_opened(after, m.tables.dir, torn_log(cs, tx_id, ms, n), manifest),
        after.tables.stored == m.tables.stored,
        after.write.metrics.sst_read_failures == 0,
        after.write.commit_seq < u64::MAX,
        m.tables.reads(m.write.chains, key, snapshot_of(m.write), v),
        after.tables.reads(after.write.chains, key, snapshot_of(after.write), w),
    ensures
        v == w,
{
    let log = m.write.log;
    let whole = EngineModel {
        write: WriteModel {
            log,
            next_tx_id: id_after(highest_tx(log_of(cs))),
            ..after.write
        },
        ..after
    };
    law_torn_commit_is_not_replayed(cs, tx_id, ms, n);
    law_round_trip(log_of(cs));
    lemma_log_is_kept(cs);
    assert(log.take(parse_log(log, 0).valid) =~= log);
    assert forall|i: int| 0 <= i < cs.len() implies (#[trigger] cs[i]).1.len() > 0 by {}
    law_replay_restores_commits(cs);
    let torn = torn_log(cs, tx_id, ms, n);
    assert(is_wal1(log)) by {
        if log.len() >= 4 {
            assert(torn.take(4) =~= log.take(4));
        }
    }
    let groups = groups_of(parse_log(torn, 0).records);
    let max_commit = choose|max_commit: u64| #[trigger]
        tallied(after.tables, max_commit, after.write.metrics.sst_read_failures) && {
            &&& after.write.chains == apply_groups(Map::empty(), groups, id_after(max_commit))
            &&& after.write.commit_seq == ts_after(id_after(max_commit), groups.len())
        };
    assert(tallied(whole.tables, max_commit, whole.write.metrics.sst_read_failures));
    assert(is_opened(whole, m.tables.dir, log, manifest));
    law_reopen_keeps_reads(m, cs, whole, manifest, key, v, w);
}

/// Where every commit syncs the log, a commit that succeeded survives: the log
/// was synced with its records behind those of the commits before, and from
/// such a log it is replayed with them, whatever part of a later commit is in
/// the log besides.
pub proof fn law_synced_commit_survives<F: FileIO, H: EngineHook>(
    log: F,
    hook: H,
    cs: Seq<(u64, Seq<MutationModel>)>,
    tx_id: u64,
    mutations: Seq<Mutation>,
    r: Result<u64>,
    next_tx: u64,
    next_ms: Seq<MutationModel>,
    n: int,
)
    requires
        file_bytes(log.files(), log.current()) == frames(log_of(cs)),
        tx_fits(tx_id, mutation_models(mutations)),
        commit_done(log, SyncMode::Full, hook, tx_id, mutations, r),
        r is Ok,
        are_readable(cs.push((tx_id, mutation_models(mutations))).push((next_tx, next_ms))),
        0 <= n < batch_bytes(mutation_records(next_tx, next_ms), next_tx).len(),
    ensures
        ({
            let done = cs.push((tx_id, mutation_models(mutations)));
            &&& exists|io: F| #[trigger]
                may_sync(io, true) && file_bytes(io.files(), io.current()) == frames(log_of(done))
            &&& groups_of(parse_log(frames(log_of(done)), 0).records) == commit_groups(done)
            &&& groups_of(parse_log(torn_log(done, next_tx, next_ms, n), 0).records)
                == commit_groups(done)
        }),
{
    let ms = mutation_models(mutations);
    let done = cs.push((tx_id, ms));
    let bytes = batch_bytes(mutation_records(tx_id, ms), tx_id);
    let io = choose|io: F| #[trigger] is_extended(io, log, bytes) && may_sync(io, true);
    lemma_log_push(cs, tx_id, ms);
    assert(may_sync(io, true));
    assert(file_bytes(io.files(), io.current()) == frames(log_of(cs)) + bytes);
    law_torn_commit_is_not_replayed(done, next_tx, next_ms, n);
    law_torn_commit_is_not_replayed(done, next_tx, next_ms, 0);
    assert(torn_log(done, next_tx, next_ms, 0) =~= frames(log_of(done)));
}

} // verus!
