//! Flushing and compacting change no read.

use crate::buf::{lex_le, lists_keys, sorted_keys};
use crate::chain_store::{chain_of, chains_read, Chains};
use crate::compact_plan::{add_edits, compaction_edit_models, delete_edits, handle_meta, highest_id};
use crate::key_index::{
    lemma_visible_is_a_row, lookup_visible, rows_sorted, untagged, untagged_rows,
};
use crate::listing::lists;
use crate::manifest_laws::lemma_replay_concat;
use crate::memtable::{chain_rows, chains_contiguous, rows_of, table_rows, RowModel};
use crate::merge::{
    collapsed, first_rows, has_place, in_order, is_merged, is_read, law_merge_keeps_reads,
    lemma_collapsed, lemma_first_rows, lemma_read_is_newest, lists_versions, observable, place,
    retimed,
};
use crate::paths::law_paths_are_distinct;
use crate::tables_model::{
    latest_in, law_merged_settled, law_newest_is_latest, law_read_is_unique, law_table_rows_settled,
    lemma_in_order_sorted, lemma_untagged_settled, none_in, settled, value_of, TablesModel,
};
use crate::version::{contiguous, lemma_chain_read_found, VersionModel, OPEN_ENDED_TS};
use crate::version_set::{covers, id_after, max_u64, EditModel, MetaModel, VersionSetModel};
use crate::vortex_sst::{describes, first_key, last_key, SstHandle};
use vstd::prelude::*;

verus! {

// ── Adding and deleting files ─────────────────────────────────────────────

/// Which files a version set holds after one edit.
pub proof fn lemma_edit_holds(m: VersionSetModel, e: EditModel, l: u32, k: u64)
    ensures
        match e {
            EditModel::AddFile(id, level, _) => m.apply(e).holds(l, k) <==> m.holds(l, k) || (l
                == level && k == id),
            EditModel::DeleteFile(id, level) => m.apply(e).holds(l, k) <==> m.holds(l, k) && !(l
                == level && k == id),
            _ => m.apply(e).holds(l, k) <==> m.holds(l, k),
        },
{
    match e {
        EditModel::DeleteFile(id, level) => {
            if m.levels.contains_key(level) {
                let left = m.levels[level].remove(id);
                if left.is_empty() {
                    assert(!left.contains(k));
                }
            }
        },
        _ => {},
    }
}

/// The bounds of rows in order cover them.
pub proof fn lemma_bounds_cover(rs: Seq<RowModel>, meta: MetaModel, i: int)
    requires
        rows_sorted(rs),
        meta.min_key == first_key(rs),
        meta.max_key == last_key(rs),
        0 <= i < rs.len(),
    ensures
        covers(meta, rs[i].key),
{
    assert(lex_le(rs[0].key, rs[i].key));
    assert(lex_le(rs[i].key, rs[rs.len() - 1].key));
}

// ── Flushing ──────────────────────────────────────────────────────────────

/// The edits that record a flushed file.
pub open spec fn flush_edits(id: u64, meta: MetaModel) -> Seq<EditModel> {
    seq![EditModel::AddFile(id, 0, meta), EditModel::NextFileId(id_after(id))]
}

/// `after` is `before` with one more file on the first level.
pub open spec fn is_flushed(
    before: TablesModel,
    after: TablesModel,
    rs: Seq<RowModel>,
    meta: MetaModel,
) -> bool {
    let id = before.version.next_file_id;
    &&& after.dir == before.dir
    &&& after.version == before.version.replay(flush_edits(id, meta))
    &&& after.stored == before.stored.insert(before.path(id), untagged_rows(rs))
    &&& meta.min_key == first_key(rs)
    &&& meta.max_key == last_key(rs)
}

/// What the version set holds after a flush.
pub proof fn lemma_flush_version(v: VersionSetModel, id: u64, meta: MetaModel)
    ensures
        ({
            let w = v.replay(flush_edits(id, meta));
            &&& forall|l: u32, k: u64| #[trigger]
                w.holds(l, k) <==> v.holds(l, k) || (l == 0 && k == id)
            &&& w.meta == v.meta.insert(id, meta)
            &&& w.dropped == v.dropped
            &&& w.next_file_id == max_u64(v.next_file_id, id_after(id))
        }),
{
    let es = flush_edits(id, meta);
    let one = es.drop_last();
    assert(one =~= seq![es[0]]);
    assert(one.drop_last() =~= Seq::<EditModel>::empty());
    assert(v.replay(one.drop_last()) == v);
    let mid = v.replay(one);
    assert(mid == v.apply(es[0]));
    let w = v.replay(es);
    assert(w == mid.apply(es[1]));
    assert forall|l: u32, k: u64| #[trigger] w.holds(l, k) <==> v.holds(l, k) || (l == 0 && k
        == id) by {
        lemma_edit_holds(v, es[0], l, k);
        lemma_edit_holds(mid, es[1], l, k);
    }
}

/// Which files are live after a flush, and what they hold.
pub proof fn lemma_flush_live(
    before: TablesModel,
    after: TablesModel,
    rs: Seq<RowModel>,
    meta: MetaModel,
)
    requires
        is_flushed(before, after, rs, meta),
        before.well_kept(),
    ensures
        forall|k: u64| #[trigger]
            after.live(k) <==> before.live(k) || k == before.version.next_file_id,
        forall|k: u64| #[trigger] before.live(k) ==> after.rows(k) == before.rows(k) && k
            != before.version.next_file_id,
        after.rows(before.version.next_file_id) == untagged_rows(rs),
{
    let id = before.version.next_file_id;
    lemma_flush_version(before.version, id, meta);
    assert forall|k: u64| #[trigger] after.live(k) <==> before.live(k) || k == id by {
        if after.live(k) {
            let l = choose|l: u32| #[trigger] after.version.holds(l, k);
            if k != id {
                assert(before.version.holds(l, k));
            }
        }
        if before.live(k) {
            let l = choose|l: u32| #[trigger] before.version.holds(l, k);
            assert(after.version.holds(l, k));
        }
        if k == id {
            assert(after.version.holds(0, k));
        }
    }
    assert forall|k: u64| #[trigger] before.live(k) implies after.rows(k) == before.rows(k) && k
        != id by {
        assert(before.file_kept(k));
        law_paths_are_distinct(before.dir, k, id);
    }
}

/// A flush keeps the files well kept.
pub proof fn law_flush_keeps_files(
    before: TablesModel,
    after: TablesModel,
    rs: Seq<RowModel>,
    meta: MetaModel,
)
    requires
        is_flushed(before, after, rs, meta),
        before.well_kept(),
        before.version.next_file_id < u64::MAX,
        settled(rs),
    ensures
        after.well_kept(),
{
    let id = before.version.next_file_id;
    lemma_flush_live(before, after, rs, meta);
    lemma_flush_version(before.version, id, meta);
    lemma_untagged_settled(rs);
    let us = untagged_rows(rs);
    lemma_in_order_sorted(us);
    assert(first_key(us) == first_key(rs));
    assert(last_key(us) == last_key(rs));
    assert forall|k: u64| #[trigger] after.live(k) implies after.file_kept(k) by {
        if k == id {
            assert forall|i: int| 0 <= i < after.rows(k).len() implies covers(
                after.version.meta[k],
                (#[trigger] after.rows(k)[i]).key,
            ) by {
                lemma_bounds_cover(us, meta, i);
            }
        } else {
            assert(before.file_kept(k));
            law_paths_are_distinct(before.dir, k, id);
        }
    }
    assert forall|k: u64| #[trigger] after.version.meta.contains_key(k) implies after.live(k) by {
        if k != id {
            assert(before.version.meta.contains_key(k));
        }
    }
    assert forall|a: u32, b: u32, k: u64| #[trigger] after.version.holds(a, k)
        && #[trigger] after.version.holds(b, k) implies a == b by {
        if k == id {
            if before.version.holds(a, k) || before.version.holds(b, k) {
                assert(before.live(k));
            }
        } else {
            assert(before.version.holds(a, k) && before.version.holds(b, k));
        }
    }
}

/// Every version of the memtable is newer than what the files hold of its
/// key.
pub open spec fn memtable_is_newer(m: TablesModel, chains: Chains) -> bool {
    forall|k: Seq<u8>, i: int, id: u64, j: int|
        #![trigger chains[k][i], m.live(id), m.rows(id)[j]]
        chains.contains_key(k) && 0 <= i < chains[k].len() && m.live(id) && 0 <= j < m.rows(
            id,
        ).len() && m.rows(id)[j].key == k ==> m.rows(id)[j].version.begin_ts
            < chains[k][i].begin_ts
}

proof fn lemma_rows_of_has(ks: Seq<Seq<u8>>, m: Chains, k: int, i: int)
    requires
        0 <= k < ks.len(),
        0 <= i < m[ks[k]].len(),
    ensures
        exists|j: int|
            0 <= j < rows_of(ks, m).len() && (#[trigger] rows_of(ks, m)[j]) == (RowModel {
                key: ks[k],
                version: m[ks[k]][i],
            }),
    decreases ks.len(),
{
    let init = ks.drop_last();
    let front = rows_of(init, m);
    let all = rows_of(ks, m);
    if k < init.len() {
        assert(init[k] == ks[k]);
        lemma_rows_of_has(init, m, k, i);
        let j = choose|j: int|
            0 <= j < front.len() && (#[trigger] front[j]) == (RowModel {
                key: ks[k],
                version: m[ks[k]][i],
            });
        assert(all[j] == front[j]);
    } else {
        assert(all[front.len() + i] == chain_rows(ks.last(), m[ks.last()])[i]);
    }
}

proof fn lemma_rows_of_from(ks: Seq<Seq<u8>>, m: Chains, j: int)
    requires
        0 <= j < rows_of(ks, m).len(),
    ensures
        exists|k: int, i: int|
            #![trigger m[ks[k]][i]]
            0 <= k < ks.len() && 0 <= i < m[ks[k]].len() && rows_of(ks, m)[j] == (RowModel {
                key: ks[k],
                version: m[ks[k]][i],
            }),
    decreases ks.len(),
{
    if ks.len() > 0 {
        let init = ks.drop_last();
        let front = rows_of(init, m);
        if j < front.len() {
            lemma_rows_of_from(init, m, j);
            let (k, i) = choose|k: int, i: int|
                #![trigger m[init[k]][i]]
                0 <= k < init.len() && 0 <= i < m[init[k]].len() && front[j] == (RowModel {
                    key: init[k],
                    version: m[init[k]][i],
                });
            assert(ks[k] == init[k]);
            assert(m[ks[k]][i] == m[init[k]][i]);
        } else {
            let i = j - front.len();
            assert(m[ks[ks.len() - 1]][i] == m[ks.last()][i]);
        }
    }
}

/// The rows of a memtable are its versions.
pub proof fn lemma_table_rows(m: Chains)
    requires
        lists_keys(sorted_keys(m.dom()), m.dom()),
    ensures
        forall|k: Seq<u8>, i: int|
            #![trigger m[k][i]]
            m.contains_key(k) && 0 <= i < m[k].len() ==> table_rows(m).contains(
                RowModel { key: k, version: m[k][i] },
            ),
        forall|j: int|
            0 <= j < table_rows(m).len() ==> {
                let r = #[trigger] table_rows(m)[j];
                m.contains_key(r.key) && m[r.key].contains(r.version)
            },
{
    let ks = sorted_keys(m.dom());
    assert forall|k: Seq<u8>, i: int|
        #![trigger m[k][i]]
        m.contains_key(k) && 0 <= i < m[k].len() implies table_rows(m).contains(
        RowModel { key: k, version: m[k][i] },
    ) by {
        assert(m.dom().contains(k));
        assert(ks.contains(k));
        let p = choose|p: int| 0 <= p < ks.len() && ks[p] == k;
        lemma_rows_of_has(ks, m, p, i);
    }
    assert forall|j: int| 0 <= j < table_rows(m).len() implies {
        let r = #[trigger] table_rows(m)[j];
        m.contains_key(r.key) && m[r.key].contains(r.version)
    } by {
        lemma_rows_of_from(ks, m, j);
        let (k, i) = choose|k: int, i: int|
            #![trigger m[ks[k]][i]]
            0 <= k < ks.len() && 0 <= i < m[ks[k]].len() && rows_of(ks, m)[j] == (RowModel {
                key: ks[k],
                version: m[ks[k]][i],
            });
        assert(ks.contains(ks[k]));
        assert(m.dom().contains(ks[k]));
    }
}

/// Flushing the memtable changes no read: whoever reads a key at a snapshot
/// gets from the files what memtable and files gave together.
pub proof fn law_flush_keeps_reads(
    before: TablesModel,
    after: TablesModel,
    chains: Chains,
    meta: MetaModel,
    key: Seq<u8>,
    ts: u64,
    v: Option<Seq<u8>>,
    w: Option<Seq<u8>>,
)
    requires
        is_flushed(before, after, table_rows(chains), meta),
        before.well_kept(),
        before.version.next_file_id < u64::MAX,
        before.agrees(),
        chains_contiguous(chains),
        lists_keys(sorted_keys(chains.dom()), chains.dom()),
        memtable_is_newer(before, chains),
        ts < OPEN_ENDED_TS,
        before.reads(chains, key, ts, v),
        after.reads(Map::empty(), key, ts, w),
    ensures
        v == w,
{
    let rs = table_rows(chains);
    let id = before.version.next_file_id;
    lemma_flush_version(before.version, id, meta);
    lemma_flush_live(before, after, rs, meta);
    law_table_rows_settled(chains);
    law_flush_keeps_files(before, after, rs, meta);
    lemma_table_rows(chains);
    if !before.is_dropped(key) {
        assert(chain_of(Map::<Seq<u8>, Seq<VersionModel>>::empty(), key).len() == 0);
        assert(chains_read(Map::empty(), key, ts) is None);
        let o = choose|o: Option<VersionModel>| #[trigger]
            after.newest(key, ts, o) && w == value_of(o);
        law_newest_is_latest(after, key, ts, o);
        let chain = chain_of(chains, key);
        let at = lemma_chain_read_found(chain, ts);
        let us = after.rows(id);
        assert(after.live(id));
        match chains_read(chains, key, ts) {
            Some(x) => {
                lemma_flushed_version_wins(before, after, chains, key, ts, o, at);
            },
            None => {
                lemma_chain_has_none(chain, ts);
                assert(none_in(us, key, ts)) by {
                    assert forall|j: int| 0 <= j < us.len() && (#[trigger] us[j]).key
                        == key implies us[j].version.begin_ts > ts by {
                        assert(us[j] == untagged(rs[j]));
                        let r = table_rows(chains)[j];
                        assert(chains[key].contains(r.version));
                        let i = choose|i: int| 0 <= i < chain.len() && chain[i] == r.version;
                        assert(chain[i].begin_ts > ts);
                    }
                }
                lemma_visible_is_a_row(us, key, ts);
                assert(lookup_visible(us, key, ts) is None);
                assert(before.newest(key, ts, o)) by {
                    assert forall|k: u64| #[trigger] before.live(k) implies lookup_visible(
                        before.rows(k),
                        key,
                        ts,
                    ) == lookup_visible(after.rows(k), key, ts) && after.live(k) by {}
                    if o is Some {
                        let k = choose|k: u64| #[trigger]
                            after.live(k) && lookup_visible(after.rows(k), key, ts) == o;
                        assert(before.live(k));
                    }
                }
                assert(before.reads(chains, key, ts, w));
                law_read_is_unique(before, chains, key, ts, v, w);
            },
        }
    }
}

proof fn lemma_chain_has_none(chain: Seq<VersionModel>, ts: u64)
    requires
        contiguous(chain),
        ts < OPEN_ENDED_TS,
        forall|j: int| 0 <= j < chain.len() ==> !(#[trigger] chain[j]).visible_at(ts),
    ensures
        forall|j: int| 0 <= j < chain.len() ==> (#[trigger] chain[j]).begin_ts > ts,
{
    assert forall|j: int| 0 <= j < chain.len() implies (#[trigger] chain[j]).begin_ts > ts by {
        lemma_chain_step(chain, ts, j);
    }
}

proof fn lemma_chain_step(chain: Seq<VersionModel>, ts: u64, j: int)
    requires
        contiguous(chain),
        ts < OPEN_ENDED_TS,
        forall|j: int| 0 <= j < chain.len() ==> !(#[trigger] chain[j]).visible_at(ts),
        0 <= j < chain.len(),
    ensures
        chain[j].begin_ts > ts,
    decreases j,
{
    assert(!chain[j].visible_at(ts));
    if j > 0 {
        lemma_chain_step(chain, ts, j - 1);
        assert(chain[j].end_ts == chain[j - 1].begin_ts);
    }
}

proof fn lemma_flushed_version_wins(
    before: TablesModel,
    after: TablesModel,
    chains: Chains,
    key: Seq<u8>,
    ts: u64,
    o: Option<VersionModel>,
    at: int,
)
    requires
        before.well_kept(),
        chains_contiguous(chains),
        lists_keys(sorted_keys(chains.dom()), chains.dom()),
        memtable_is_newer(before, chains),
        after.latest(key, ts, o),
        0 <= at < chain_of(chains, key).len(),
        chain_of(chains, key)[at].visible_at(ts),
        after.live(before.version.next_file_id),
        after.rows(before.version.next_file_id) == untagged_rows(table_rows(chains)),
        forall|k: u64| #[trigger]
            after.live(k) <==> before.live(k) || k == before.version.next_file_id,
        forall|k: u64| #[trigger] before.live(k) ==> after.rows(k) == before.rows(k) && k
            != before.version.next_file_id,
        ts < OPEN_ENDED_TS,
    ensures
        value_of(o) == chain_of(chains, key)[at].value,
{
    let id = before.version.next_file_id;
    let rs = table_rows(chains);
    let us = after.rows(id);
    let chain = chain_of(chains, key);
    let x = chain[at];
    lemma_table_rows(chains);
    law_table_rows_settled(chains);
    lemma_untagged_settled(rs);
    assert(chains.contains_key(key));
    assert(chains[key][at] == x);
    assert(rs.contains(RowModel { key, version: x }));
    let p = choose|p: int| 0 <= p < rs.len() && rs[p] == (RowModel { key, version: x });
    assert(us[p] == untagged(rs[p]));
    assert(us[p].key == key && us[p].version.begin_ts == x.begin_ts);
    assert(after.live(id));
    if o is None {
        assert(none_in(after.rows(id), key, ts));
        assert(after.rows(id)[p].version.begin_ts > ts);
    } else {
        let best = o->0;
        assert(after.rows(id)[p].version.begin_ts <= best.begin_ts);
        let f = choose|f: u64| #[trigger] after.live(f) && latest_in(after.rows(f), key, ts, best);
        let q = choose|q: int|
            0 <= q < after.rows(f).len() && (#[trigger] after.rows(f)[q]).key == key && after.rows(
                f,
            )[q].version == best;
        if f != id {
            assert(before.live(f));
            assert(before.rows(f)[q].version.begin_ts < chains[key][at].begin_ts);
        } else {
            assert(us[q] == untagged(rs[q]));
            let r = table_rows(chains)[q];
            assert(chains[key].contains(r.version));
            let i = choose|i: int| 0 <= i < chain.len() && chain[i] == r.version;
            assert(chain[i].begin_ts == best.begin_ts && best.begin_ts <= ts);
            if i < at {
                assert(chain[at].end_ts == chain[at - 1].begin_ts);
                assert(chain[i].begin_ts >= chain[at - 1].begin_ts);
            } else if i > at {
                assert(chain[at].begin_ts > chain[i].begin_ts);
            }
            assert(i == at);
        }
    }
}

// ── Compacting ────────────────────────────────────────────────────────────

/// The rows of files, one file after the other.
pub open spec fn rows_all(m: TablesModel, ids: Seq<u64>) -> Seq<RowModel>
    decreases ids.len(),
{
    if ids.len() == 0 {
        Seq::empty()
    } else {
        rows_all(m, ids.drop_last()) + m.rows(ids.last())
    }
}

/// The file goes into one of the merges.
pub open spec fn is_input(chunks: Seq<(Seq<u64>, u64)>, k: u64) -> bool {
    exists|c: int| 0 <= c < chunks.len() && (#[trigger] chunks[c]).0.contains(k)
}

/// The file comes out of one of the merges.
pub open spec fn is_output(chunks: Seq<(Seq<u64>, u64)>, k: u64) -> bool {
    exists|c: int| 0 <= c < chunks.len() && (#[trigger] chunks[c]).1 == k
}

/// The rows are those of the files, merged at the watermark.
pub open spec fn holds_merge(rs: Seq<RowModel>, m: TablesModel, ids: Seq<u64>, watermark: u64) -> bool {
    exists|out: Seq<RowModel>| #[trigger]
        is_merged(out, rows_all(m, ids), watermark) && rs == untagged_rows(out)
}

/// `after` is `before` with the inputs of every merge replaced by its output.
pub open spec fn is_compacted(
    before: TablesModel,
    after: TablesModel,
    chunks: Seq<(Seq<u64>, u64)>,
    watermark: u64,
) -> bool {
    &&& after.dir == before.dir
    &&& after.version.dropped == before.version.dropped
    &&& forall|k: u64| #[trigger]
        after.live(k) <==> is_output(chunks, k) || (before.live(k) && !is_input(chunks, k))
    &&& forall|k: u64| #[trigger]
        before.live(k) && !is_input(chunks, k) ==> after.rows(k) == before.rows(k)
    &&& forall|c: int|
        0 <= c < chunks.len() ==> holds_merge(
            after.rows((#[trigger] chunks[c]).1),
            before,
            chunks[c].0,
            watermark,
        )
    &&& forall|k: u64| #[trigger] is_input(chunks, k) ==> before.live(k)
}

proof fn lemma_rows_all_has(m: TablesModel, ids: Seq<u64>, id: u64, i: int)
    requires
        ids.contains(id),
        0 <= i < m.rows(id).len(),
    ensures
        rows_all(m, ids).contains(m.rows(id)[i]),
    decreases ids.len(),
{
    let all = rows_all(m, ids);
    let front = rows_all(m, ids.drop_last());
    if ids.last() == id {
        assert(all[front.len() + i] == m.rows(id)[i]);
    } else {
        let p = choose|p: int| 0 <= p < ids.len() && ids[p] == id;
        assert(ids.drop_last()[p] == id);
        lemma_rows_all_has(m, ids.drop_last(), id, i);
        let j = choose|j: int| 0 <= j < front.len() && front[j] == m.rows(id)[i];
        assert(all[j] == front[j]);
    }
}

proof fn lemma_rows_all_from(m: TablesModel, ids: Seq<u64>, j: int)
    requires
        0 <= j < rows_all(m, ids).len(),
    ensures
        exists|id: u64, i: int|
            #![trigger m.rows(id)[i]]
            ids.contains(id) && 0 <= i < m.rows(id).len() && m.rows(id)[i] == rows_all(m, ids)[j],
    decreases ids.len(),
{
    if ids.len() > 0 {
        let front = rows_all(m, ids.drop_last());
        if j < front.len() {
            lemma_rows_all_from(m, ids.drop_last(), j);
            let (id, i) = choose|id: u64, i: int|
                #![trigger m.rows(id)[i]]
                ids.drop_last().contains(id) && 0 <= i < m.rows(id).len() && m.rows(id)[i]
                    == front[j];
            let p = choose|p: int| 0 <= p < ids.drop_last().len() && ids.drop_last()[p] == id;
            assert(ids[p] == id);
            assert(m.rows(id)[i] == rows_all(m, ids)[j]);
        } else {
            assert(ids[ids.len() - 1] == ids.last());
            assert(m.rows(ids.last())[j - front.len()] == rows_all(m, ids)[j]);
        }
    }
}

/// Every row of a merge is, but for its end and its transaction, a row of an
/// input.
pub proof fn lemma_merge_row_from(rs: Seq<RowModel>, m: TablesModel, ids: Seq<u64>, w: u64, q: int)
    requires
        holds_merge(rs, m, ids, w),
        0 <= q < rs.len(),
    ensures
        exists|id: u64, i: int|
            #![trigger m.rows(id)[i]]
            ids.contains(id) && 0 <= i < m.rows(id).len() && m.rows(id)[i].key == rs[q].key
                && m.rows(id)[i].version.begin_ts == rs[q].version.begin_ts && m.rows(
                id,
            )[i].version.value == rs[q].version.value,
{
    let all = rows_all(m, ids);
    let out = choose|out: Seq<RowModel>| #[trigger]
        is_merged(out, all, w) && rs == untagged_rows(out);
    let s = choose|s: Seq<RowModel>| #[trigger]
        lists_versions(s, all) && out == collapsed(s, w);
    lemma_collapsed(s, w);
    assert(rs[q] == untagged(out[q]));
    let i = choose|i: int|
        0 <= i < s.len() && observable(s, i, w) && #[trigger] retimed(s, i) == out[q];
    lemma_first_rows(all);
    assert(first_rows(all)[place(s[i])] == s[i]);
    assert(all.contains(s[i]));
    let j = choose|j: int| 0 <= j < all.len() && all[j] == s[i];
    lemma_rows_all_from(m, ids, j);
}

/// Of every input version that does not begin after a snapshot at or after
/// the watermark, the merge holds one of the same key that is at least as new
/// and does not begin after the snapshot either.
pub proof fn lemma_merge_row_has(
    rs: Seq<RowModel>,
    m: TablesModel,
    ids: Seq<u64>,
    w: u64,
    id: u64,
    i: int,
    ts: u64,
)
    requires
        holds_merge(rs, m, ids, w),
        ids.contains(id),
        0 <= i < m.rows(id).len(),
        m.rows(id)[i].version.begin_ts <= ts,
        w <= ts < OPEN_ENDED_TS,
    ensures
        exists|q: int|
            0 <= q < rs.len() && (#[trigger] rs[q]).key == m.rows(id)[i].key
                && rs[q].version.begin_ts <= ts && rs[q].version.begin_ts >= m.rows(
                id,
            )[i].version.begin_ts,
{
    let r = m.rows(id)[i];
    let all = rows_all(m, ids);
    let out = choose|out: Seq<RowModel>| #[trigger]
        is_merged(out, all, w) && rs == untagged_rows(out);
    let s = choose|s: Seq<RowModel>| #[trigger]
        lists_versions(s, all) && out == collapsed(s, w);
    lemma_rows_all_has(m, ids, id, i);
    let p = choose|p: int| 0 <= p < all.len() && all[p] == r;
    lemma_first_rows(all);
    assert(first_rows(all).contains_key(place(all[p])));
    assert(has_place(s, place(r)));
    let a = choose|a: int| 0 <= a < s.len() && place(#[trigger] s[a]) == place(r);
    law_merge_keeps_reads(s, w, r.key, ts);
    lemma_visible_is_a_row(out, r.key, ts);
    match lookup_visible(out, r.key, ts) {
        Some(v) => {
            let q = choose|q: int|
                0 <= q < out.len() && (#[trigger] out[q]).key == r.key && out[q].version == v;
            let b = choose|b: int|
                0 <= b < s.len() && (#[trigger] s[b]).key == r.key && is_read(
                    s,
                    b,
                    ts,
                ) && v == retimed(s, b).version;
            lemma_read_is_newest(s, b, a, ts);
            assert(rs[q] == untagged(out[q]));
        },
        None => {
            assert(s[a].version.begin_ts > ts);
        },
    }
}

/// Compacting changes no read at or after the watermark.
pub proof fn law_compaction_keeps_reads(
    before: TablesModel,
    after: TablesModel,
    chunks: Seq<(Seq<u64>, u64)>,
    watermark: u64,
    chains: Chains,
    key: Seq<u8>,
    ts: u64,
    v: Option<Seq<u8>>,
    u: Option<Seq<u8>>,
)
    requires
        is_compacted(before, after, chunks, watermark),
        before.well_kept(),
        after.well_kept(),
        before.agrees(),
        watermark <= ts < OPEN_ENDED_TS,
        before.reads(chains, key, ts, v),
        after.reads(chains, key, ts, u),
    ensures
        v == u,
{
    if !before.is_dropped(key) && chains_read(chains, key, ts) is None {
        let a = choose|a: Option<VersionModel>| #[trigger]
            before.newest(key, ts, a) && v == value_of(a);
        let b = choose|b: Option<VersionModel>| #[trigger]
            after.newest(key, ts, b) && u == value_of(b);
        law_newest_is_latest(before, key, ts, a);
        law_newest_is_latest(after, key, ts, b);
        if a is Some {
            let f = choose|f: u64| #[trigger]
                before.live(f) && latest_in(before.rows(f), key, ts, a->0);
            let i = choose|i: int|
                0 <= i < before.rows(f).len() && (#[trigger] before.rows(f)[i]).key == key
                    && before.rows(f)[i].version == a->0;
            lemma_survives(before, after, chunks, watermark, f, i, ts);
            let (g, q) = choose|g: u64, q: int|
                #![trigger after.rows(g)[q]]
                after.live(g) && 0 <= q < after.rows(g).len() && after.rows(g)[q].key == key
                    && after.rows(g)[q].version.begin_ts <= ts && after.rows(g)[q].version.begin_ts
                    >= a->0.begin_ts;
            assert(after.live(g));
            if b is None {
                assert(none_in(after.rows(g), key, ts));
                assert(after.rows(g)[q].version.begin_ts > ts);
            } else {
                assert(after.rows(g)[q].version.begin_ts <= b->0.begin_ts);
            }
        }
        if b is Some {
            let g = choose|g: u64| #[trigger]
                after.live(g) && latest_in(after.rows(g), key, ts, b->0);
            let q = choose|q: int|
                0 <= q < after.rows(g).len() && (#[trigger] after.rows(g)[q]).key == key
                    && after.rows(g)[q].version == b->0;
            lemma_stems_from(before, after, chunks, watermark, g, q);
            let (f, i) = choose|f: u64, i: int|
                #![trigger before.rows(f)[i]]
                before.live(f) && 0 <= i < before.rows(f).len() && before.rows(f)[i].key == key
                    && before.rows(f)[i].version.begin_ts == b->0.begin_ts && before.rows(
                    f,
                )[i].version.value == b->0.value;
            assert(before.live(f));
            if a is None {
                assert(none_in(before.rows(f), key, ts));
                assert(before.rows(f)[i].version.begin_ts > ts);
            } else {
                assert(before.rows(f)[i].version.begin_ts <= a->0.begin_ts);
                let h = choose|h: u64| #[trigger]
                    before.live(h) && latest_in(before.rows(h), key, ts, a->0);
                let j = choose|j: int|
                    0 <= j < before.rows(h).len() && (#[trigger] before.rows(h)[j]).key == key
                        && before.rows(h)[j].version == a->0;
                assert(before.rows(f)[i].version.value == before.rows(h)[j].version.value);
            }
        }
    }
}

proof fn lemma_survives(
    before: TablesModel,
    after: TablesModel,
    chunks: Seq<(Seq<u64>, u64)>,
    watermark: u64,
    f: u64,
    i: int,
    ts: u64,
)
    requires
        is_compacted(before, after, chunks, watermark),
        before.live(f),
        0 <= i < before.rows(f).len(),
        before.rows(f)[i].version.begin_ts <= ts,
        watermark <= ts < OPEN_ENDED_TS,
    ensures
        exists|g: u64, q: int|
            #![trigger after.rows(g)[q]]
            after.live(g) && 0 <= q < after.rows(g).len() && after.rows(g)[q].key == before.rows(
                f,
            )[i].key && after.rows(g)[q].version.begin_ts <= ts && after.rows(
                g,
            )[q].version.begin_ts >= before.rows(f)[i].version.begin_ts,
{
    if is_input(chunks, f) {
        let c = choose|c: int| 0 <= c < chunks.len() && (#[trigger] chunks[c]).0.contains(f);
        let g = chunks[c].1;
        assert(is_output(chunks, g));
        assert(after.live(g));
        assert(holds_merge(after.rows(g), before, chunks[c].0, watermark));
        lemma_merge_row_has(after.rows(g), before, chunks[c].0, watermark, f, i, ts);
        let q = choose|q: int|
            0 <= q < after.rows(g).len() && (#[trigger] after.rows(g)[q]).key == before.rows(
                f,
            )[i].key && after.rows(g)[q].version.begin_ts <= ts && after.rows(
                g,
            )[q].version.begin_ts >= before.rows(f)[i].version.begin_ts;
        assert(after.rows(g)[q].version.begin_ts <= ts);
    } else {
        assert(after.live(f));
        assert(after.rows(f)[i] == before.rows(f)[i]);
    }
}

/// Every row after a compaction stems from a row before it, up to its end.
pub proof fn lemma_stems_from(
    before: TablesModel,
    after: TablesModel,
    chunks: Seq<(Seq<u64>, u64)>,
    watermark: u64,
    g: u64,
    q: int,
)
    requires
        is_compacted(before, after, chunks, watermark),
        after.live(g),
        0 <= q < after.rows(g).len(),
    ensures
        exists|f: u64, i: int|
            #![trigger before.rows(f)[i]]
            before.live(f) && 0 <= i < before.rows(f).len() && before.rows(f)[i].key == after.rows(
                g,
            )[q].key && before.rows(f)[i].version.begin_ts == after.rows(g)[q].version.begin_ts
                && before.rows(f)[i].version.value == after.rows(g)[q].version.value,
{
    if is_output(chunks, g) {
        let c = choose|c: int| 0 <= c < chunks.len() && (#[trigger] chunks[c]).1 == g;
        assert(holds_merge(after.rows(g), before, chunks[c].0, watermark));
        lemma_merge_row_from(after.rows(g), before, chunks[c].0, watermark, q);
        let (f, i) = choose|f: u64, i: int|
            #![trigger before.rows(f)[i]]
            chunks[c].0.contains(f) && 0 <= i < before.rows(f).len() && before.rows(f)[i].key
                == after.rows(g)[q].key && before.rows(f)[i].version.begin_ts == after.rows(
                g,
            )[q].version.begin_ts && before.rows(f)[i].version.value == after.rows(
                g,
            )[q].version.value;
        assert(is_input(chunks, f));
        assert(before.live(f));
        assert(before.rows(f)[i].key == after.rows(g)[q].key);
    } else {
        assert(before.live(g) && !is_input(chunks, g));
        assert(before.rows(g)[q] == after.rows(g)[q]);
    }
}

/// Compacting keeps files in agreement.
pub proof fn law_compaction_keeps_agreement(
    before: TablesModel,
    after: TablesModel,
    chunks: Seq<(Seq<u64>, u64)>,
    watermark: u64,
)
    requires
        is_compacted(before, after, chunks, watermark),
        before.agrees(),
    ensures
        after.agrees(),
{
    assert forall|a: u64, b: u64, i: int, j: int|
        #![trigger after.rows(a)[i], after.rows(b)[j]]
        after.live(a) && after.live(b) && 0 <= i < after.rows(a).len() && 0 <= j < after.rows(
            b,
        ).len() && after.rows(a)[i].key == after.rows(b)[j].key
            && after.rows(a)[i].version.begin_ts == after.rows(b)[j].version.begin_ts
        implies after.rows(a)[i].version.value == after.rows(b)[j].version.value by {
        lemma_stems_from(before, after, chunks, watermark, a, i);
        lemma_stems_from(before, after, chunks, watermark, b, j);
        let (f, x) = choose|f: u64, x: int|
            #![trigger before.rows(f)[x]]
            before.live(f) && 0 <= x < before.rows(f).len() && before.rows(f)[x].key == after.rows(
                a,
            )[i].key && before.rows(f)[x].version.begin_ts == after.rows(a)[i].version.begin_ts
                && before.rows(f)[x].version.value == after.rows(a)[i].version.value;
        let (g, y) = choose|g: u64, y: int|
            #![trigger before.rows(g)[y]]
            before.live(g) && 0 <= y < before.rows(g).len() && before.rows(g)[y].key == after.rows(
                b,
            )[j].key && before.rows(g)[y].version.begin_ts == after.rows(b)[j].version.begin_ts
                && before.rows(g)[y].version.value == after.rows(b)[j].version.value;
        assert(before.rows(f)[x].version.value == before.rows(g)[y].version.value);
    }
}

/// One of the first `n` handles is that of the file.
pub open spec fn has_id(hs: Seq<SstHandle>, n: int, k: u64) -> bool {
    exists|i: int| 0 <= i < n && (#[trigger] hs[i]).file_id == k
}

/// Which files a version set holds after the first `n` outputs were added.
pub proof fn lemma_adds_version(
    v: VersionSetModel,
    hs: Seq<SstHandle>,
    stamps: Seq<u64>,
    level: u32,
    n: int,
)
    requires
        0 <= n <= hs.len(),
        forall|i: int, j: int|
            0 <= i < j < hs.len() ==> (#[trigger] hs[i]).file_id != (#[trigger] hs[j]).file_id,
    ensures
        ({
            let w = v.replay(add_edits(hs, stamps, level).take(n));
            &&& forall|l: u32, k: u64| #[trigger]
                w.holds(l, k) <==> v.holds(l, k) || (l == level && has_id(hs, n, k))
            &&& forall|k: u64| #[trigger]
                w.meta.contains_key(k) <==> v.meta.contains_key(k) || has_id(hs, n, k)
            &&& forall|k: u64|
                v.meta.contains_key(k) && !has_id(hs, n, k) ==> #[trigger] w.meta[k] == v.meta[k]
            &&& forall|i: int|
                0 <= i < n ==> w.meta[(#[trigger] hs[i]).file_id] == handle_meta(hs[i], stamps[i])
            &&& w.dropped == v.dropped
            &&& w.next_file_id >= v.next_file_id
            &&& forall|i: int|
                0 <= i < n ==> w.next_file_id >= id_after((#[trigger] hs[i]).file_id)
        }),
    decreases n,
{
    let es = add_edits(hs, stamps, level);
    if n == 0 {
        assert(es.take(0) =~= Seq::<EditModel>::empty());
    } else {
        lemma_adds_version(v, hs, stamps, level, n - 1);
        assert(es.take(n).drop_last() =~= es.take(n - 1));
        let u = v.replay(es.take(n - 1));
        let w = v.replay(es.take(n));
        let e = es[n - 1];
        assert(es.take(n).last() == e);
        assert(w == u.apply(e));
        let id = hs[n - 1].file_id;
        assert forall|k: u64| has_id(hs, n, k) <==> has_id(hs, n - 1, k) || k == id by {
            if has_id(hs, n, k) {
                let i = choose|i: int| 0 <= i < n && (#[trigger] hs[i]).file_id == k;
                if i < n - 1 {
                    assert(has_id(hs, n - 1, k));
                }
            }
            if has_id(hs, n - 1, k) {
                let i = choose|i: int| 0 <= i < n - 1 && (#[trigger] hs[i]).file_id == k;
                assert(hs[i].file_id == k);
            }
            if k == id {
                assert(hs[n - 1].file_id == k);
            }
        }
        assert forall|l: u32, k: u64| #[trigger] w.holds(l, k) <==> v.holds(l, k) || (l == level
            && has_id(hs, n, k)) by {
            lemma_edit_holds(u, e, l, k);
            assert(u.holds(l, k) <==> v.holds(l, k) || (l == level && has_id(hs, n - 1, k)));
        }
        assert forall|k: u64| #[trigger] w.meta.contains_key(k) <==> v.meta.contains_key(k)
            || has_id(hs, n, k) by {
            assert(u.meta.contains_key(k) <==> v.meta.contains_key(k) || has_id(hs, n - 1, k));
        }
        assert forall|k: u64| v.meta.contains_key(k) && !has_id(hs, n, k) implies
            #[trigger] w.meta[k] == v.meta[k] by {
            assert(u.meta[k] == v.meta[k]);
        }
        assert forall|i: int| 0 <= i < n implies w.meta[(#[trigger] hs[i]).file_id] == handle_meta(
            hs[i],
            stamps[i],
        ) by {
            if i < n - 1 {
                assert(hs[i].file_id != hs[n - 1].file_id);
            }
        }
    }
}

/// The level from which a compaction retires an input.
pub open spec fn level_of_input(source_files: Set<u64>, sl: u32, tl: u32, k: u64) -> u32 {
    if source_files.contains(k) {
        sl
    } else {
        tl
    }
}

/// Which files a version set holds after the first `n` inputs were retired.
pub proof fn lemma_deletes_version(
    v: VersionSetModel,
    inputs: Seq<u64>,
    sf: Set<u64>,
    sl: u32,
    tl: u32,
    n: int,
)
    requires
        0 <= n <= inputs.len(),
    ensures
        ({
            let w = v.replay(delete_edits(inputs, sf, sl, tl).take(n));
            &&& forall|l: u32, k: u64| #[trigger]
                w.holds(l, k) <==> v.holds(l, k) && !(inputs.take(n).contains(k) && l
                    == level_of_input(sf, sl, tl, k))
            &&& forall|k: u64| #[trigger]
                w.meta.contains_key(k) <==> v.meta.contains_key(k) && !inputs.take(n).contains(k)
            &&& forall|k: u64| w.meta.contains_key(k) ==> #[trigger] w.meta[k] == v.meta[k]
            &&& w.dropped == v.dropped
            &&& w.next_file_id == v.next_file_id
        }),
    decreases n,
{
    let es = delete_edits(inputs, sf, sl, tl);
    if n == 0 {
        assert(es.take(0) =~= Seq::<EditModel>::empty());
    } else {
        lemma_deletes_version(v, inputs, sf, sl, tl, n - 1);
        assert(es.take(n).drop_last() =~= es.take(n - 1));
        let u = v.replay(es.take(n - 1));
        let w = v.replay(es.take(n));
        let e = es[n - 1];
        let id = inputs[n - 1];
        assert(es.take(n).last() == e);
        assert(w == u.apply(e));
        let here = inputs.take(n);
        let front = inputs.take(n - 1);
        assert forall|k: u64| #[trigger] here.contains(k) <==> front.contains(k) || k == id by {
            if here.contains(k) {
                let i = choose|i: int| 0 <= i < here.len() && here[i] == k;
                if i < n - 1 {
                    assert(front[i] == k);
                }
            }
            if front.contains(k) {
                let i = choose|i: int| 0 <= i < front.len() && front[i] == k;
                assert(here[i] == k);
            }
            assert(here[n - 1] == id);
        }
        assert forall|l: u32, k: u64| #[trigger] w.holds(l, k) <==> v.holds(l, k) && !(inputs.take(
            n,
        ).contains(k) && l == level_of_input(sf, sl, tl, k)) by {
            lemma_edit_holds(u, e, l, k);
            assert(u.holds(l, k) <==> v.holds(l, k) && !(inputs.take(n - 1).contains(k) && l
                == level_of_input(sf, sl, tl, k)));
        }
        assert forall|k: u64| #[trigger] w.meta.contains_key(k) <==> v.meta.contains_key(k)
            && !inputs.take(n).contains(k) by {
            assert(u.meta.contains_key(k) <==> v.meta.contains_key(k) && !inputs.take(
                n - 1,
            ).contains(k));
        }
        assert forall|k: u64| w.meta.contains_key(k) implies #[trigger] w.meta[k] == v.meta[k] by {
            assert(u.meta[k] == v.meta[k]);
        }
    }
}

/// Which files a version set holds after a compaction: the inputs are gone,
/// the outputs are on the target level, and everything else is untouched.
pub proof fn law_compaction_replaces_files(
    m: TablesModel,
    inputs: Seq<u64>,
    sl: u32,
    tl: u32,
    hs: Seq<SstHandle>,
    stamps: Seq<u64>,
)
    requires
        m.well_kept(),
        lists(inputs, m.version.files(sl).union(m.version.files(tl))),
        forall|i: int|
            0 <= i < hs.len() ==> m.version.next_file_id <= (#[trigger] hs[i]).file_id < u64::MAX,
        forall|i: int, j: int|
            0 <= i < j < hs.len() ==> (#[trigger] hs[i]).file_id != (#[trigger] hs[j]).file_id,
    ensures
        ({
            let v = m.version;
            let n = hs.len() as int;
            let w = v.replay(
                compaction_edit_models(inputs, v.files(sl), sl, tl, hs, stamps),
            );
            &&& forall|l: u32, k: u64| #[trigger]
                w.holds(l, k) <==> (v.holds(l, k) && !inputs.contains(k)) || (l == tl && has_id(
                    hs,
                    n,
                    k,
                ))
            &&& forall|k: u64| #[trigger]
                w.meta.contains_key(k) <==> (v.meta.contains_key(k) && !inputs.contains(k))
                    || has_id(hs, n, k)
            &&& forall|k: u64|
                v.meta.contains_key(k) && !inputs.contains(k) ==> #[trigger] w.meta[k] == v.meta[k]
            &&& forall|i: int|
                0 <= i < n ==> w.meta[(#[trigger] hs[i]).file_id] == handle_meta(hs[i], stamps[i])
            &&& w.dropped == v.dropped
            &&& w.next_file_id >= v.next_file_id
            &&& forall|i: int| 0 <= i < n ==> w.next_file_id > (#[trigger] hs[i]).file_id
        }),
{
    let v = m.version;
    let n = hs.len() as int;
    let adds = add_edits(hs, stamps, tl);
    let next = seq![EditModel::NextFileId(id_after(highest_id(hs)))];
    let dels = delete_edits(inputs, v.files(sl), sl, tl);
    let all = compaction_edit_models(inputs, v.files(sl), sl, tl, hs, stamps);
    lemma_replay_concat(v, adds + next, dels);
    lemma_replay_concat(v, adds, next);
    lemma_adds_version(v, hs, stamps, tl, n);
    assert(adds.take(n) =~= adds);
    let a = v.replay(adds);
    let b = a.replay(next);
    assert(next.drop_last() =~= Seq::<EditModel>::empty());
    assert(a.replay(next.drop_last()) == a);
    assert(b == a.apply(next[0]));
    lemma_deletes_version(b, inputs, v.files(sl), sl, tl, inputs.len() as int);
    assert(dels.take(inputs.len() as int) =~= dels);
    assert(inputs.take(inputs.len() as int) =~= inputs);
    let w = v.replay(all);
    assert(w == b.replay(dels));
    assert forall|k: u64| inputs.contains(k) implies m.live(k) && !has_id(hs, n, k) && v.holds(
        level_of_input(v.files(sl), sl, tl, k),
        k,
    ) by {
        assert(v.files(sl).union(v.files(tl)).contains(k));
        assert(v.holds(level_of_input(v.files(sl), sl, tl, k), k));
        assert(m.live(k));
        assert(m.file_kept(k));
        if has_id(hs, n, k) {
            let i = choose|i: int| 0 <= i < n && (#[trigger] hs[i]).file_id == k;
            assert(hs[i].file_id >= v.next_file_id);
        }
    }
    assert forall|l: u32, k: u64| #[trigger] w.holds(l, k) <==> (v.holds(l, k) && !inputs.contains(
        k,
    )) || (l == tl && has_id(hs, n, k)) by {
        lemma_edit_holds(a, next[0], l, k);
        assert(a.holds(l, k) <==> v.holds(l, k) || (l == tl && has_id(hs, n, k)));
        let at = level_of_input(v.files(sl), sl, tl, k);
        assert(w.holds(l, k) <==> b.holds(l, k) && !(inputs.contains(k) && l == at));
        if inputs.contains(k) && v.holds(l, k) {
            assert(v.holds(at, k));
            assert(l == at);
        }
    }
    assert forall|k: u64| #[trigger] w.meta.contains_key(k) <==> (v.meta.contains_key(k)
        && !inputs.contains(k)) || has_id(hs, n, k) by {
        assert(b.meta == a.meta);
        assert(a.meta.contains_key(k) <==> v.meta.contains_key(k) || has_id(hs, n, k));
    }
    assert forall|k: u64| v.meta.contains_key(k) && !inputs.contains(k) implies #[trigger] w.meta[k]
        == v.meta[k] by {
        assert(m.live(k));
        assert(m.file_kept(k));
        if has_id(hs, n, k) {
            let i = choose|i: int| 0 <= i < n && (#[trigger] hs[i]).file_id == k;
            assert(hs[i].file_id >= v.next_file_id);
        }
        assert(a.meta[k] == v.meta[k]);
        assert(w.meta.contains_key(k));
    }
    assert forall|i: int| 0 <= i < n implies w.meta[(#[trigger] hs[i]).file_id] == handle_meta(
        hs[i],
        stamps[i],
    ) by {
        assert(has_id(hs, n, hs[i].file_id));
        assert(w.meta.contains_key(hs[i].file_id));
        assert(w.meta[hs[i].file_id] == b.meta[hs[i].file_id]);
    }
    assert forall|i: int| 0 <= i < n implies w.next_file_id > (#[trigger] hs[i]).file_id by {
        assert(a.next_file_id >= id_after(hs[i].file_id));
    }
}

/// What a finished compaction has written: every chunk's merge under a new
/// id, with a handle that describes it.
pub open spec fn is_written(
    before: TablesModel,
    after: TablesModel,
    chunks: Seq<Seq<u64>>,
    outs: Seq<Seq<RowModel>>,
    hs: Seq<SstHandle>,
    watermark: u64,
) -> bool {
    &&& outs.len() == chunks.len()
    &&& hs.len() == chunks.len()
    &&& forall|c: int|
        0 <= c < chunks.len() ==> {
            &&& is_merged(#[trigger] outs[c], rows_all(before, chunks[c]), watermark)
            &&& in_order(outs[c])
            &&& describes(hs[c], outs[c], (before.version.next_file_id + c) as u64)
            &&& after.stored.contains_key(after.path(hs[c].file_id))
            &&& after.rows(hs[c].file_id) == untagged_rows(outs[c])
        }
}

/// The chunks with their outputs.
pub open spec fn with_outputs(chunks: Seq<Seq<u64>>, hs: Seq<SstHandle>) -> Seq<(Seq<u64>, u64)> {
    Seq::new(chunks.len(), |c: int| (chunks[c], hs[c].file_id))
}

/// The chunks hold exactly the inputs.
pub open spec fn chunks_cover(chunks: Seq<Seq<u64>>, inputs: Seq<u64>) -> bool {
    forall|k: u64| #[trigger]
        inputs.contains(k) <==> exists|c: int|
            0 <= c < chunks.len() && (#[trigger] chunks[c]).contains(k)
}

/// A finished compaction replaced the inputs by their merges and keeps the
/// files well kept.
pub proof fn law_compaction_keeps_files(
    before: TablesModel,
    after: TablesModel,
    inputs: Seq<u64>,
    sl: u32,
    tl: u32,
    chunks: Seq<Seq<u64>>,
    outs: Seq<Seq<RowModel>>,
    hs: Seq<SstHandle>,
    stamps: Seq<u64>,
    watermark: u64,
)
    requires
        before.well_kept(),
        lists(inputs, before.version.files(sl).union(before.version.files(tl))),
        before.version.next_file_id + hs.len() < u64::MAX,
        is_written(before, after, chunks, outs, hs, watermark),
        chunks_cover(chunks, inputs),
        after.dir == before.dir,
        after.version == before.version.replay(
            compaction_edit_models(inputs, before.version.files(sl), sl, tl, hs, stamps),
        ),
        forall|k: u64|
            before.live(k) && !inputs.contains(k) ==> after.stored.contains_key(
                #[trigger] after.path(k),
            ) && after.stored[after.path(k)] == before.stored[before.path(k)],
    ensures
        is_compacted(before, after, with_outputs(chunks, hs), watermark),
        after.well_kept(),
{
    let base = before.version.next_file_id;
    let n = hs.len() as int;
    let pairs = with_outputs(chunks, hs);
    assert forall|i: int| 0 <= i < hs.len() implies base <= (#[trigger] hs[i]).file_id < u64::MAX
        && hs[i].file_id == base + i by {
        assert(is_merged(outs[i], rows_all(before, chunks[i]), watermark));
    }
    assert forall|i: int, j: int| 0 <= i < j < hs.len() implies (#[trigger] hs[i]).file_id != (
    #[trigger] hs[j]).file_id by {}
    law_compaction_replaces_files(before, inputs, sl, tl, hs, stamps);
    let v = before.version;
    let w = after.version;
    assert forall|k: u64| is_output(pairs, k) <==> has_id(hs, n, k) by {
        if is_output(pairs, k) {
            let c = choose|c: int| 0 <= c < pairs.len() && (#[trigger] pairs[c]).1 == k;
            assert(hs[c].file_id == k);
        }
        if has_id(hs, n, k) {
            let i = choose|i: int| 0 <= i < n && (#[trigger] hs[i]).file_id == k;
            assert(pairs[i].1 == k);
        }
    }
    assert forall|k: u64| is_input(pairs, k) <==> inputs.contains(k) by {
        if is_input(pairs, k) {
            let c = choose|c: int| 0 <= c < pairs.len() && (#[trigger] pairs[c]).0.contains(k);
            assert(chunks[c].contains(k));
        }
        if inputs.contains(k) {
            let c = choose|c: int| 0 <= c < chunks.len() && (#[trigger] chunks[c]).contains(k);
            assert(pairs[c].0.contains(k));
        }
    }
    assert forall|k: u64| #[trigger] after.live(k) <==> is_output(pairs, k) || (before.live(k)
        && !is_input(pairs, k)) by {
        if after.live(k) {
            let l = choose|l: u32| #[trigger] w.holds(l, k);
            if !(l == tl && has_id(hs, n, k)) {
                assert(v.holds(l, k));
            }
        }
        if is_output(pairs, k) {
            assert(w.holds(tl, k));
        }
        if before.live(k) && !is_input(pairs, k) {
            let l = choose|l: u32| #[trigger] v.holds(l, k);
            assert(w.holds(l, k));
        }
    }
    assert forall|k: u64| #[trigger] is_input(pairs, k) implies before.live(k) by {
        assert(v.files(sl).union(v.files(tl)).contains(k));
        assert(v.holds(level_of_input(v.files(sl), sl, tl, k), k));
    }
    assert forall|k: u64| #[trigger] before.live(k) && !is_input(pairs, k) implies after.rows(k)
        == before.rows(k) by {
        assert(after.stored.contains_key(after.path(k)));
    }
    assert forall|c: int| 0 <= c < pairs.len() implies holds_merge(
        after.rows((#[trigger] pairs[c]).1),
        before,
        pairs[c].0,
        watermark,
    ) by {
        assert(is_merged(outs[c], rows_all(before, chunks[c]), watermark));
    }
    assert forall|k: u64| #[trigger] after.live(k) implies after.file_kept(k) by {
        if is_output(pairs, k) {
            let c = choose|c: int| 0 <= c < n && (#[trigger] hs[c]).file_id == k;
            lemma_output_kept(before, after, chunks, outs, hs, stamps, watermark, c);
        } else {
            assert(before.file_kept(k));
            assert(after.stored.contains_key(after.path(k)));
            assert(w.meta[k] == v.meta[k]);
            assert(w.meta.contains_key(k));
        }
    }
    assert forall|k: u64| #[trigger] w.meta.contains_key(k) implies after.live(k) by {
        if !has_id(hs, n, k) {
            assert(v.meta.contains_key(k));
            assert(before.live(k));
        }
    }
    assert forall|a: u32, b: u32, k: u64| #[trigger] w.holds(a, k) && #[trigger] w.holds(
        b,
        k,
    ) implies a == b by {
        if has_id(hs, n, k) {
            let c = choose|c: int| 0 <= c < n && (#[trigger] hs[c]).file_id == k;
            if v.holds(a, k) || v.holds(b, k) {
                assert(before.live(k));
                assert(before.file_kept(k));
            }
        } else {
            assert(v.holds(a, k) && v.holds(b, k));
        }
    }
}

/// A written output that is recorded is kept.
pub proof fn lemma_output_kept(
    before: TablesModel,
    after: TablesModel,
    chunks: Seq<Seq<u64>>,
    outs: Seq<Seq<RowModel>>,
    hs: Seq<SstHandle>,
    stamps: Seq<u64>,
    watermark: u64,
    c: int,
)
    requires
        is_written(before, after, chunks, outs, hs, watermark),
        0 <= c < hs.len(),
        after.version.meta.contains_key(hs[c].file_id),
        after.version.meta[hs[c].file_id] == handle_meta(hs[c], stamps[c]),
        hs[c].file_id < after.version.next_file_id,
    ensures
        after.file_kept(hs[c].file_id),
{
    let id = hs[c].file_id;
    let all = rows_all(before, chunks[c]);
    assert(is_merged(outs[c], all, watermark));
    let s = choose|s: Seq<RowModel>| #[trigger]
        lists_versions(s, all) && outs[c] == collapsed(s, watermark);
    law_merged_settled(s, watermark);
    lemma_untagged_settled(outs[c]);
    let us = untagged_rows(outs[c]);
    lemma_in_order_sorted(us);
    assert(first_key(us) == first_key(outs[c]));
    assert(last_key(us) == last_key(outs[c]));
    assert forall|i: int| 0 <= i < after.rows(id).len() implies covers(
        after.version.meta[id],
        (#[trigger] after.rows(id)[i]).key,
    ) by {
        lemma_bounds_cover(us, handle_meta(hs[c], stamps[c]), i);
    }
}

} // verus!
