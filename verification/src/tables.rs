//! The SSTs of an engine: manifest, files, sidecars and statistics.

use crate::batches::schema_view;
use crate::buf::{
    bytes_slice, in_range, key_less, lemma_lex_total, lemma_lex_transitive, lex_lt, ByteMap,
};
use crate::column_predicate::PredicateModel;
use crate::column_stats::{
    compute_column_stats, is_file_stats, schema_map, schema_table, schema_table_of, stats_map,
    stats_wf, StatsModel, TableColumnStats,
};
use crate::compact_plan::{
    add_row_counts, apply_row_delta, capped_count, changed_all, chunk_views, chunks_of,
    compaction_edit_models, compaction_edits, compaction_inputs, flat, handle_meta, is_grown,
    law_split_partitions, split, split_by_size,
};
use crate::error::Result;
use crate::file_io::{file_bytes, FileIO};
use crate::id_map::IdMap;
use crate::key_index::{lemma_visible_is_a_row, lookup_visible, rows_sorted, untagged_rows};
use crate::keys::{key_table_prefix, table_prefix, table_prefix_of};
use crate::listing::lists;
use crate::manifest::{all_fit, Manifest};
use crate::memtable::{row_models, RowModel, VersionedRow};
use crate::merge::{
    count_at, count_rows_by_prefix, counts_rows, dedup_superseded, in_order, insert_newest,
    is_delta, is_merged, prefix_count_delta, version_map,
};
use crate::metrics::wrapped;
use crate::name_map::NameMap;
use crate::paths::{bloom_path_of, key_index_path_of, law_paths_are_distinct, sst_path, sst_path_of};
use crate::scalar::TypeModel;
use crate::scans::{
    is_pruned, kept_rows, lemma_newest_concat, lemma_nothing_offered, lemma_offered_twice,
    newest_of_all, offered, offered_by, searched,
};
use crate::schema::{FieldModel, Schema};
use crate::sidecars::{filter_file_fits, index_file_fits, may_hold, Sidecars};
use crate::sst_format::{
    answered, may_look_up, may_read_rows, may_remove, may_scan, may_store, opt_version, scanned,
    SstFormat, SstHandle,
};
use crate::tables_laws::{
    chunks_cover, flush_edits, is_compacted, is_flushed, is_input, is_output, is_written,
    law_compaction_keeps_files, law_compaction_replaces_files, law_flush_keeps_files,
    lemma_flush_live, lemma_flush_version, rows_all, with_outputs,
};
use crate::tables_model::{lemma_in_order_sorted, settled, TablesModel};
use crate::version::{Snapshot, VersionModel, VersionedValue};
use crate::version_set::{
    covers, edit_models, ids_of, key_id_lt, lists_files, EditModel, MetaModel, VersionEdit,
    VersionSet, VersionSetModel,
};
use crate::vortex_sst::describes;
use crate::watch::later;
use vstd::prelude::*;

verus! {

/// The SSTs of an engine.
pub struct Tables<F: FileIO, S: SstFormat> {
    dir: String,
    format: S,
    manifest: Manifest<F>,
    sidecars: Sidecars<F>,
    column_stats: IdMap<NameMap<TableColumnStats>>,
    schemas: NameMap<Schema>,
    sst_row_count: usize,
    table_rows: ByteMap<usize>,
    stats_version: u64,
}

/// What cached column statistics say.
pub open spec fn file_stats(m: Map<u64, NameMap<TableColumnStats>>) -> Map<
    u64,
    Map<Seq<char>, StatsModel>,
> {
    m.map_values(|t: NameMap<TableColumnStats>| stats_map(t@))
}

impl<F: FileIO, S: SstFormat> View for Tables<F, S> {
    type V = TablesModel;

    closed spec fn view(&self) -> TablesModel {
        TablesModel {
            dir: self.dir@,
            version: self.manifest.state(),
            stored: self.format.stored(),
            schemas: schema_map(self.schemas@),
            stats: file_stats(self.column_stats@),
            row_count: self.sst_row_count,
            table_rows: self.table_rows@,
            stats_version: self.stats_version,
        }
    }
}

/// `ids` lists the files of a version set, by level and then by id.
pub open spec fn is_listing(ids: Seq<u64>, v: VersionSetModel) -> bool {
    exists|ps: Seq<(u32, u64)>| #[trigger] lists_files(ps, v.levels) && ids == ids_of(ps)
}

/// A listing holds exactly the live files.
pub proof fn lemma_listing_is_live(ids: Seq<u64>, m: TablesModel, id: u64)
    requires
        is_listing(ids, m.version),
    ensures
        ids.contains(id) <==> m.live(id),
{
    let ps = choose|ps: Seq<(u32, u64)>| #[trigger]
        lists_files(ps, m.version.levels) && ids == ids_of(ps);
    if ids.contains(id) {
        let i = choose|i: int| 0 <= i < ids.len() && ids[i] == id;
        assert(ids[i] == ps[i].1);
        assert(ps.contains(ps[i]));
        assert(m.version.holds(ps[i].0, id));
    }
    if m.live(id) {
        let l = choose|l: u32| #[trigger] m.version.holds(l, id);
        assert(m.version.levels.contains_key(l) && m.version.levels[l].contains(id));
        assert(ps.contains((l, id)));
        let i = choose|i: int| 0 <= i < ps.len() && ps[i] == (l, id);
        assert(ids[i] == id);
    }
}

/// `v` is the newest of the versions that the first `n` files show.
spec fn newest_among(
    m: TablesModel,
    ids: Seq<u64>,
    n: int,
    key: Seq<u8>,
    ts: u64,
    v: Option<VersionModel>,
) -> bool {
    match v {
        None => forall|j: int|
            0 <= j < n ==> lookup_visible(m.rows(#[trigger] ids[j]), key, ts) is None,
        Some(v) => {
            &&& exists|j: int|
                0 <= j < n && lookup_visible(m.rows(#[trigger] ids[j]), key, ts) == Some(v)
            &&& forall|j: int|
                0 <= j < n ==> (lookup_visible(m.rows(#[trigger] ids[j]), key, ts) matches Some(w)
                    ==> w.begin_ts <= v.begin_ts)
        },
    }
}

/// Files whose bounds do not cover a key hold nothing of it.
proof fn lemma_candidates_suffice(
    m: TablesModel,
    ids: Seq<u64>,
    key: Seq<u8>,
    ts: u64,
    v: Option<VersionModel>,
)
    requires
        m.well_kept(),
        forall|id: u64| #[trigger]
            ids.contains(id) <==> m.version.meta.contains_key(id) && covers(
                m.version.meta[id],
                key,
            ),
        newest_among(m, ids, ids.len() as int, key, ts, v),
    ensures
        m.newest(key, ts, v),
{
    assert forall|id: u64| #[trigger] m.live(id) && !ids.contains(id) implies lookup_visible(
        m.rows(id),
        key,
        ts,
    ) is None by {
        assert(m.file_kept(id));
        lemma_visible_is_a_row(m.rows(id), key, ts);
        if lookup_visible(m.rows(id), key, ts) is Some {
            let v = lookup_visible(m.rows(id), key, ts)->0;
            let i = choose|i: int|
                0 <= i < m.rows(id).len() && (#[trigger] m.rows(id)[i]).key == key && m.rows(
                    id,
                )[i].version == v;
            assert(covers(m.version.meta[id], m.rows(id)[i].key));
        }
    }
    assert forall|id: u64| #[trigger] m.live(id) && ids.contains(id) implies exists|j: int|
        0 <= j < ids.len() && #[trigger] ids[j] == id by {}
    if v is Some {
        let j = choose|j: int|
            0 <= j < ids.len() && lookup_visible(m.rows(#[trigger] ids[j]), key, ts) == v;
        assert(ids.contains(ids[j]));
        assert(m.live(ids[j]));
    }
}

/// The newest of the versions that were found; of equally new ones the first.
pub open spec fn newest_found(found: Seq<Option<VersionedValue>>) -> Option<VersionModel>
    decreases found.len(),
{
    if found.len() == 0 {
        None
    } else {
        let front = newest_found(found.drop_last());
        match (front, opt_version(found.last())) {
            (Some(a), Some(b)) => if b.begin_ts > a.begin_ts {
                Some(b)
            } else {
                Some(a)
            },
            (None, b) => b,
            (a, None) => a,
        }
    }
}

/// `ids` are the files whose bounds cover `key`, from the largest smallest key
/// down.
pub open spec fn are_candidates(ids: Seq<u64>, v: VersionSetModel, key: Seq<u8>) -> bool {
    &&& forall|id: u64| #[trigger]
        ids.contains(id) <==> v.meta.contains_key(id) && covers(v.meta[id], key)
    &&& forall|i: int, j: int|
        #![trigger ids[i], ids[j]]
        0 <= i < j < ids.len() ==> key_id_lt(
            v.meta[ids[j]].min_key,
            ids[j],
            v.meta[ids[i]].min_key,
            ids[i],
        )
}

impl<F: FileIO, S: SstFormat> Tables<F, S> {
    /// Every part is in order.
    pub closed spec fn wf(&self) -> bool {
        &&& self.format.wf()
        &&& self.manifest.wf()
        &&& self.sidecars.wf()
        &&& self.sidecars.dir() == self.dir@
        &&& self.column_stats.wf()
        &&& forall|id: u64| #[trigger]
            self.column_stats@.contains_key(id) ==> stats_wf(self.column_stats@[id])
        &&& self.schemas.wf()
        &&& self.table_rows.wf()
    }

    /// The format of the files.
    pub closed spec fn format(&self) -> S {
        self.format
    }

    /// The record of the files.
    pub closed spec fn manifest(&self) -> Manifest<F> {
        self.manifest
    }

    /// The sidecars of the files.
    pub closed spec fn sidecars(&self) -> Sidecars<F> {
        self.sidecars
    }

    /// `self` is `before` after `key` was looked up in one file, with the
    /// outcome `r`: a filter that does not admit the key proves it absent, an
    /// index answers by itself, and else the file is read, which may fail.
    pub open spec fn looked_up(
        &self,
        before: &Self,
        id: u64,
        key: Seq<u8>,
        ts: u64,
        r: Result<Option<VersionedValue>>,
    ) -> bool {
        exists|mid: Sidecars<F>| #[trigger]
            mid.filter_sought(&before.sidecars(), id) && if mid.filters().contains_key(id)
                && !may_hold(mid.filters()[id], key) {
                self.sidecars() == mid && (r matches Ok(v) && v is None)
            } else {
                &&& self.sidecars().index_sought(&mid, id)
                &&& if self.sidecars().indexes().contains_key(id) {
                    let rs = self.sidecars().indexes()[id].rows();
                    r matches Ok(v) && (rows_sorted(rs) ==> opt_version(v) == lookup_visible(
                        rs,
                        key,
                        ts,
                    ))
                } else {
                    &&& may_look_up(before.format(), before@.path(id), key, ts, r is Ok)
                    &&& r matches Ok(v) ==> opt_version(v) == lookup_visible(
                        before@.rows(id),
                        key,
                        ts,
                    )
                }
            }
    }

    /// Looking `key` up in the files `ids`, one after the other, led from
    /// `self` through the states `ts` and gave `found`.
    pub open spec fn walks(
        &self,
        ts: Seq<Self>,
        ids: Seq<u64>,
        key: Seq<u8>,
        at: u64,
        found: Seq<Option<VersionedValue>>,
    ) -> bool {
        &&& ts.len() == found.len() + 1
        &&& found.len() <= ids.len()
        &&& ts[0] == *self
        &&& forall|i: int|
            0 <= i < found.len() ==> ts[i + 1].looked_up(
                &ts[i],
                ids[i],
                key,
                at,
                Ok(#[trigger] found[i]),
            )
    }

    /// `self` is `before` after `key` was looked up in the files whose bounds
    /// cover it, with the outcome `r`: the newest version that was found, or
    /// the error of the file at which it stopped.
    pub open spec fn sought(
        &self,
        before: &Self,
        key: Seq<u8>,
        at: u64,
        r: Result<Option<VersionedValue>>,
    ) -> bool {
        exists|ts: Seq<Self>, ids: Seq<u64>, found: Seq<Option<VersionedValue>>|
            are_candidates(ids, before@.version, key) && #[trigger] before.walks(
                ts,
                ids,
                key,
                at,
                found,
            ) && match r {
                Ok(v) => found.len() == ids.len() && ts.last() == *self && opt_version(v)
                    == newest_found(found),
                Err(e) => found.len() < ids.len() && self.looked_up(
                    &ts.last(),
                    ids[found.len() as int],
                    key,
                    at,
                    r,
                ),
            }
    }

    /// Looking `key` up may fail in a file whose bounds cover it.
    pub open spec fn get_may_fail(&self, key: Seq<u8>, ts: u64) -> bool {
        exists|id: u64|
            #![trigger self@.version.meta[id]]
            self@.version.meta.contains_key(id) && covers(self@.version.meta[id], key)
                && may_look_up(self.format(), self@.path(id), key, ts, false)
    }

    /// Scanning a key range may fail in a file.
    pub open spec fn range_may_fail(&self, lower: Seq<u8>, upper: Seq<u8>, ts: u64) -> bool {
        exists|id: u64| #[trigger]
            self@.live(id) && !is_pruned(self@, id, lower, upper) && may_scan(
                self.format(),
                self@.path(id),
                lower,
                upper,
                ts,
                None,
                None,
                None,
                false,
            )
    }

    /// A file may fail to be read.
    pub open spec fn files_may_fail(&self) -> bool {
        exists|id: u64| #[trigger]
            self@.live(id) && may_read_rows(self.format(), self@.path(id), false)
    }

    /// The sidecars of the file describe its rows.
    pub closed spec fn described(&self, id: u64) -> bool {
        self.sidecars.fits(id, self@.rows(id))
    }

    /// No sidecar is left over from a file that was never recorded.
    pub closed spec fn clean_ahead(&self) -> bool {
        forall|id: u64| id >= self@.version.next_file_id ==> #[trigger] self.sidecars.bare(id)
    }

    /// Files, records and sidecars belong together.
    pub open spec fn sound(&self) -> bool {
        &&& self@.well_kept()
        &&& forall|id: u64| #[trigger] self@.live(id) ==> self.described(id)
    }

    /// Returns whether the key belongs to a dropped table.
    pub fn is_dropped_prefix(&self, key: &[u8]) -> (r: bool)
        requires
            self.wf(),
        ensures
            r == self@.is_dropped(key@),
    {
        self.manifest.version_set().is_dropped(key_table_prefix(key))
    }

    /// Finds the newest version that the files show of `key` at a snapshot.
    ///
    /// Every file whose bounds cover the key is asked, through its sidecars
    /// where it has them: a filter that does not admit the key proves it
    /// absent, and an index answers without opening the file.
    pub fn get_version(&mut self, key: &[u8], snapshot_ts: u64) -> (r: Result<
        Option<VersionedValue>,
    >)
        requires
            old(self).wf(),
        ensures
            final(self).wf(),
            final(self)@ == old(self)@,
            old(self).sound() ==> final(self).sound(),
            old(self).clean_ahead() ==> final(self).clean_ahead(),
            final(self).format() == old(self).format(),
            r is Err ==> old(self).get_may_fail(key@, snapshot_ts),
            final(self).sought(old(self), key@, snapshot_ts, r),
            old(self)@.no_file_covers(key@) ==> r matches Ok(None),
            old(self).sound() ==> (r matches Ok(v) ==> old(self)@.newest(
                key@,
                snapshot_ts,
                opt_version(v),
            )),
    {
        let version_set = self.manifest.version_set();
        let candidates = version_set.candidate_files(key);
        let mut newest: Option<VersionedValue> = None;
        let ghost m = self@;
        let ghost mut ts: Seq<Self> = seq![*self];
        let ghost mut founds: Seq<Option<VersionedValue>> = Seq::empty();
        assert(are_candidates(candidates@, m.version, key@));
        let mut i: usize = 0;
        proof {
            if m.no_file_covers(key@) && candidates@.len() > 0 {
                assert(candidates@.contains(candidates@[0]));
                assert(!covers(m.version.meta[candidates@[0]], key@));
            }
        }
        while i < candidates.len()
            invariant
                i <= candidates@.len(),
                self.wf(),
                self@ == m,
                m == old(self)@,
                self.format() == old(self).format(),
                m.no_file_covers(key@) ==> candidates@.len() == 0,
                candidates@.len() == 0 ==> newest is None,
                old(self).walks(ts, candidates@, key@, snapshot_ts, founds),
                founds.len() == i,
                ts.last() == *self,
                opt_version(newest) == newest_found(founds),
                are_candidates(candidates@, m.version, key@),
                forall|id: u64| #[trigger]
                    candidates@.contains(id) <==> m.version.meta.contains_key(id) && covers(
                        m.version.meta[id],
                        key@,
                    ),
                old(self).sound() ==> self.sound(),
                old(self).clean_ahead() ==> self.clean_ahead(),
                old(self).sound() ==> newest_among(
                    m,
                    candidates@,
                    i as int,
                    key@,
                    snapshot_ts,
                    opt_version(newest),
                ),
            decreases candidates@.len() - i,
        {
            let file_id: u64 = candidates[i];
            assert(candidates@.contains(candidates@[i as int]));
            let found = match self.find_in(file_id, key, snapshot_ts) {
                Ok(v) => v,
                Err(e) => {
                    proof {
                        assert(self.sought(old(self), key@, snapshot_ts, Err(e)));
                        assert(covers(old(self)@.version.meta[file_id], key@));
                        assert(may_look_up(
                            old(self).format(),
                            old(self)@.path(file_id),
                            key@,
                            snapshot_ts,
                            false,
                        ));
                    }
                    return Err(e);
                },
            };
            proof {
                assert(candidates@.contains(candidates@[i as int]));
                let reached = ts;
                let earlier = founds;
                ts = ts.push(*self);
                founds = founds.push(found);
                assert(founds.drop_last() =~= earlier);
                assert forall|c: int| 0 <= c < founds.len() implies ts[c + 1].looked_up(
                    &ts[c],
                    candidates@[c],
                    key@,
                    snapshot_ts,
                    Ok(#[trigger] founds[c]),
                ) by {
                    if c < i {
                        assert(founds[c] == earlier[c]);
                        assert(reached[c + 1].looked_up(
                            &reached[c],
                            candidates@[c],
                            key@,
                            snapshot_ts,
                            Ok(earlier[c]),
                        ));
                    }
                }
            }
            let ghost before = opt_version(newest);
            match found {
                Some(version) => {
                    let newer = match &newest {
                        Some(current) => version.begin_ts > current.begin_ts,
                        None => true,
                    };
                    if newer {
                        newest = Some(version);
                    }
                    proof {
                        if old(self).sound() {
                            let id = candidates@[i as int];
                            assert(m.version.meta.contains_key(id));
                            assert(m.live(id));
                            assert(lookup_visible(m.rows(id), key@, snapshot_ts) == Some(
                                version@,
                            ));
                            if !newer {
                                let j = choose|j: int|
                                    0 <= j < i && lookup_visible(
                                        m.rows(#[trigger] candidates@[j]),
                                        key@,
                                        snapshot_ts,
                                    ) == before;
                                assert(j < i + 1);
                            }
                        }
                    }
                },
                None => {
                    proof {
                        if old(self).sound() {
                            let id = candidates@[i as int];
                            assert(m.version.meta.contains_key(id));
                            assert(m.live(id));
                            if before is Some {
                                let j = choose|j: int|
                                    0 <= j < i && lookup_visible(
                                        m.rows(#[trigger] candidates@[j]),
                                        key@,
                                        snapshot_ts,
                                    ) == before;
                                assert(j < i + 1);
                            }
                        }
                    }
                },
            }
            i += 1;
        }
        proof {
            if old(self).sound() {
                lemma_candidates_suffice(m, candidates@, key@, snapshot_ts, opt_version(newest));
            }
        }
        Ok(newest)
    }

    /// Finds the first version that one file shows of `key` at a snapshot.
    fn find_in(&mut self, file_id: u64, key: &[u8], snapshot_ts: u64) -> (r: Result<
        Option<VersionedValue>,
    >)
        requires
            old(self).wf(),
        ensures
            final(self).wf(),
            final(self)@ == old(self)@,
            old(self).sound() ==> final(self).sound(),
            old(self).clean_ahead() ==> final(self).clean_ahead(),
            old(self).sound() && old(self)@.live(file_id) ==> (r matches Ok(v) ==> opt_version(v)
                == lookup_visible(old(self)@.rows(file_id), key@, snapshot_ts)),
            final(self).looked_up(old(self), file_id, key@, snapshot_ts, r),
            final(self).format() == old(self).format(),
    {
        let ghost m = self@;
        let ghost rs = m.rows(file_id);
        let admitted = self.sidecars.admits(file_id, key);
        proof {
            if old(self).sound() && m.live(file_id) {
                assert(m.file_kept(file_id));
                lemma_in_order_sorted(rs);
                lemma_visible_is_a_row(rs, key@, snapshot_ts);
                assert(old(self).described(file_id));
                assert(old(self).sidecars.filter_fits(file_id, rs));
            }
            assert(self@ =~= m);
            lemma_kept_sound(*old(self), *self);
        }
        assert(self.sidecars().filter_sought(&old(self).sidecars(), file_id));
        if !admitted {
            proof {
                if old(self).sound() && m.live(file_id) {
                    if lookup_visible(rs, key@, snapshot_ts) is Some {
                        let v = lookup_visible(rs, key@, snapshot_ts)->0;
                        let j = choose|j: int|
                            0 <= j < rs.len() && (#[trigger] rs[j]).key == key@ && rs[j].version
                                == v;
                        assert(rs[j].key == key@);
                    }
                }
            }
            return Ok(None);
        }
        let ghost mid = *self;
        let indexed = self.sidecars.find(file_id, key, snapshot_ts);
        proof {
            assert(self@ =~= m);
            lemma_kept_sound(mid, *self);
            if old(self).sound() && m.live(file_id) {
                assert(mid.described(file_id));
                assert(mid.sidecars.index_fits(file_id, rs));
            }
        }
        assert(mid.sidecars().filter_sought(&old(self).sidecars(), file_id));
        match indexed {
            Some(v) => Ok(v),
            None => {
                let path = sst_path(self.dir.as_str(), file_id);
                self.format.get(path.as_str(), key, Snapshot::new(snapshot_ts))
            },
        }
    }
}

/// What the sidecars keep keeps the files sound.
proof fn lemma_kept_sound<F: FileIO, S: SstFormat>(before: Tables<F, S>, after: Tables<F, S>)
    requires
        after@ == before@,
        after.sidecars.keeps(&before.sidecars, None),
    ensures
        before.sound() ==> after.sound(),
        before.clean_ahead() ==> after.clean_ahead(),
{
    if before.sound() {
        assert forall|id: u64| #[trigger] after@.live(id) implies after.described(id) by {
            assert(before.described(id));
            assert(before.sidecars.fits(id, before@.rows(id)));
        }
    }
    if before.clean_ahead() {
        assert forall|id: u64| id >= after@.version.next_file_id implies
            #[trigger] after.sidecars.bare(id) by {
            assert(before.sidecars.bare(id));
        }
    }
}

// ── Scans ─────────────────────────────────────────────────────────────────

/// The rows that a scan of a key range shows at a snapshot.
pub open spec fn in_scan(m: TablesModel, lower: Seq<u8>, upper: Seq<u8>, ts: u64) -> spec_fn(
    RowModel,
) -> bool {
    |r: RowModel|
        in_range(r.key, lower, upper) && r.version.visible_at(ts) && !m.is_dropped(r.key)
}

/// The rows that a snapshot shows.
pub open spec fn in_snapshot(m: TablesModel, ts: u64) -> spec_fn(RowModel) -> bool {
    |r: RowModel| r.version.visible_at(ts) && !m.is_dropped(r.key)
}

/// The rows of tables that are not dropped.
pub open spec fn undropped(m: TablesModel) -> spec_fn(RowModel) -> bool {
    |r: RowModel| !m.is_dropped(r.key)
}

spec fn ranged(lower: Seq<u8>, upper: Seq<u8>, ts: u64) -> spec_fn(RowModel) -> bool {
    |r: RowModel| in_range(r.key, lower, upper) && r.version.visible_at(ts)
}

proof fn lemma_scanned_is_kept(
    rs: Seq<RowModel>,
    lower: Seq<u8>,
    upper: Seq<u8>,
    ts: u64,
    types: Seq<TypeModel>,
)
    ensures
        scanned(rs, lower, upper, ts, types, Seq::<PredicateModel>::empty()) == kept_rows(
            rs,
            ranged(lower, upper, ts),
        ),
    decreases rs.len(),
{
    if rs.len() > 0 {
        lemma_scanned_is_kept(rs.drop_last(), lower, upper, ts, types);
    }
}

/// A file whose bounds lie outside the range offers nothing to its scan.
proof fn lemma_pruned_offers_nothing(
    m: TablesModel,
    id: u64,
    lower: Seq<u8>,
    upper: Seq<u8>,
    ts: u64,
)
    requires
        m.file_kept(id),
        ({
            let meta = m.version.meta[id];
            meta.max_key.len() > 0 && (lex_lt(meta.max_key, lower) || !lex_lt(meta.min_key, upper))
        }),
    ensures
        offered(m.rows(id), in_scan(m, lower, upper, ts)) == Seq::<
            (Seq<u8>, VersionModel),
        >::empty(),
{
    let rs = m.rows(id);
    let meta = m.version.meta[id];
    let keep = in_scan(m, lower, upper, ts);
    assert forall|i: int| 0 <= i < rs.len() implies !keep(#[trigger] rs[i]) by {
        let k = rs[i].key;
        assert(covers(meta, k));
        lemma_lex_total(meta.max_key, lower);
        lemma_lex_total(k, lower);
        lemma_lex_total(k, upper);
        lemma_lex_total(meta.min_key, upper);
        if lex_lt(meta.max_key, lower) {
            if k != meta.max_key {
                lemma_lex_transitive(k, meta.max_key, lower);
            }
        } else if lex_lt(k, upper) {
            if k != meta.min_key {
                lemma_lex_transitive(meta.min_key, k, upper);
            }
        }
    }
    lemma_nothing_offered(rs, keep);
}

/// Leaving files out by what is recorded of them loses nothing: where the
/// files are well kept, those that a scan of a range reads offer what all
/// files offer.
pub proof fn law_pruning_loses_nothing(
    m: TablesModel,
    ids: Seq<u64>,
    lower: Seq<u8>,
    upper: Seq<u8>,
    ts: u64,
)
    requires
        m.well_kept(),
        is_listing(ids, m.version),
    ensures
        offered_by(m, searched(m, ids, lower, upper), in_scan(m, lower, upper, ts)) == offered_by(
            m,
            ids,
            in_scan(m, lower, upper, ts),
        ),
{
    assert forall|i: int| 0 <= i < ids.len() implies #[trigger] m.live(ids[i]) by {
        assert(ids.contains(ids[i]));
        lemma_listing_is_live(ids, m, ids[i]);
    }
    lemma_pruning(m, ids, lower, upper, ts);
}

proof fn lemma_pruning(m: TablesModel, ids: Seq<u64>, lower: Seq<u8>, upper: Seq<u8>, ts: u64)
    requires
        m.well_kept(),
        forall|i: int| 0 <= i < ids.len() ==> #[trigger] m.live(ids[i]),
    ensures
        offered_by(m, searched(m, ids, lower, upper), in_scan(m, lower, upper, ts)) == offered_by(
            m,
            ids,
            in_scan(m, lower, upper, ts),
        ),
    decreases ids.len(),
{
    if ids.len() > 0 {
        let init = ids.drop_last();
        let id = ids.last();
        let keep = in_scan(m, lower, upper, ts);
        assert forall|i: int| 0 <= i < init.len() implies #[trigger] m.live(init[i]) by {
            assert(m.live(ids[i]));
        }
        lemma_pruning(m, init, lower, upper, ts);
        assert(m.live(ids[ids.len() - 1]));
        assert(m.file_kept(id));
        let front = searched(m, init, lower, upper);
        if is_pruned(m, id, lower, upper) {
            lemma_pruned_offers_nothing(m, id, lower, upper, ts);
            assert(offered_by(m, ids, keep) =~= offered_by(m, init, keep));
        } else {
            assert(front.push(id).drop_last() =~= front);
        }
    }
}

impl<F: FileIO, S: SstFormat> Tables<F, S> {
    /// Offers rows to a merge, except those of dropped tables.
    pub fn merge_rows(&self, visible: &mut ByteMap<VersionedValue>, rows: Vec<VersionedRow>)
        requires
            self.wf(),
            old(visible).wf(),
        ensures
            final(visible).wf(),
            version_map(final(visible)@) == newest_of_all(
                version_map(old(visible)@),
                offered(row_models(rows@), undropped(self@)),
            ),
    {
        let ghost start = version_map(visible@);
        let ghost rs = row_models(rows@);
        let ghost keep = undropped(self@);
        let version_set = self.manifest.version_set();
        let n: usize = rows.len();
        let mut i: usize = 0;
        assert(rs.take(0) =~= Seq::<RowModel>::empty());
        while i < n
            invariant
                i <= n,
                n == rows@.len(),
                rs == row_models(rows@),
                keep == undropped(self@),
                version_set.wf(),
                version_set@ == self@.version,
                visible.wf(),
                version_map(visible@) == newest_of_all(start, offered(rs.take(i as int), keep)),
            decreases n - i,
        {
            let ghost before = offered(rs.take(i as int), keep);
            proof {
                assert(rs.take(i + 1).drop_last() =~= rs.take(i as int));
                assert(rs.take(i + 1).last() == rows@[i as int]@);
            }
            let key = bytes_slice(&rows[i].key);
            if !version_set.is_dropped(key_table_prefix(key)) {
                insert_newest(visible, rows[i].key.clone(), rows[i].version.clone());
                proof {
                    let next = before.push((rows@[i as int]@.key, rows@[i as int]@.version));
                    assert(next.drop_last() =~= before);
                }
            }
            i += 1;
        }
        assert(rs.take(n as int) =~= rs);
    }

    /// Offers what the files show of a key range at a snapshot to a merge.
    pub fn merge_range(
        &self,
        visible: &mut ByteMap<VersionedValue>,
        lower: &[u8],
        upper: &[u8],
        snapshot_ts: u64,
    ) -> (r: Result<()>)
        requires
            self.wf(),
            old(visible).wf(),
        ensures
            final(visible).wf(),
            self@.has_no_files() ==> r is Ok && version_map(final(visible)@) == version_map(
                old(visible)@,
            ),
            r is Ok ==> exists|ids: Seq<u64>| #[trigger]
                is_listing(ids, self@.version) && version_map(final(visible)@) == newest_of_all(
                    version_map(old(visible)@),
                    offered_by(
                        self@,
                        searched(self@, ids, lower@, upper@),
                        in_scan(self@, lower@, upper@, snapshot_ts),
                    ),
                ),
            r is Err ==> self.range_may_fail(lower@, upper@, snapshot_ts),
    {
        let ghost m = self@;
        let ghost start = version_map(visible@);
        let ghost keep = in_scan(m, lower@, upper@, snapshot_ts);
        let version_set = self.manifest.version_set();
        let ids = version_set.file_ids();
        let mut i: usize = 0;
        assert(ids@.take(0) =~= Seq::<u64>::empty());
        proof {
            if ids@.len() > 0 {
                assert(ids@.contains(ids@[0]));
                lemma_listing_is_live(ids@, m, ids@[0]);
            }
        }
        while i < ids.len()
            invariant
                i <= ids@.len(),
                self.wf(),
                m == self@,
                m.has_no_files() ==> ids@.len() == 0,
                ids@.len() == 0 ==> version_map(visible@) == start,
                keep == in_scan(m, lower@, upper@, snapshot_ts),
                version_set@ == m.version,
                is_listing(ids@, m.version),
                visible.wf(),
                version_map(visible@) == newest_of_all(
                    start,
                    offered_by(m, searched(m, ids@.take(i as int), lower@, upper@), keep),
                ),
            decreases ids@.len() - i,
        {
            let file_id: u64 = ids[i];
            let ghost read = searched(m, ids@.take(i as int), lower@, upper@);
            let ghost before = offered_by(m, read, keep);
            let ghost mine = offered(m.rows(file_id), keep);
            proof {
                assert(ids@.take(i + 1).drop_last() =~= ids@.take(i as int));
                assert(read.push(file_id).drop_last() =~= read);
                assert(ids@.contains(ids@[i as int]));
                lemma_listing_is_live(ids@, m, file_id);
                lemma_newest_concat(start, before, mine);
            }
            let pruned = match version_set.file_metadata(file_id) {
                Some(meta) => {
                    let min_key = bytes_slice(&meta.0);
                    let max_key = bytes_slice(&meta.1);
                    min_key.len() > 0 && max_key.len() > 0 && (key_less(max_key, lower)
                        || !key_less(min_key, upper))
                },
                None => false,
            };
            assert(pruned == is_pruned(m, file_id, lower@, upper@));
            if !pruned {
                let path = sst_path(self.dir.as_str(), file_id);
                let rows = match self.format.scan_with_filter(
                    path.as_str(),
                    lower,
                    upper,
                    Snapshot::new(snapshot_ts),
                    None,
                    None,
                    None,
                ) {
                    Ok(rows) => rows,
                    Err(e) => {
                        assert(may_scan(
                            self.format(),
                            m.path(file_id),
                            lower@,
                            upper@,
                            snapshot_ts,
                            None,
                            None,
                            None,
                            false,
                        ));
                        return Err(e);
                    },
                };
                proof {
                    lemma_scanned_is_kept(
                        m.rows(file_id),
                        lower@,
                        upper@,
                        snapshot_ts,
                        Seq::empty(),
                    );
                    lemma_offered_twice(
                        m.rows(file_id),
                        ranged(lower@, upper@, snapshot_ts),
                        undropped(m),
                        keep,
                        row_models(rows@),
                    );
                }
                self.merge_rows(visible, rows);
            }
            i += 1;
        }
        assert(ids@.take(i as int) =~= ids@);
        Ok(())
    }

    /// Offers everything that the files show at a snapshot to a merge.
    pub fn merge_all(&self, visible: &mut ByteMap<VersionedValue>, snapshot_ts: u64) -> (r: Result<
        (),
    >)
        requires
            self.wf(),
            old(visible).wf(),
        ensures
            final(visible).wf(),
            self@.has_no_files() ==> r is Ok && version_map(final(visible)@) == version_map(
                old(visible)@,
            ),
            r is Ok ==> exists|ids: Seq<u64>| #[trigger]
                is_listing(ids, self@.version) && version_map(final(visible)@) == newest_of_all(
                    version_map(old(visible)@),
                    offered_by(self@, ids, in_snapshot(self@, snapshot_ts)),
                ),
            r is Err ==> self.files_may_fail(),
    {
        let ghost m = self@;
        let ghost start = version_map(visible@);
        let ghost keep = in_snapshot(m, snapshot_ts);
        let snapshot = Snapshot::new(snapshot_ts);
        let version_set = self.manifest.version_set();
        let ids = version_set.file_ids();
        let mut i: usize = 0;
        assert(ids@.take(0) =~= Seq::<u64>::empty());
        proof {
            if ids@.len() > 0 {
                assert(ids@.contains(ids@[0]));
                lemma_listing_is_live(ids@, m, ids@[0]);
            }
        }
        while i < ids.len()
            invariant
                i <= ids@.len(),
                self.wf(),
                m == self@,
                m.has_no_files() ==> ids@.len() == 0,
                ids@.len() == 0 ==> version_map(visible@) == start,
                snapshot.ts == snapshot_ts,
                keep == in_snapshot(m, snapshot_ts),
                is_listing(ids@, m.version),
                visible.wf(),
                version_map(visible@) == newest_of_all(
                    start,
                    offered_by(m, ids@.take(i as int), keep),
                ),
            decreases ids@.len() - i,
        {
            let file_id: u64 = ids[i];
            let ghost before = offered_by(m, ids@.take(i as int), keep);
            proof {
                assert(ids@.take(i + 1).drop_last() =~= ids@.take(i as int));
                lemma_newest_concat(start, before, offered(m.rows(file_id), keep));
            }
            let path = sst_path(self.dir.as_str(), file_id);
            let rows = match self.format.read_all(path.as_str()) {
                Ok(rows) => rows,
                Err(e) => {
                    proof {
                        assert(ids@.contains(ids@[i as int]));
                        lemma_listing_is_live(ids@, m, file_id);
                        assert(may_read_rows(self.format(), m.path(file_id), false));
                    }
                    return Err(e);
                },
            };
            let ghost rs = row_models(rows@);
            let seen = only_visible(rows, snapshot);
            proof {
                lemma_offered_twice(
                    rs,
                    shown_at(snapshot_ts),
                    undropped(m),
                    keep,
                    row_models(seen@),
                );
            }
            self.merge_rows(visible, seen);
            i += 1;
        }
        assert(ids@.take(i as int) =~= ids@);
        Ok(())
    }
}

/// The rows that a snapshot shows, whatever their table.
pub open spec fn shown_at(ts: u64) -> spec_fn(RowModel) -> bool {
    |r: RowModel| r.version.visible_at(ts)
}

/// Returns the rows that a snapshot shows.
pub fn only_visible(rows: Vec<VersionedRow>, snapshot: Snapshot) -> (r: Vec<VersionedRow>)
    ensures
        row_models(r@) == kept_rows(row_models(rows@), shown_at(snapshot.ts)),
{
    let ghost rs = row_models(rows@);
    let ghost keep = shown_at(snapshot.ts);
    let mut out: Vec<VersionedRow> = Vec::new();
    let n: usize = rows.len();
    let mut i: usize = 0;
    proof {
        assert(rs.take(0) =~= Seq::<RowModel>::empty());
        assert(row_models(out@) =~= kept_rows(rs.take(0), keep));
    }
    while i < n
        invariant
            i <= n,
            n == rows@.len(),
            rs == row_models(rows@),
            keep == shown_at(snapshot.ts),
            row_models(out@) == kept_rows(rs.take(i as int), keep),
        decreases n - i,
    {
        let ghost before = row_models(out@);
        proof {
            assert(rs.take(i + 1).drop_last() =~= rs.take(i as int));
            assert(rs.take(i + 1).last() == rows@[i as int]@);
        }
        if snapshot.sees(&rows[i].version) {
            out.push(rows[i].clone());
            assert(row_models(out@) =~= before.push(rows@[i as int]@));
        }
        i += 1;
    }
    assert(rs.take(n as int) =~= rs);
    out
}

// ── Writing files ─────────────────────────────────────────────────────────

/// Most files whose column statistics are cached; a full cache is cleared.
pub const COLUMN_STATS_CACHE_MAX: usize = 1024;

/// A sum of row counts, which wraps around.
pub open spec fn wrapped_rows(n: int) -> usize {
    (n % (usize::MAX + 1)) as usize
}

/// The cached statistics after a file of rows was written: those of its
/// tables that have a schema, if there is one.
pub open spec fn stats_cached(
    before: Map<u64, Map<Seq<char>, StatsModel>>,
    after: Map<u64, Map<Seq<char>, StatsModel>>,
    id: u64,
    rs: Seq<RowModel>,
    schemas: Map<Seq<char>, Seq<FieldModel>>,
) -> bool {
    exists|fs: Map<Seq<char>, StatsModel>| #[trigger]
        is_file_stats(fs, rs, schemas) && (if fs == Map::<Seq<char>, StatsModel>::empty() {
            after == before
        } else {
            after == before.insert(id, fs) || after == Map::<
                u64,
                Map<Seq<char>, StatsModel>,
            >::empty().insert(id, fs)
        })
}

/// The schema that is written with rows: that of the table of their first key.
pub open spec fn schema_of(m: TablesModel, rs: Seq<RowModel>) -> Option<Seq<FieldModel>> {
    if rs.len() > 0 && m.schemas.contains_key(schema_table(rs[0].key)) {
        Some(m.schemas[schema_table(rs[0].key)])
    } else {
        None
    }
}

impl<F: FileIO, S: SstFormat> Tables<F, S> {
    /// The sidecars of the file describe these rows.
    pub closed spec fn describes_as(&self, id: u64, rs: Seq<RowModel>) -> bool {
        self.sidecars.fits(id, rs)
    }

    /// The file has no sidecars.
    pub closed spec fn bare(&self, id: u64) -> bool {
        self.sidecars.bare(id)
    }

    /// Everything but the file `id` has the sidecars it had.
    pub open spec fn keeps_sidecars(&self, before: &Self, id: u64) -> bool {
        &&& forall|k: u64, rs: Seq<RowModel>|
            k != id && #[trigger] before.describes_as(k, rs) ==> self.describes_as(k, rs)
        &&& forall|k: u64| k != id && #[trigger] before.bare(k) ==> self.bare(k)
    }

    /// Computes the column statistics of a new file and caches them.
    fn cache_column_stats(&mut self, file_id: u64, rows: &[VersionedRow])
        requires
            old(self).wf(),
        ensures
            final(self).wf(),
            final(self).sidecars == old(self).sidecars,
            final(self).manifest == old(self).manifest,
            stats_cached(
                old(self)@.stats,
                final(self)@.stats,
                file_id,
                row_models(rows@),
                old(self)@.schemas,
            ),
            final(self)@ == (TablesModel { stats: final(self)@.stats, ..old(self)@ }),
    {
        let ghost before = self@;
        let stats = compute_column_stats(rows, &self.schemas);
        let ghost fs = stats_map(stats@);
        if stats.len() > 0 {
            proof {
                stats.lemma_entry(0);
                assert(fs.contains_key(stats.name_seq()[0]));
            }
            let full = self.column_stats.len() >= COLUMN_STATS_CACHE_MAX;
            if full {
                self.column_stats.clear();
            }
            self.column_stats.insert(file_id, stats);
            proof {
                if full {
                    assert(self@.stats =~= Map::<
                        u64,
                        Map<Seq<char>, StatsModel>,
                    >::empty().insert(file_id, fs));
                } else {
                    assert(self@.stats =~= before.stats.insert(file_id, fs));
                }
            }
        } else {
            proof {
                assert(fs =~= Map::<Seq<char>, StatsModel>::empty()) by {
                    assert forall|t: Seq<char>| !fs.contains_key(t) by {
                        if stats@.contains_key(t) {
                            assert(stats.name_seq().contains(t));
                        }
                    }
                }
                assert(self@.stats =~= before.stats);
            }
        }
        assert(self@ =~= (TablesModel { stats: self@.stats, ..before }));
    }

    /// The format was asked to write the rows to the file `id`, with the
    /// schema of the table of their first key where one is registered, and
    /// gave this handle, or failed where there is none.
    pub open spec fn writing(&self, rs: Seq<RowModel>, id: u64, given: Option<SstHandle>) -> bool {
        may_store(self.format(), self@.path(id), rs, id, schema_of(self@, rs), given)
    }

    /// Writes rows to a new file with its sidecars and statistics. The file is
    /// not recorded yet.
    fn write_file(&mut self, rows: &[VersionedRow], file_id: u64) -> (r: Result<SstHandle>)
        requires
            old(self).wf(),
        ensures
            final(self).wf(),
            final(self).keeps_sidecars(old(self), file_id),
            final(self).manifest() == old(self).manifest(),
            old(self).writing(row_models(rows@), file_id, answered(r)),
            r is Ok ==> exists|done: bool| #[trigger]
                final(self).sidecars().both_written(
                    &old(self).sidecars(),
                    file_id,
                    row_models(rows@),
                    done,
                ),
            r is Err ==> final(self).sidecars() == old(self).sidecars(),
            r matches Ok(h) ==> {
                let rs = row_models(rows@);
                &&& describes(h, rs, file_id)
                &&& stats_cached(
                    old(self)@.stats,
                    final(self)@.stats,
                    file_id,
                    rs,
                    old(self)@.schemas,
                )
                &&& final(self)@ == (TablesModel {
                    stored: old(self)@.stored.insert(
                        old(self)@.path(file_id),
                        untagged_rows(rs),
                    ),
                    stats: final(self)@.stats,
                    ..old(self)@
                })
                &&& old(self).bare(file_id) ==> final(self).describes_as(
                    file_id,
                    untagged_rows(rs),
                )
            },
            r is Err ==> {
                &&& final(self)@ == (TablesModel { stored: final(self)@.stored, ..old(self)@ })
                &&& final(self)@.stored.remove(old(self)@.path(file_id)) == old(
                    self,
                )@.stored.remove(old(self)@.path(file_id))
            },
    {
        let ghost before = self@;
        let path = sst_path(self.dir.as_str(), file_id);
        let table: Option<String> = if rows.len() == 0 {
            None
        } else {
            Some(schema_table_of(bytes_slice(&rows[0].key)))
        };
        let row_schema = match &table {
            Some(t) => self.schemas.get(t.as_str()),
            None => None,
        };
        assert(schema_view(row_schema) == schema_of(before, row_models(rows@)));
        let stored = self.format.write(path.as_str(), rows, file_id, row_schema);
        assert(old(self).writing(row_models(rows@), file_id, answered(stored)));
        let handle = match stored {
            Ok(h) => h,
            Err(e) => {
                assert(self@ =~= (TablesModel { stored: self@.stored, ..before }));
                return Err(e);
            },
        };
        let _described = self.sidecars.write_for(file_id, rows);
        proof {
            assert forall|k: u64, rs: Seq<RowModel>|
                k != file_id && #[trigger] old(self).describes_as(k, rs) implies self.describes_as(
                k,
                rs,
            ) by {
                assert(old(self).sidecars.fits(k, rs));
            }
            assert forall|k: u64| k != file_id && #[trigger] old(self).bare(k) implies self.bare(
                k,
            ) by {
                assert(old(self).sidecars.bare(k));
            }
        }
        self.cache_column_stats(file_id, rows);
        assert(self@ =~= (TablesModel {
            stored: before.stored.insert(
                before.path(file_id),
                untagged_rows(row_models(rows@)),
            ),
            stats: self@.stats,
            ..before
        }));
        assert(self.sidecars().both_written(
            &old(self).sidecars(),
            file_id,
            row_models(rows@),
            _described,
        ));
        Ok(handle)
    }

    /// Flushing the rows went as `r` says: the file was written and then
    /// recorded; if not, one of these steps failed.
    pub open spec fn flushing(
        &self,
        rs: Seq<RowModel>,
        created_at: u64,
        r: Result<SstHandle>,
    ) -> bool {
        let id = self@.version.next_file_id;
        match r {
            Ok(h) => self.writing(rs, id, Some(h)) && self.recording(
                flush_edits(id, handle_meta(h, created_at)),
                true,
            ),
            Err(_) => {
                ||| self.writing(rs, id, None)
                ||| exists|h: SstHandle| #[trigger]
                    self.writing(rs, id, Some(h)) && self.recording(
                        flush_edits(id, handle_meta(h, created_at)),
                        false,
                    )
            },
        }
    }

    /// Recording the edits in the manifest went as `done` says; it fails where
    /// an edit does not fit the format.
    pub open spec fn recording(&self, es: Seq<EditModel>, done: bool) -> bool {
        if es.len() == 0 {
            done
        } else if all_fit(es) {
            self.manifest().appending(es, done)
        } else {
            !done
        }
    }

    /// Writes rows to a new file of the first level and records it.
    #[verifier::rlimit(60)]
    #[verifier::spinoff_prover]
    pub fn flush_rows(&mut self, rows: &[VersionedRow], created_at: u64) -> (r: Result<SstHandle>)
        requires
            old(self).wf(),
        ensures
            final(self).wf(),
            old(self).flushing(row_models(rows@), created_at, r),
            r is Ok ==> exists|done: bool| #[trigger]
                final(self).sidecars().both_written(
                    &old(self).sidecars(),
                    old(self)@.version.next_file_id,
                    row_models(rows@),
                    done,
                ),
            r matches Ok(h) ==> flush_done(
                old(self)@,
                final(self)@,
                row_models(rows@),
                h,
                created_at,
            ),
            r is Err ==> flush_failed(*old(self), *final(self), row_models(rows@), created_at),
            old(self).sound() && old(self).clean_ahead() && settled(row_models(rows@)) && old(
                self,
            )@.version.next_file_id < u64::MAX ==> {
                &&& final(self).sound()
                &&& r is Ok ==> final(self).clean_ahead()
            },
    {
        let ghost before = self@;
        let ghost rs = row_models(rows@);
        let ghost id = before.version.next_file_id;
        let file_id: u64 = self.manifest.version_set().next_file_id();
        let handle = match self.write_file(rows, file_id) {
            Ok(h) => h,
            Err(e) => {
                proof {
                    if old(self).sound() {
                        lemma_other_files_sound(*old(self), *self, id);
                    }
                    assert(flush_failed(*old(self), *self, rs, created_at));
                }
                return Err(e);
            },
        };
        let ghost done = choose|done: bool| #[trigger]
            self.sidecars().both_written(&old(self).sidecars(), id, rs, done);
        let ghost meta = handle_meta(handle, created_at);
        assert(old(self).writing(rs, id, Some(handle)));
        let mut edits: Vec<VersionEdit> = Vec::new();
        edits.push(
            VersionEdit::AddFile {
                file_id,
                level: 0,
                min_key: handle.min_key.clone(),
                max_key: handle.max_key.clone(),
                bytes: handle.bytes,
                created_at,
            },
        );
        edits.push(VersionEdit::NextFileId(file_id.saturating_add(1)));
        assert(edit_models(edits@) =~= flush_edits(id, meta));
        let appended = self.manifest.append_batch(edits);
        assert(old(self).recording(flush_edits(id, meta), appended is Ok));
        proof {
            assert(self@.stored.remove(before.path(id)) =~= before.stored.remove(
                before.path(id),
            ));
            if old(self).sound() && old(self).clean_ahead() && settled(rs) && id < u64::MAX {
                if self@.version == before.version {
                    lemma_other_files_sound(*old(self), *self, id);
                } else {
                    lemma_flush_sound(*old(self), *self, rs, meta);
                }
            }
        }
        match appended {
            Ok(()) => {},
            Err(e) => {
                assert(self@.version == before.version || is_flushed(before, self@, rs, meta));
                assert(flush_failed(*old(self), *self, rs, created_at));
                return Err(e);
            },
        }
        let ghost recorded = *self;
        assert(is_flushed(before, self@, rs, meta));
        self.sst_row_count = self.sst_row_count.wrapping_add(rows.len());
        add_row_counts(&mut self.table_rows, rows);
        self.stats_version = self.stats_version.wrapping_add(1);
        proof {
            assert(self@ =~= (TablesModel {
                row_count: self@.row_count,
                table_rows: self@.table_rows,
                stats_version: self@.stats_version,
                ..recorded@
            }));
            lemma_same_files_sound(recorded, *self);
            assert(self.sidecars().both_written(&old(self).sidecars(), id, rs, done));
            assert(flush_done(before, self@, rs, handle, created_at));
        }
        Ok(handle)
    }
}

/// What a flush of the rows `rs` at the time `at` did to the files.
pub open spec fn flush_done(
    before: TablesModel,
    after: TablesModel,
    rs: Seq<RowModel>,
    h: SstHandle,
    at: u64,
) -> bool {
    let id = before.version.next_file_id;
    &&& describes(h, rs, id)
    &&& is_flushed(before, after, rs, handle_meta(h, at))
    &&& stats_cached(before.stats, after.stats, id, rs, before.schemas)
    &&& after.schemas == before.schemas
    &&& after.row_count == wrapped_rows(before.row_count + rs.len())
    &&& is_grown(after.table_rows, before.table_rows, rs)
    &&& after.stats_version == wrapped(before.stats_version, 1)
}

/// What a flush at the time `at` that failed left of the files: the new file
/// is recorded, as the format described it, or it is not, and nothing else has
/// changed.
pub open spec fn flush_failed<F: FileIO, S: SstFormat>(
    before: Tables<F, S>,
    after: Tables<F, S>,
    rs: Seq<RowModel>,
    at: u64,
) -> bool {
    let id = before@.version.next_file_id;
    &&& after@.dir == before@.dir
    &&& after@.schemas == before@.schemas
    &&& after@.row_count == before@.row_count
    &&& after@.table_rows == before@.table_rows
    &&& after@.stats_version == before@.stats_version
    &&& after@.stored.remove(before@.path(id)) == before@.stored.remove(before@.path(id))
    &&& after@.version == before@.version || exists|h: SstHandle| #[trigger]
        before.writing(rs, id, Some(h)) && is_flushed(before@, after@, rs, handle_meta(h, at))
}

/// What is not read from files does not bear on soundness.
proof fn lemma_same_files_sound<F: FileIO, S: SstFormat>(before: Tables<F, S>, after: Tables<F, S>)
    requires
        after.sidecars == before.sidecars,
        after@.dir == before@.dir,
        after@.version == before@.version,
        after@.stored == before@.stored,
    ensures
        before.sound() ==> after.sound(),
        before.clean_ahead() ==> after.clean_ahead(),
{
    assert forall|id: u64| after@.live(id) == before@.live(id) && after@.file_kept(id)
        == before@.file_kept(id) by {}
    if before.sound() {
        assert forall|id: u64| #[trigger] after@.live(id) implies after.described(id)
            && after@.file_kept(id) by {
            assert(before@.live(id));
            assert(before.described(id));
            assert(before@.file_kept(id));
        }
        assert forall|id: u64| #[trigger] after@.version.meta.contains_key(
            id,
        ) implies after@.live(id) by {
            assert(before@.version.meta.contains_key(id));
            assert(before@.live(id));
        }
    }
    if before.clean_ahead() {
        assert forall|id: u64| id >= after@.version.next_file_id implies
            #[trigger] after.sidecars.bare(id) by {
            assert(before.sidecars.bare(id));
        }
    }
}

/// A file that is not recorded does not bear on soundness.
proof fn lemma_other_files_sound<F: FileIO, S: SstFormat>(
    before: Tables<F, S>,
    after: Tables<F, S>,
    id: u64,
)
    requires
        before.sound(),
        id == before@.version.next_file_id,
        after@.dir == before@.dir,
        after@.version == before@.version,
        after@.stored.remove(before@.path(id)) == before@.stored.remove(before@.path(id)),
        after.keeps_sidecars(&before, id),
    ensures
        after.sound(),
{
    assert forall|k: u64| #[trigger] after@.live(k) implies after.described(k)
        && after@.file_kept(k) by {
        assert(before@.live(k));
        assert(before@.file_kept(k));
        assert(k != id);
        law_paths_are_distinct(before@.dir, k, id);
        let p = before@.path(k);
        assert(after@.stored.remove(before@.path(id)).contains_key(p));
        assert(after@.stored.remove(before@.path(id))[p] == before@.stored.remove(
            before@.path(id),
        )[p]);
        assert(after@.rows(k) == before@.rows(k));
        assert(before.described(k));
        assert(before.describes_as(k, before@.rows(k)));
        assert(after.describes_as(k, before@.rows(k)));
    }
    assert forall|k: u64| #[trigger] after@.version.meta.contains_key(k) implies after@.live(k) by {
        assert(before@.version.meta.contains_key(k));
        assert(before@.live(k));
    }
}

/// A recorded flush keeps files and sidecars together.
proof fn lemma_flush_sound<F: FileIO, S: SstFormat>(
    before: Tables<F, S>,
    after: Tables<F, S>,
    rs: Seq<RowModel>,
    meta: MetaModel,
)
    requires
        before.sound(),
        before.clean_ahead(),
        settled(rs),
        before@.version.next_file_id < u64::MAX,
        is_flushed(before@, after@, rs, meta),
        after.keeps_sidecars(&before, before@.version.next_file_id),
        before.bare(before@.version.next_file_id) ==> after.describes_as(
            before@.version.next_file_id,
            untagged_rows(rs),
        ),
    ensures
        after.sound(),
        after.clean_ahead(),
{
    let id = before@.version.next_file_id;
    law_flush_keeps_files(before@, after@, rs, meta);
    lemma_flush_live(before@, after@, rs, meta);
    lemma_flush_version(before@.version, id, meta);
    assert(before.sidecars.bare(id));
    assert(before.bare(id));
    assert forall|k: u64| #[trigger] after@.live(k) implies after.described(k) by {
        if k == id {
            assert(after.describes_as(id, untagged_rows(rs)));
        } else {
            assert(before@.live(k));
            assert(before.described(k));
            assert(before.describes_as(k, before@.rows(k)));
            assert(after.describes_as(k, before@.rows(k)));
        }
    }
    assert forall|k: u64| k >= after@.version.next_file_id implies #[trigger] after.sidecars.bare(
        k,
    ) by {
        assert(before.sidecars.bare(k));
        assert(before.bare(k));
        assert(after.bare(k));
    }
}

// ── Compaction ────────────────────────────────────────────────────────────

/// Bytes up to which inputs are merged together.
pub const SUB_COMPACTION_MAX_BYTES: u64 = 67_108_864;

/// What merging one chunk of inputs gave.
pub struct ChunkOutput {
    /// The new file.
    pub handle: SstHandle,
    /// Rows that went in.
    pub deleted_rows: usize,
    /// Change of the rows of each table.
    pub prefix_delta: ByteMap<i128>,
}

/// The change of each table's rows from one list to another.
pub open spec fn is_row_delta(
    d: Map<Seq<u8>, i128>,
    input: Seq<RowModel>,
    output: Seq<RowModel>,
) -> bool {
    exists|ci: Map<Seq<u8>, usize>, co: Map<Seq<u8>, usize>| #[trigger]
        counts_rows(ci, input) && #[trigger] counts_rows(co, output) && is_delta(d, ci, co)
}

/// The output of a chunk is the merge `ms` of its files.
pub open spec fn is_chunk_output(
    before: TablesModel,
    after: TablesModel,
    chunk: Seq<u64>,
    watermark: u64,
    file_id: u64,
    out: ChunkOutput,
    ms: Seq<RowModel>,
) -> bool {
    let all = rows_all(before, chunk);
    &&& is_merged(ms, all, watermark)
    &&& in_order(ms)
    &&& describes(out.handle, ms, file_id)
    &&& out.deleted_rows == all.len()
    &&& out.prefix_delta.wf()
    &&& is_row_delta(out.prefix_delta@, all, ms)
    &&& stats_cached(before.stats, after.stats, file_id, ms, before.schemas)
    &&& after == (TablesModel {
        stored: before.stored.insert(before.path(file_id), untagged_rows(ms)),
        stats: after.stats,
        ..before
    })
}

/// The id of the `n`th new file.
pub open spec fn new_file_id(v: VersionSetModel, n: int) -> u64 {
    if v.next_file_id + n <= u64::MAX {
        (v.next_file_id + n) as u64
    } else {
        u64::MAX
    }
}

/// `n` times the same stamp.
pub open spec fn stamped(n: nat, at: u64) -> Seq<u64> {
    Seq::new(n, |i: int| at)
}

/// The files after some were removed.
pub open spec fn without_files(
    stored: Map<Seq<char>, Seq<RowModel>>,
    dir: Seq<char>,
    ids: Seq<u64>,
) -> Map<Seq<char>, Seq<RowModel>>
    decreases ids.len(),
{
    if ids.len() == 0 {
        stored
    } else {
        without_files(stored, dir, ids.drop_last()).remove(sst_path_of(dir, ids.last()))
    }
}

/// The statistics after those of some files were forgotten.
pub open spec fn without_stats(
    stats: Map<u64, Map<Seq<char>, StatsModel>>,
    ids: Seq<u64>,
) -> Map<u64, Map<Seq<char>, StatsModel>>
    decreases ids.len(),
{
    if ids.len() == 0 {
        stats
    } else {
        without_stats(stats, ids.drop_last()).remove(ids.last())
    }
}

/// The rows of all outputs.
pub open spec fn rows_written(hs: Seq<SstHandle>) -> int
    decreases hs.len(),
{
    if hs.len() == 0 {
        0
    } else {
        rows_written(hs.drop_last()) + hs.last().rows
    }
}

/// The rows that went into all merges, or the largest `usize`.
pub open spec fn rows_retired(outs: Seq<ChunkOutput>) -> int
    decreases outs.len(),
{
    if outs.len() == 0 {
        0
    } else {
        capped_count(rows_retired(outs.drop_last()) + outs.last().deleted_rows) as int
    }
}

/// The counts after the deltas of every chunk.
pub open spec fn rows_changed(m: Map<Seq<u8>, usize>, ds: Seq<ByteMap<i128>>) -> Map<
    Seq<u8>,
    usize,
>
    decreases ds.len(),
{
    if ds.len() == 0 {
        m
    } else {
        changed_all(
            rows_changed(m, ds.drop_last()),
            ds.last().key_seq(),
            ds.last().value_seq(),
        )
    }
}

/// Retiring the files stopped at one of them: those before it are gone with
/// their statistics, and the rows are counted anew.
pub open spec fn partly_retired(
    before: TablesModel,
    after: TablesModel,
    ids: Seq<u64>,
    deleted_rows: int,
    hs: Seq<SstHandle>,
    ds: Seq<ByteMap<i128>>,
) -> bool {
    &&& after.dir == before.dir
    &&& after.schemas == before.schemas
    &&& after.stats_version == before.stats_version
    &&& after.row_count == wrapped_rows(before.row_count - deleted_rows + rows_written(hs))
    &&& after.table_rows == rows_changed(before.table_rows, ds)
    &&& exists|n: int|
        0 <= n < ids.len() && after.stats == #[trigger] without_stats(before.stats, ids.take(n))
            && after.stored.remove(before.path(ids[n])) == without_files(
            before.stored,
            before.dir,
            ids.take(n),
        ).remove(before.path(ids[n]))
}

/// Files of other ids are not touched.
pub open spec fn same_files_but(before: TablesModel, after: TablesModel, ids: Seq<u64>) -> bool {
    forall|k: u64|
        #![trigger before.path(k)]
        !ids.contains(k) ==> {
            &&& after.stored.contains_key(before.path(k)) == before.stored.contains_key(
                before.path(k),
            )
            &&& after.stored[before.path(k)] == before.stored[before.path(k)]
        }
}

proof fn lemma_without_files(
    stored: Map<Seq<char>, Seq<RowModel>>,
    dir: Seq<char>,
    ids: Seq<u64>,
    k: u64,
)
    requires
        !ids.contains(k),
    ensures
        ({
            let left = without_files(stored, dir, ids);
            let p = sst_path_of(dir, k);
            left.contains_key(p) == stored.contains_key(p) && left[p] == stored[p]
        }),
    decreases ids.len(),
{
    if ids.len() > 0 {
        assert(ids[ids.len() - 1] == ids.last());
        assert(!ids.drop_last().contains(k)) by {
            if ids.drop_last().contains(k) {
                let i = choose|i: int| 0 <= i < ids.drop_last().len() && ids.drop_last()[i] == k;
                assert(ids[i] == k);
            }
        }
        lemma_without_files(stored, dir, ids.drop_last(), k);
        law_paths_are_distinct(dir, k, ids.last());
    }
}

impl<F: FileIO, S: SstFormat> Tables<F, S> {
    /// One of the files may fail to be read.
    pub open spec fn unreadable(&self, chunk: Seq<u64>) -> bool {
        exists|i: int|
            0 <= i < chunk.len() && may_read_rows(
                self.format(),
                self@.path(#[trigger] chunk[i]),
                false,
            )
    }

    /// Reads the rows of files, one file after the other.
    fn read_rows(&self, chunk: &[u64]) -> (r: Result<Vec<VersionedRow>>)
        requires
            self.wf(),
        ensures
            r matches Ok(rows) ==> row_models(rows@) == rows_all(self@, chunk@),
            r is Err ==> self.unreadable(chunk@),
    {
        let ghost m = self@;
        let mut rows: Vec<VersionedRow> = Vec::new();
        let mut i: usize = 0;
        proof {
            assert(chunk@.take(0) =~= Seq::<u64>::empty());
            assert(row_models(rows@) =~= rows_all(m, chunk@.take(0)));
        }
        while i < chunk.len()
            invariant
                i <= chunk@.len(),
                self.wf(),
                m == self@,
                row_models(rows@) == rows_all(m, chunk@.take(i as int)),
            decreases chunk@.len() - i,
        {
            let ghost before = rows@;
            assert(chunk@.take(i + 1).drop_last() =~= chunk@.take(i as int));
            let path = sst_path(self.dir.as_str(), chunk[i]);
            let mut file_rows = match self.format.read_all(path.as_str()) {
                Ok(rows) => rows,
                Err(e) => {
                    assert(may_read_rows(self.format(), m.path(chunk@[i as int]), false));
                    return Err(e);
                },
            };
            let ghost more = file_rows@;
            rows.append(&mut file_rows);
            proof {
                assert(rows@ =~= before + more);
                assert(row_models(rows@) =~= row_models(before) + row_models(more));
            }
            i += 1;
        }
        assert(chunk@.take(i as int) =~= chunk@);
        Ok(rows)
    }

    /// The chunk's merge was written and described.
    pub open spec fn has_chunk(
        &self,
        before: &Self,
        chunk: Seq<u64>,
        watermark: u64,
        file_id: u64,
        out: ChunkOutput,
    ) -> bool {
        exists|ms: Seq<RowModel>| #[trigger]
            is_chunk_output(before@, self@, chunk, watermark, file_id, out, ms) && (before.bare(
                file_id,
            ) ==> self.describes_as(file_id, untagged_rows(ms))) && before.writing(
                ms,
                file_id,
                Some(out.handle),
            ) && exists|done: bool| #[trigger]
                self.sidecars().both_written(&before.sidecars(), file_id, ms, done)
    }

    /// Compacting the chunk may fail: a file cannot be read, or their merge
    /// cannot be written.
    pub open spec fn chunk_may_fail(&self, chunk: Seq<u64>, watermark: u64, file_id: u64) -> bool {
        ||| self.unreadable(chunk)
        ||| exists|ms: Seq<RowModel>| #[trigger]
            is_merged(ms, rows_all(self@, chunk), watermark) && self.writing(ms, file_id, None)
    }

    /// Merges a chunk of inputs, drops what no reader at or after the
    /// watermark sees, and writes one output file.
    pub fn compact_chunk(&mut self, chunk: &[u64], watermark: u64, file_id: u64) -> (r: Result<
        ChunkOutput,
    >)
        requires
            old(self).wf(),
        ensures
            final(self).wf(),
            final(self).keeps_sidecars(old(self), file_id),
            final(self).manifest() == old(self).manifest(),
            r is Err ==> old(self).chunk_may_fail(chunk@, watermark, file_id),
            r matches Ok(out) ==> final(self).has_chunk(
                old(self),
                chunk@,
                watermark,
                file_id,
                out,
            ),
            r is Err ==> {
                &&& final(self)@ == (TablesModel { stored: final(self)@.stored, ..old(self)@ })
                &&& final(self)@.stored.remove(old(self)@.path(file_id)) == old(
                    self,
                )@.stored.remove(old(self)@.path(file_id))
            },
    {
        let ghost before = self@;
        let rows = match self.read_rows(chunk) {
            Ok(rows) => rows,
            Err(e) => {
                return Err(e);
            },
        };
        let ghost all = row_models(rows@);
        let deleted_rows: usize = rows.len();
        let input_counts = count_rows_by_prefix(rows.as_slice());
        let merged = dedup_superseded(rows, watermark);
        let ghost ms = row_models(merged@);
        let output_counts = count_rows_by_prefix(merged.as_slice());
        let prefix_delta = prefix_count_delta(&input_counts, &output_counts);
        let handle = match self.write_file(merged.as_slice(), file_id) {
            Ok(h) => h,
            Err(e) => {
                return Err(e);
            },
        };
        let out = ChunkOutput { handle, deleted_rows, prefix_delta };
        proof {
            assert(counts_rows(input_counts@, all) && counts_rows(output_counts@, ms));
            assert(is_row_delta(prefix_delta@, all, ms));
            assert(is_chunk_output(before, self@, chunk@, watermark, file_id, out, ms));
            assert(old(self).bare(file_id) ==> self.describes_as(file_id, untagged_rows(ms)));
        }
        Ok(out)
    }

    /// The format has removed the first `n` of the files, and may fail to
    /// remove the next.
    pub open spec fn stops_retiring(&self, format: S, ids: Seq<u64>, n: int) -> bool {
        &&& 0 <= n < ids.len()
        &&& format.stored() == without_files(self@.stored, self@.dir, ids.take(n))
        &&& may_remove(format, self@.path(ids[n]), false)
    }

    /// Recording the edits and then retiring the files went as `done` says; if
    /// not, one of these steps failed.
    pub open spec fn replacing(&self, es: Seq<EditModel>, ids: Seq<u64>, done: bool) -> bool {
        ||| !done && self.recording(es, false)
        ||| self.recording(es, true) && (done || exists|format: S, n: int| #[trigger]
            self.stops_retiring(format, ids, n))
    }

    /// Records a compaction in one batch, then retires the inputs with their
    /// sidecars and statistics.
    fn commit_compaction(
        &mut self,
        inputs: &[u64],
        source_level: u32,
        target_level: u32,
        handles: &[SstHandle],
        created_at: u64,
        deleted_rows: usize,
        deltas: &Vec<ByteMap<i128>>,
    ) -> (r: Result<()>)
        requires
            old(self).wf(),
            forall|i: int| 0 <= i < deltas@.len() ==> (#[trigger] deltas@[i]).wf(),
        ensures
            final(self).wf(),
            final(self)@.dir == old(self)@.dir,
            final(self)@.schemas == old(self)@.schemas,
            forall|k: u64, rs: Seq<RowModel>| #[trigger]
                old(self).describes_as(k, rs) ==> final(self).describes_as(k, rs),
            forall|k: u64| #[trigger] old(self).bare(k) ==> final(self).bare(k),
            same_files_but(old(self)@, final(self)@, inputs@),
            old(self).replacing(
                compaction_edit_models(
                    inputs@,
                    old(self)@.version.files(source_level),
                    source_level,
                    target_level,
                    handles@,
                    stamped(handles@.len(), created_at),
                ),
                inputs@,
                r is Ok,
            ),
            ({
                let v = old(self)@.version;
                let w = v.replay(
                    compaction_edit_models(
                        inputs@,
                        v.files(source_level),
                        source_level,
                        target_level,
                        handles@,
                        stamped(handles@.len(), created_at),
                    ),
                );
                &&& r is Ok ==> {
                    &&& forall|i: int|
                        0 <= i < inputs@.len() ==> final(self).sidecars().gone(
                            #[trigger] inputs@[i],
                        )
                    &&& final(self)@.version == w
                    &&& final(self)@.stored == without_files(
                        old(self)@.stored,
                        old(self)@.dir,
                        inputs@,
                    )
                    &&& final(self)@.stats == without_stats(old(self)@.stats, inputs@)
                    &&& final(self)@.row_count == wrapped_rows(
                        old(self)@.row_count - deleted_rows + rows_written(handles@),
                    )
                    &&& final(self)@.table_rows == rows_changed(
                        old(self)@.table_rows,
                        deltas@,
                    )
                    &&& final(self)@.stats_version == wrapped(old(self)@.stats_version, 1)
                }
                &&& r is Err ==> {
                    ||| (final(self)@.version == v || final(self)@.version == w) && final(self)@
                        == (TablesModel { version: final(self)@.version, ..old(self)@ })
                    ||| final(self)@.version == w && partly_retired(
                        old(self)@,
                        final(self)@,
                        inputs@,
                        deleted_rows as int,
                        handles@,
                        deltas@,
                    )
                }
            }),
    {
        let ghost before = self@;
        let version_set = self.manifest.version_set();
        let mut stamps: Vec<u64> = Vec::new();
        let mut new_rows: usize = 0;
        let mut i: usize = 0;
        assert(handles@.take(0) =~= Seq::<SstHandle>::empty());
        assert(wrapped_rows(0) == 0);
        while i < handles.len()
            invariant
                i <= handles@.len(),
                stamps@.len() == i,
                forall|j: int| 0 <= j < i ==> stamps@[j] == created_at,
                new_rows == wrapped_rows(rows_written(handles@.take(i as int))),
            decreases handles@.len() - i,
        {
            assert(handles@.take(i + 1).drop_last() =~= handles@.take(i as int));
            stamps.push(created_at);
            proof {
                lemma_wrapped_rows(
                    rows_written(handles@.take(i as int)),
                    handles@[i as int].rows as int,
                );
            }
            let ghost sum = new_rows + handles@[i as int].rows;
            new_rows = new_rows.wrapping_add(handles[i].rows);
            proof {
                lemma_wraps(sum);
                assert(new_rows == wrapped_rows(sum));
                assert(handles@.take(i + 1).last() == handles@[i as int]);
            }
            i += 1;
        }
        assert(handles@.take(i as int) =~= handles@);
        assert(stamps@ =~= stamped(handles@.len(), created_at));
        let edits = compaction_edits(
            inputs,
            &version_set,
            source_level,
            target_level,
            handles,
            stamps.as_slice(),
        );
        let ghost es = edit_models(edits@);
        let appended = self.manifest.append_batch(edits);
        assert(old(self).recording(es, appended is Ok));
        match appended {
            Ok(()) => {},
            Err(e) => {
                assert(self@ =~= (TablesModel { version: self@.version, ..before }));
                return Err(e);
            },
        }
        let ghost start = *self;
        proof {
            lemma_wraps(before.row_count - deleted_rows);
            lemma_wrapped_rows_sum(before.row_count - deleted_rows, rows_written(handles@));
            lemma_wraps(wrapped_rows(before.row_count - deleted_rows) + new_rows);
        }
        self.sst_row_count = self.sst_row_count.wrapping_sub(deleted_rows).wrapping_add(new_rows);
        let mut d: usize = 0;
        assert(deltas@.take(0) =~= Seq::<ByteMap<i128>>::empty());
        while d < deltas.len()
            invariant
                d <= deltas@.len(),
                forall|i: int| 0 <= i < deltas@.len() ==> (#[trigger] deltas@[i]).wf(),
                self.wf(),
                self.sidecars == start.sidecars,
                self@ == (TablesModel {
                    row_count: self@.row_count,
                    table_rows: rows_changed(before.table_rows, deltas@.take(d as int)),
                    ..start@
                }),
                self@.row_count == wrapped_rows(
                    before.row_count - deleted_rows + rows_written(handles@),
                ),
            decreases deltas@.len() - d,
        {
            assert(deltas@.take(d + 1).drop_last() =~= deltas@.take(d as int));
            let ghost mid = self@;
            apply_row_delta(&mut self.table_rows, &deltas[d]);
            d += 1;
            assert(self@ =~= (TablesModel { table_rows: self@.table_rows, ..mid }));
        }
        assert(deltas@.take(d as int) =~= deltas@);
        let mut j: usize = 0;
        let ghost counted = *self;
        proof {
            assert(inputs@.take(0) =~= Seq::<u64>::empty());
        }
        while j < inputs.len()
            invariant
                j <= inputs@.len(),
                self.wf(),
                self@ == (TablesModel {
                    stored: without_files(before.stored, before.dir, inputs@.take(j as int)),
                    stats: without_stats(before.stats, inputs@.take(j as int)),
                    ..counted@
                }),
                counted@.dir == before.dir,
                counted@.schemas == before.schemas,
                counted@.stats_version == before.stats_version,
                counted@.row_count == wrapped_rows(
                    before.row_count - deleted_rows + rows_written(handles@),
                ),
                counted@.table_rows == rows_changed(before.table_rows, deltas@),
                before == old(self)@,
                counted.sidecars == old(self).sidecars,
                forall|i: int| 0 <= i < j ==> self.sidecars().gone(#[trigger] inputs@[i]),
                old(self).recording(es, true),
                es == compaction_edit_models(
                    inputs@,
                    before.version.files(source_level),
                    source_level,
                    target_level,
                    handles@,
                    stamped(handles@.len(), created_at),
                ),
                forall|k: u64, rs: Seq<RowModel>| #[trigger]
                    old(self).describes_as(k, rs) ==> self.describes_as(k, rs),
                forall|k: u64| #[trigger] old(self).bare(k) ==> self.bare(k),
                counted@.version == before.version.replay(
                    compaction_edit_models(
                        inputs@,
                        before.version.files(source_level),
                        source_level,
                        target_level,
                        handles@,
                        stamped(handles@.len(), created_at),
                    ),
                ),
            decreases inputs@.len() - j,
        {
            let ghost mid = *self;
            let input: u64 = inputs[j];
            proof {
                assert(inputs@.take(j + 1).drop_last() =~= inputs@.take(j as int));
            }
            let path = sst_path(self.dir.as_str(), input);
            match self.format.remove(path.as_str()) {
                Ok(()) => {},
                Err(e) => {
                    proof {
                        assert(old(self).stops_retiring(mid.format(), inputs@, j as int));
                        assert(self@ =~= (TablesModel { stored: self@.stored, ..mid@ }));
                        assert forall|k: u64|
                            #![trigger before.path(k)]
                            !inputs@.contains(k) implies {
                            &&& self@.stored.contains_key(before.path(k))
                                == before.stored.contains_key(before.path(k))
                            &&& self@.stored[before.path(k)] == before.stored[before.path(k)]
                        } by {
                            lemma_partly_removed(before, mid@, self@, inputs@, j as int, k);
                        }
                        assert(self@.stats == without_stats(before.stats, inputs@.take(j as int)));
                        assert(partly_retired(
                            before,
                            self@,
                            inputs@,
                            deleted_rows as int,
                            handles@,
                            deltas@,
                        ));
                    }
                    return Err(e);
                },
            }
            self.sidecars.retire(input);
            let _ = self.column_stats.remove(input);
            proof {
                assert(self@.stats =~= mid@.stats.remove(input));
                assert(self@ =~= (TablesModel {
                    stored: mid@.stored.remove(before.path(input)),
                    stats: mid@.stats.remove(input),
                    ..mid@
                }));
                assert forall|k: u64, rs: Seq<RowModel>| #[trigger] old(self).describes_as(
                    k,
                    rs,
                ) implies self.describes_as(k, rs) by {
                    assert(mid.describes_as(k, rs));
                    assert(mid.sidecars.fits(k, rs));
                }
                assert forall|k: u64| #[trigger] old(self).bare(k) implies self.bare(k) by {
                    assert(mid.bare(k));
                    assert(mid.sidecars.bare(k));
                }
            }
            j += 1;
        }
        let ghost cleaned = *self;
        self.stats_version = self.stats_version.wrapping_add(1);
        proof {
            assert(inputs@.take(j as int) =~= inputs@);
            assert(self@ =~= (TablesModel { stats_version: self@.stats_version, ..cleaned@ }));
            assert forall|k: u64|
                #![trigger before.path(k)]
                !inputs@.contains(k) implies {
                &&& self@.stored.contains_key(before.path(k)) == before.stored.contains_key(
                    before.path(k),
                )
                &&& self@.stored[before.path(k)] == before.stored[before.path(k)]
            } by {
                lemma_without_files(before.stored, before.dir, inputs@, k);
            }
            assert forall|k: u64, rs: Seq<RowModel>| #[trigger] old(self).describes_as(
                k,
                rs,
            ) implies self.describes_as(k, rs) by {
                assert(cleaned.describes_as(k, rs));
            }
            assert forall|k: u64| #[trigger] old(self).bare(k) implies self.bare(k) by {
                assert(cleaned.bare(k));
            }
        }
        Ok(())
    }
}

proof fn lemma_partly_removed(
    before: TablesModel,
    mid: TablesModel,
    after: TablesModel,
    inputs: Seq<u64>,
    j: int,
    k: u64,
)
    requires
        0 <= j < inputs.len(),
        mid.stored == without_files(before.stored, before.dir, inputs.take(j)),
        after.stored.remove(sst_path_of(before.dir, inputs[j])) == mid.stored.remove(
            sst_path_of(before.dir, inputs[j]),
        ),
        !inputs.contains(k),
    ensures
        after.stored.contains_key(before.path(k)) == before.stored.contains_key(before.path(k)),
        after.stored[before.path(k)] == before.stored[before.path(k)],
{
    let front = inputs.take(j);
    assert(!front.contains(k)) by {
        if front.contains(k) {
            let i = choose|i: int| 0 <= i < front.len() && front[i] == k;
            assert(inputs[i] == k);
        }
    }
    lemma_without_files(before.stored, before.dir, front, k);
    assert(inputs.contains(inputs[j]));
    law_paths_are_distinct(before.dir, k, inputs[j]);
    let p = before.path(k);
    let q = sst_path_of(before.dir, inputs[j]);
    assert(after.stored.remove(q).contains_key(p) == mid.stored.remove(q).contains_key(p));
    assert(after.stored.remove(q)[p] == mid.stored.remove(q)[p]);
}

/// A sum of two counts wraps around once at most.
proof fn lemma_wraps(n: int)
    ensures
        0 <= n <= usize::MAX ==> wrapped_rows(n) == n,
        usize::MAX < n <= 2 * usize::MAX ==> wrapped_rows(n) == n - usize::MAX - 1,
        -usize::MAX <= n < 0 ==> wrapped_rows(n) == n + usize::MAX + 1,
{
    let m = usize::MAX + 1;
    if 0 <= n <= usize::MAX {
        vstd::arithmetic::div_mod::lemma_small_mod(n as nat, m as nat);
    } else if usize::MAX < n <= 2 * usize::MAX {
        vstd::arithmetic::div_mod::lemma_mod_add_multiples_vanish(n - m, m);
        vstd::arithmetic::div_mod::lemma_small_mod((n - m) as nat, m as nat);
    } else if -usize::MAX <= n < 0 {
        vstd::arithmetic::div_mod::lemma_mod_add_multiples_vanish(n, m);
        vstd::arithmetic::div_mod::lemma_small_mod((n + m) as nat, m as nat);
    }
}

proof fn lemma_wrapped_rows(a: int, b: int)
    ensures
        wrapped_rows(a + b) == wrapped_rows(wrapped_rows(a) + b),
{
    let n = usize::MAX + 1;
    vstd::arithmetic::div_mod::lemma_add_mod_noop(a, b, n);
    vstd::arithmetic::div_mod::lemma_add_mod_noop(a % n, b, n);
    vstd::arithmetic::div_mod::lemma_mod_twice(a, n);
}

proof fn lemma_wrapped_rows_sum(a: int, b: int)
    ensures
        wrapped_rows(a + b) == wrapped_rows(wrapped_rows(a) + wrapped_rows(b)),
{
    lemma_wrapped_rows(a, b);
    lemma_wrapped_rows(b, wrapped_rows(a) as int);
}

/// A compaction failed. Either it was not recorded, and no file that was there
/// before is touched; or it was, with the files that were written, and retiring
/// the inputs had not begun or stopped at one of them.
pub open spec fn compaction_failed<F: FileIO, S: SstFormat>(
    before: Tables<F, S>,
    after: Tables<F, S>,
    inputs: Seq<u64>,
    chunks: Seq<Seq<u64>>,
    sl: u32,
    tl: u32,
    watermark: u64,
    created_at: u64,
) -> bool {
    let v = before@.version;
    ||| after@.version == v && after@.stats_version == before@.stats_version && after@.row_count
        == before@.row_count && after@.table_rows == before@.table_rows && keeps_recorded(
        before@,
        after@,
    )
    ||| exists|ts: Seq<Tables<F, S>>, outs: Seq<ChunkOutput>| #[trigger]
        before.reaches(ts, outs, chunks, watermark) && ({
            let written = ts.last()@;
            let hs = outs.map_values(|out: ChunkOutput| out.handle);
            &&& outs.len() == chunks.len()
            &&& after@.version == v.replay(
                compaction_edit_models(
                    inputs,
                    v.files(sl),
                    sl,
                    tl,
                    hs,
                    stamped(hs.len(), created_at),
                ),
            )
            &&& after@ == (TablesModel { version: after@.version, ..written }) || partly_retired(
                written,
                after@,
                inputs,
                rows_retired(outs),
                hs,
                outs.map_values(|out: ChunkOutput| out.prefix_delta),
            )
        })
}

/// The files that may have been recorded are not touched.
pub open spec fn keeps_recorded(before: TablesModel, after: TablesModel) -> bool {
    forall|k: u64|
        #![trigger before.path(k)]
        k < before.version.next_file_id ==> {
            &&& after.stored.contains_key(before.path(k)) == before.stored.contains_key(
                before.path(k),
            )
            &&& after.stored[before.path(k)] == before.stored[before.path(k)]
        }
}

/// The rows that go into the merges.
pub open spec fn rows_read(m: TablesModel, chunks: Seq<Seq<u64>>) -> nat
    decreases chunks.len(),
{
    if chunks.len() == 0 {
        0
    } else {
        rows_read(m, chunks.drop_last()) + rows_all(m, chunks.last()).len()
    }
}

/// The per-table counts changed by what each merge left out.
pub open spec fn counts_follow(
    before: TablesModel,
    after: TablesModel,
    chunks: Seq<Seq<u64>>,
    watermark: u64,
) -> bool {
    exists|ds: Seq<ByteMap<i128>>, outs: Seq<Seq<RowModel>>| #[trigger]
        are_deltas(before, chunks, ds, outs, watermark) && after.table_rows == rows_changed(
            before.table_rows,
            ds,
        )
}

/// The deltas are those from the files of each chunk to its merge.
pub open spec fn are_deltas(
    before: TablesModel,
    chunks: Seq<Seq<u64>>,
    ds: Seq<ByteMap<i128>>,
    outs: Seq<Seq<RowModel>>,
    watermark: u64,
) -> bool {
    &&& ds.len() == chunks.len()
    &&& outs.len() == chunks.len()
    &&& forall|c: int|
        0 <= c < chunks.len() ==> {
            &&& is_merged(#[trigger] outs[c], rows_all(before, chunks[c]), watermark)
            &&& ds[c].wf()
            &&& is_row_delta(ds[c]@, rows_all(before, chunks[c]), outs[c])
        }
}

proof fn lemma_rows_all_same(a: TablesModel, b: TablesModel, ids: Seq<u64>)
    requires
        forall|i: int| 0 <= i < ids.len() ==> a.rows(#[trigger] ids[i]) == b.rows(ids[i]),
    ensures
        rows_all(a, ids) == rows_all(b, ids),
    decreases ids.len(),
{
    if ids.len() > 0 {
        assert forall|i: int| 0 <= i < ids.drop_last().len() implies a.rows(
            #[trigger] ids.drop_last()[i],
        ) == b.rows(ids.drop_last()[i]) by {
            assert(ids.drop_last()[i] == ids[i]);
        }
        lemma_rows_all_same(a, b, ids.drop_last());
        assert(a.rows(ids[ids.len() - 1]) == b.rows(ids[ids.len() - 1]));
    }
}

/// Files of ids that were never recorded do not bear on soundness.
proof fn lemma_unrecorded_sound<F: FileIO, S: SstFormat>(before: Tables<F, S>, after: Tables<F, S>)
    requires
        before.sound(),
        after@.dir == before@.dir,
        after@.version == before@.version,
        forall|k: u64|
            #![trigger before@.path(k)]
            k < before@.version.next_file_id ==> {
                &&& after@.stored.contains_key(before@.path(k)) == before@.stored.contains_key(
                    before@.path(k),
                )
                &&& after@.stored[before@.path(k)] == before@.stored[before@.path(k)]
            },
        forall|k: u64, rs: Seq<RowModel>|
            k < before@.version.next_file_id && #[trigger] before.describes_as(k, rs)
                ==> after.describes_as(k, rs),
    ensures
        after.sound(),
{
    assert forall|k: u64| #[trigger] after@.live(k) implies after.described(k)
        && after@.file_kept(k) by {
        assert(before@.live(k));
        assert(before@.file_kept(k));
        assert(after@.stored.contains_key(before@.path(k)));
        assert(after@.rows(k) == before@.rows(k));
        assert(before.described(k));
        assert(before.describes_as(k, before@.rows(k)));
        assert(after.describes_as(k, before@.rows(k)));
    }
    assert forall|k: u64| #[trigger] after@.version.meta.contains_key(k) implies after@.live(k) by {
        assert(before@.version.meta.contains_key(k));
        assert(before@.live(k));
    }
}

/// A recorded compaction keeps files and sidecars together.
proof fn lemma_compaction_sound<F: FileIO, S: SstFormat>(
    before: Tables<F, S>,
    after: Tables<F, S>,
    inputs: Seq<u64>,
    sl: u32,
    tl: u32,
    chunks: Seq<Seq<u64>>,
    outs: Seq<Seq<RowModel>>,
    hs: Seq<SstHandle>,
    stamps: Seq<u64>,
    watermark: u64,
)
    requires
        before.sound(),
        lists(inputs, before@.version.files(sl).union(before@.version.files(tl))),
        before@.version.next_file_id + hs.len() < u64::MAX,
        is_written(before@, after@, chunks, outs, hs, watermark),
        chunks_cover(chunks, inputs),
        after@.dir == before@.dir,
        after@.version == before@.version.replay(
            compaction_edit_models(inputs, before@.version.files(sl), sl, tl, hs, stamps),
        ),
        forall|k: u64|
            #![trigger before@.path(k)]
            k < before@.version.next_file_id && !inputs.contains(k) ==> {
                &&& after@.stored.contains_key(before@.path(k)) == before@.stored.contains_key(
                    before@.path(k),
                )
                &&& after@.stored[before@.path(k)] == before@.stored[before@.path(k)]
            },
        forall|k: u64, rs: Seq<RowModel>|
            k < before@.version.next_file_id && #[trigger] before.describes_as(k, rs)
                ==> after.describes_as(k, rs),
        forall|c: int|
            0 <= c < outs.len() ==> after.describes_as(
                (before@.version.next_file_id + c) as u64,
                untagged_rows(#[trigger] outs[c]),
            ),
        forall|k: u64|
            k >= before@.version.next_file_id + hs.len() ==> #[trigger] after.bare(k),
    ensures
        after.sound(),
        after.clean_ahead(),
        is_compacted(before@, after@, with_outputs(chunks, hs), watermark),
{
    let base = before@.version.next_file_id;
    let m = before@;
    let w = after@;
    let n = hs.len() as int;
    assert forall|k: u64| m.live(k) && !inputs.contains(k) implies w.stored.contains_key(
        #[trigger] w.path(k),
    ) && w.stored[w.path(k)] == m.stored[m.path(k)] by {
        assert(m.file_kept(k));
        assert(w.path(k) == m.path(k));
    }
    law_compaction_keeps_files(m, w, inputs, sl, tl, chunks, outs, hs, stamps, watermark);
    let pairs = with_outputs(chunks, hs);
    assert forall|i: int| 0 <= i < n implies (#[trigger] hs[i]).file_id == base + i by {
        assert(is_merged(outs[i], rows_all(m, chunks[i]), watermark));
    }
    assert forall|k: u64| #[trigger] w.live(k) implies after.described(k) by {
        if is_output(pairs, k) {
            let c = choose|c: int| 0 <= c < pairs.len() && (#[trigger] pairs[c]).1 == k;
            assert(hs[c].file_id == base + c);
            assert(is_merged(outs[c], rows_all(m, chunks[c]), watermark));
            assert(after.describes_as(k, untagged_rows(outs[c])));
        } else {
            assert(m.live(k) && !is_input(pairs, k));
            assert(m.file_kept(k));
            assert(before.described(k));
            assert(before.describes_as(k, m.rows(k)));
            assert(after.describes_as(k, m.rows(k)));
        }
    }
    law_compaction_replaces_files(m, inputs, sl, tl, hs, stamps);
    assert(w.version.next_file_id >= base + n) by {
        if n > 0 {
            assert(w.version.next_file_id > hs[n - 1].file_id);
        }
    }
    assert forall|k: u64| k >= w.version.next_file_id implies #[trigger] after.sidecars.bare(k) by {
        assert(after.bare(k));
    }
}

impl<F: FileIO, S: SstFormat> Tables<F, S> {
    /// The engine can take `n` more files and compact these inputs.
    pub open spec fn ready_for(
        &self,
        inputs: Seq<u64>,
        sl: u32,
        tl: u32,
        chunks: Seq<Seq<u64>>,
    ) -> bool {
        &&& self.sound()
        &&& self.clean_ahead()
        &&& self@.version.next_file_id + chunks.len() < u64::MAX
        &&& lists(inputs, self@.version.files(sl).union(self@.version.files(tl)))
        &&& chunks_cover(chunks, inputs)
    }

    /// `self` is `before` after the chunks of the inputs were compacted into
    /// files with the handles `hs`.
    pub open spec fn compacts(
        &self,
        before: &Self,
        inputs: Seq<u64>,
        chunks: Seq<Seq<u64>>,
        sl: u32,
        tl: u32,
        watermark: u64,
        created_at: u64,
        hs: Seq<SstHandle>,
    ) -> bool {
        let v = before@.version;
        &&& hs.len() == chunks.len()
        &&& self.finishes(before, inputs, chunks, watermark, hs)
        &&& self@.version == v.replay(
            compaction_edit_models(
                inputs,
                v.files(sl),
                sl,
                tl,
                hs,
                stamped(hs.len(), created_at),
            ),
        )
        &&& self@.stats_version == wrapped(before@.stats_version, 1)
        &&& before.ready_for(inputs, sl, tl, chunks) ==> {
            &&& is_compacted(before@, self@, with_outputs(chunks, hs), watermark)
            &&& self.clean_ahead()
            &&& counts_follow(before@, self@, chunks, watermark)
            &&& self@.row_count == wrapped_rows(
                before@.row_count - capped_count(rows_read(before@, chunks) as int)
                    + rows_written(hs),
            )
        }
    }

    /// The states `ts` come one after the other from `self`, each by compacting
    /// the next chunk into a new file, with the outputs `outs`.
    pub open spec fn reaches(
        &self,
        ts: Seq<Self>,
        outs: Seq<ChunkOutput>,
        chunks: Seq<Seq<u64>>,
        watermark: u64,
    ) -> bool {
        &&& ts.len() == outs.len() + 1
        &&& outs.len() <= chunks.len()
        &&& ts[0] == *self
        &&& forall|c: int|
            0 <= c < outs.len() ==> ts[c + 1].has_chunk(
                &ts[c],
                chunks[c],
                watermark,
                new_file_id(self@.version, c),
                #[trigger] outs[c],
            )
    }

    /// `self` is `before` after the chunks were compacted one after the other
    /// into files with the handles `hs`, as the format gave them, and the
    /// inputs retired: their files, statistics and sidecars are gone, and the
    /// rows are counted anew.
    pub open spec fn finishes(
        &self,
        before: &Self,
        inputs: Seq<u64>,
        chunks: Seq<Seq<u64>>,
        watermark: u64,
        hs: Seq<SstHandle>,
    ) -> bool {
        exists|ts: Seq<Self>, outs: Seq<ChunkOutput>| #[trigger]
            before.reaches(ts, outs, chunks, watermark) && ({
                let written = ts.last()@;
                &&& outs.len() == chunks.len()
                &&& hs == outs.map_values(|out: ChunkOutput| out.handle)
                &&& self@.stored == without_files(written.stored, written.dir, inputs)
                &&& self@.stats == without_stats(written.stats, inputs)
                &&& self@.row_count == wrapped_rows(
                    before@.row_count - rows_retired(outs) + rows_written(hs),
                )
                &&& self@.table_rows == rows_changed(
                    before@.table_rows,
                    outs.map_values(|out: ChunkOutput| out.prefix_delta),
                )
                &&& forall|i: int|
                    0 <= i < inputs.len() ==> self.sidecars().gone(#[trigger] inputs[i])
            })
    }

    /// Compacting the chunks of the inputs may fail: at one of the chunks, or
    /// at replacing the inputs once all are written.
    pub open spec fn compaction_may_fail(
        &self,
        inputs: Seq<u64>,
        chunks: Seq<Seq<u64>>,
        sl: u32,
        tl: u32,
        watermark: u64,
        created_at: u64,
    ) -> bool {
        exists|ts: Seq<Self>, outs: Seq<ChunkOutput>| #[trigger]
            self.reaches(ts, outs, chunks, watermark) && if outs.len() < chunks.len() {
                ts.last().chunk_may_fail(
                    chunks[outs.len() as int],
                    watermark,
                    new_file_id(self@.version, outs.len() as int),
                )
            } else {
                let hs = outs.map_values(|out: ChunkOutput| out.handle);
                ts.last().replacing(
                    compaction_edit_models(
                        inputs,
                        self@.version.files(sl),
                        sl,
                        tl,
                        hs,
                        stamped(hs.len(), created_at),
                    ),
                    inputs,
                    false,
                )
            }
    }

    /// Merges every chunk of the inputs into a new file of the target level
    /// and replaces the inputs.
    #[verifier::rlimit(60)]
    #[verifier::spinoff_prover]
    fn compact_chunks(
        &mut self,
        inputs: &[u64],
        chunks: &Vec<Vec<u64>>,
        source_level: u32,
        target_level: u32,
        watermark: u64,
        created_at: u64,
    ) -> (r: Result<Vec<SstHandle>>)
        requires
            old(self).wf(),
        ensures
            final(self).wf(),
            final(self)@.dir == old(self)@.dir,
            final(self)@.schemas == old(self)@.schemas,
            old(self).ready_for(inputs@, source_level, target_level, chunk_views(chunks@))
                ==> final(self).sound(),
            r matches Ok(hs) ==> final(self).compacts(
                old(self),
                inputs@,
                chunk_views(chunks@),
                source_level,
                target_level,
                watermark,
                created_at,
                hs@,
            ),
            r is Err ==> compaction_failed(
                *old(self),
                *final(self),
                inputs@,
                chunk_views(chunks@),
                source_level,
                target_level,
                watermark,
                created_at,
            ),
            r is Err ==> old(self).compaction_may_fail(
                inputs@,
                chunk_views(chunks@),
                source_level,
                target_level,
                watermark,
                created_at,
            ),
    {
        let ghost mut ts: Seq<Self> = seq![*self];
        let ghost mut steps: Seq<ChunkOutput> = Seq::empty();
        let ghost m = self@;
        let ghost base = m.version.next_file_id;
        let ghost cs = chunk_views(chunks@);
        let ghost ready = self.ready_for(inputs@, source_level, target_level, cs);
        let ghost mut outs: Seq<Seq<RowModel>> = Seq::empty();
        let base_file_id: u64 = self.manifest.version_set().next_file_id();
        let mut handles: Vec<SstHandle> = Vec::new();
        let mut deltas: Vec<ByteMap<i128>> = Vec::new();
        let mut deleted_rows: usize = 0;
        let mut i: usize = 0;
        proof {
            assert(cs.take(0) =~= Seq::<Seq<u64>>::empty());
            if ready {
                assert forall|k: u64| k >= base implies #[trigger] self.bare(k) by {
                    assert(self.sidecars.bare(k));
                }
            }
        }
        while i < chunks.len()
            invariant
                i <= chunks@.len(),
                m == old(self)@,
                base == m.version.next_file_id,
                base_file_id == base,
                cs == chunk_views(chunks@),
                ready == old(self).ready_for(inputs@, source_level, target_level, cs),
                self.wf(),
                self@ == (TablesModel { stored: self@.stored, stats: self@.stats, ..m }),
                old(self).reaches(ts, steps, cs, watermark),
                ts.last() == *self,
                steps.map_values(|out: ChunkOutput| out.handle) == handles@,
                steps.map_values(|out: ChunkOutput| out.prefix_delta) == deltas@,
                steps.len() == i,
                deleted_rows == rows_retired(steps),
                keeps_recorded(m, self@),
                handles@.len() == i,
                deltas@.len() == i,
                outs.len() == i,
                forall|c: int| 0 <= c < i ==> (#[trigger] deltas@[c]).wf(),
                ready ==> {
                    &&& forall|c: int|
                        0 <= c < i ==> {
                            &&& is_merged(#[trigger] outs[c], rows_all(m, cs[c]), watermark)
                            &&& in_order(outs[c])
                            &&& describes(handles@[c], outs[c], (base + c) as u64)
                            &&& self@.stored.contains_key(m.path((base + c) as u64))
                            &&& self@.rows((base + c) as u64) == untagged_rows(outs[c])
                            &&& is_row_delta(deltas@[c]@, rows_all(m, cs[c]), outs[c])
                            &&& self.describes_as((base + c) as u64, untagged_rows(outs[c]))
                        }
                    &&& forall|k: u64, rs: Seq<RowModel>|
                        k < base && #[trigger] old(self).describes_as(k, rs)
                            ==> self.describes_as(k, rs)
                    &&& forall|k: u64| k >= base + i ==> #[trigger] self.bare(k)
                    &&& deleted_rows == capped_count(rows_read(m, cs.take(i as int)) as int)
                },
            decreases chunks@.len() - i,
        {
            let ghost before = *self;
            let ghost chunk = cs[i as int];
            proof {
                assert(cs[i as int] == chunks@[i as int]@);
                assert(cs.take(i + 1).drop_last() =~= cs.take(i as int));
                if ready {
                    assert forall|p: int| 0 <= p < chunk.len() implies before@.rows(
                        #[trigger] chunk[p],
                    ) == m.rows(chunk[p]) by {
                        lemma_input_is_old(*old(self), inputs@, source_level, target_level, cs, i as int, p);
                        assert(before@.path(chunk[p]) == m.path(chunk[p]));
                    }
                    lemma_rows_all_same(before@, m, chunk);
                    assert(base + i < u64::MAX);
                }
            }
            let file_id: u64 = base_file_id.saturating_add(i as u64);
            let out = match self.compact_chunk(chunks[i].as_slice(), watermark, file_id) {
                Ok(out) => out,
                Err(e) => {
                    proof {
                        assert forall|k: u64|
                            #![trigger m.path(k)]
                            k < base implies {
                            &&& self@.stored.contains_key(m.path(k)) == m.stored.contains_key(
                                m.path(k),
                            )
                            &&& self@.stored[m.path(k)] == m.stored[m.path(k)]
                        } by {
                            lemma_kept_path(before@, self@, m.dir, file_id, k);
                        }
                        if ready {
                            assert forall|k: u64, rs: Seq<RowModel>|
                                k < base && #[trigger] old(self).describes_as(
                                    k,
                                    rs,
                                ) implies self.describes_as(k, rs) by {
                                assert(before.describes_as(k, rs));
                            }
                            lemma_unrecorded_sound(*old(self), *self);
                        }
                    }
                    return Err(e);
                },
            };
            let ghost ms = choose|ms: Seq<RowModel>| #[trigger]
                is_chunk_output(before@, self@, chunk, watermark, file_id, out, ms) && (
                before.bare(file_id) ==> self.describes_as(file_id, untagged_rows(ms)));
            proof {
                assert(is_chunk_output(before@, self@, chunk, watermark, file_id, out, ms));
                assert forall|k: u64|
                    #![trigger m.path(k)]
                    k < base implies {
                    &&& self@.stored.contains_key(m.path(k)) == m.stored.contains_key(m.path(k))
                    &&& self@.stored[m.path(k)] == m.stored[m.path(k)]
                } by {
                    law_paths_are_distinct(m.dir, k, file_id);
                }
                outs = outs.push(ms);
                let reached = ts;
                let done = steps;
                ts = ts.push(*self);
                steps = steps.push(out);
                assert(steps.drop_last() =~= done);
                lemma_reaches_next(*old(self), reached, done, cs, watermark, *self, out);
            }
            deleted_rows = deleted_rows.saturating_add(out.deleted_rows);
            handles.push(out.handle);
            assert(steps.map_values(|out: ChunkOutput| out.handle) =~= handles@);
            deltas.push(out.prefix_delta);
            assert(steps.map_values(|out: ChunkOutput| out.prefix_delta) =~= deltas@);
            proof {
                if ready {
                    assert(file_id == base + i);
                    assert(before.bare(file_id));
                    assert forall|c: int| 0 <= c < i + 1 implies {
                        &&& is_merged(#[trigger] outs[c], rows_all(m, cs[c]), watermark)
                        &&& in_order(outs[c])
                        &&& describes(handles@[c], outs[c], (base + c) as u64)
                        &&& self@.stored.contains_key(m.path((base + c) as u64))
                        &&& self@.rows((base + c) as u64) == untagged_rows(outs[c])
                        &&& is_row_delta(deltas@[c]@, rows_all(m, cs[c]), outs[c])
                        &&& self.describes_as((base + c) as u64, untagged_rows(outs[c]))
                    } by {
                        if c < i {
                            let k = (base + c) as u64;
                            law_paths_are_distinct(m.dir, k, file_id);
                            assert(before.describes_as(k, untagged_rows(outs[c])));
                        }
                    }
                    assert forall|k: u64, rs: Seq<RowModel>|
                        k < base && #[trigger] old(self).describes_as(
                            k,
                            rs,
                        ) implies self.describes_as(k, rs) by {
                        assert(before.describes_as(k, rs));
                    }
                    assert forall|k: u64| k >= base + i + 1 implies #[trigger] self.bare(k) by {
                        assert(before.bare(k));
                    }
                }
            }
            i += 1;
        }
        assert(cs.take(i as int) =~= cs);
        let ghost written = *self;
        let committed = self.commit_compaction(
            inputs,
            source_level,
            target_level,
            handles.as_slice(),
            created_at,
            deleted_rows,
            &deltas,
        );
        let ghost stamps = stamped(handles@.len(), created_at);
        proof {
            if ready {
                assert forall|k: u64, rs: Seq<RowModel>|
                    k < base && #[trigger] old(self).describes_as(k, rs) implies self.describes_as(
                    k,
                    rs,
                ) by {
                    assert(written.describes_as(k, rs));
                }
                if self@.version == m.version.replay(
                    compaction_edit_models(
                        inputs@,
                        m.version.files(source_level),
                        source_level,
                        target_level,
                        handles@,
                        stamps,
                    ),
                ) {
                    lemma_outputs_stay(*old(self), written@, self@, inputs@, source_level, target_level, cs);
                    assert forall|c: int| 0 <= c < cs.len() implies {
                        &&& is_merged(#[trigger] outs[c], rows_all(m, cs[c]), watermark)
                        &&& in_order(outs[c])
                        &&& describes(handles@[c], outs[c], (base + c) as u64)
                        &&& self@.stored.contains_key(self@.path(handles@[c].file_id))
                        &&& self@.rows(handles@[c].file_id) == untagged_rows(outs[c])
                    } by {
                        let k = (base + c) as u64;
                        assert(is_merged(outs[c], rows_all(m, cs[c]), watermark));
                        assert(handles@[c].file_id == k);
                        assert(self@.path(k) == m.path(k));
                        assert(written@.stored.contains_key(m.path(k)));
                    }
                    assert(is_written(m, self@, cs, outs, handles@, watermark));
                    assert forall|k: u64|
                        #![trigger m.path(k)]
                        k < base && !inputs@.contains(k) implies {
                        &&& self@.stored.contains_key(m.path(k)) == m.stored.contains_key(
                            m.path(k),
                        )
                        &&& self@.stored[m.path(k)] == m.stored[m.path(k)]
                    } by {
                        assert(written@.path(k) == m.path(k));
                    }
                    assert forall|c: int| 0 <= c < outs.len() implies self.describes_as(
                        (base + c) as u64,
                        untagged_rows(#[trigger] outs[c]),
                    ) by {
                        assert(written.describes_as((base + c) as u64, untagged_rows(outs[c])));
                    }
                    assert forall|k: u64| k >= base + handles@.len() implies
                        #[trigger] self.bare(k) by {
                        assert(written.bare(k));
                    }
                    lemma_compaction_sound(
                        *old(self),
                        *self,
                        inputs@,
                        source_level,
                        target_level,
                        cs,
                        outs,
                        handles@,
                        stamps,
                        watermark,
                    );
                } else {
                    lemma_unrecorded_sound(*old(self), *self);
                }
                assert(are_deltas(m, cs, deltas@, outs, watermark));
            }
        }
        match committed {
            Ok(()) => {
                assert(self.finishes(old(self), inputs@, cs, watermark, handles@));
                Ok(handles)
            },
            Err(e) => {
                assert(self@.version == m.version || self@.version == m.version.replay(
                    compaction_edit_models(
                        inputs@,
                        m.version.files(source_level),
                        source_level,
                        target_level,
                        handles@,
                        stamped(handles@.len(), created_at),
                    ),
                ));
                Err(e)
            },
        }
    }
}

/// One more chunk was compacted.
proof fn lemma_reaches_next<F: FileIO, S: SstFormat>(
    t: Tables<F, S>,
    ts: Seq<Tables<F, S>>,
    outs: Seq<ChunkOutput>,
    chunks: Seq<Seq<u64>>,
    watermark: u64,
    next: Tables<F, S>,
    out: ChunkOutput,
)
    requires
        t.reaches(ts, outs, chunks, watermark),
        outs.len() < chunks.len(),
        next.has_chunk(
            &ts.last(),
            chunks[outs.len() as int],
            watermark,
            new_file_id(t@.version, outs.len() as int),
            out,
        ),
    ensures
        t.reaches(ts.push(next), outs.push(out), chunks, watermark),
{
    let us = ts.push(next);
    let more = outs.push(out);
    assert forall|c: int| 0 <= c < more.len() implies us[c + 1].has_chunk(
        &us[c],
        chunks[c],
        watermark,
        new_file_id(t@.version, c),
        #[trigger] more[c],
    ) by {
        if c < outs.len() {
            assert(more[c] == outs[c]);
            assert(ts[c + 1].has_chunk(
                &ts[c],
                chunks[c],
                watermark,
                new_file_id(t@.version, c),
                outs[c],
            ));
        }
    }
}

/// The inputs of a compaction are recorded files.
proof fn lemma_input_is_old<F: FileIO, S: SstFormat>(
    t: Tables<F, S>,
    inputs: Seq<u64>,
    sl: u32,
    tl: u32,
    cs: Seq<Seq<u64>>,
    c: int,
    p: int,
)
    requires
        t.ready_for(inputs, sl, tl, cs),
        0 <= c < cs.len(),
        0 <= p < cs[c].len(),
    ensures
        cs[c][p] < t@.version.next_file_id,
{
    let k = cs[c][p];
    assert(cs[c].contains(k));
    assert(inputs.contains(k));
    lemma_input_is_live(t, inputs, sl, tl, k);
}

proof fn lemma_input_is_live<F: FileIO, S: SstFormat>(
    t: Tables<F, S>,
    inputs: Seq<u64>,
    sl: u32,
    tl: u32,
    k: u64,
)
    requires
        t.sound(),
        lists(inputs, t@.version.files(sl).union(t@.version.files(tl))),
        inputs.contains(k),
    ensures
        t@.live(k),
        k < t@.version.next_file_id,
{
    let v = t@.version;
    assert(v.files(sl).union(v.files(tl)).contains(k));
    if v.files(sl).contains(k) {
        assert(v.holds(sl, k));
    } else {
        assert(v.holds(tl, k));
    }
    assert(t@.live(k));
    assert(t@.file_kept(k));
}

/// Retiring the inputs leaves the outputs.
proof fn lemma_outputs_stay<F: FileIO, S: SstFormat>(
    t: Tables<F, S>,
    written: TablesModel,
    after: TablesModel,
    inputs: Seq<u64>,
    sl: u32,
    tl: u32,
    cs: Seq<Seq<u64>>,
)
    requires
        t.ready_for(inputs, sl, tl, cs),
        written.dir == t@.dir,
        same_files_but(written, after, inputs),
    ensures
        forall|k: u64|
            #![trigger t@.path(k)]
            k >= t@.version.next_file_id ==> {
                &&& after.stored.contains_key(t@.path(k)) == written.stored.contains_key(t@.path(k))
                &&& after.stored[t@.path(k)] == written.stored[t@.path(k)]
            },
{
    assert forall|k: u64|
        #![trigger t@.path(k)]
        k >= t@.version.next_file_id implies {
        &&& after.stored.contains_key(t@.path(k)) == written.stored.contains_key(t@.path(k))
        &&& after.stored[t@.path(k)] == written.stored[t@.path(k)]
    } by {
        if inputs.contains(k) {
            lemma_input_is_live(t, inputs, sl, tl, k);
        }
        assert(written.path(k) == t@.path(k));
    }
}

/// What happens at one path does not touch another.
proof fn lemma_kept_path(before: TablesModel, after: TablesModel, dir: Seq<char>, id: u64, k: u64)
    requires
        k != id,
        after.stored.remove(sst_path_of(dir, id)) == before.stored.remove(sst_path_of(dir, id)),
    ensures
        after.stored.contains_key(sst_path_of(dir, k)) == before.stored.contains_key(
            sst_path_of(dir, k),
        ),
        after.stored[sst_path_of(dir, k)] == before.stored[sst_path_of(dir, k)],
{
    law_paths_are_distinct(dir, k, id);
    let p = sst_path_of(dir, k);
    let q = sst_path_of(dir, id);
    assert(after.stored.remove(q).contains_key(p) == before.stored.remove(q).contains_key(p));
    assert(after.stored.remove(q)[p] == before.stored.remove(q)[p]);
}

/// The files of two levels.
pub open spec fn level_files(v: VersionSetModel, sl: u32, tl: u32) -> Set<u64> {
    v.files(sl).union(v.files(tl))
}

/// One chunk covers its own files.
pub proof fn lemma_one_chunk_covers(inputs: Seq<u64>)
    ensures
        chunks_cover(seq![inputs], inputs),
{
    let cs = seq![inputs];
    assert forall|k: u64| #[trigger] inputs.contains(k) <==> exists|c: int|
        0 <= c < cs.len() && (#[trigger] cs[c]).contains(k) by {
        if inputs.contains(k) {
            assert(cs[0].contains(k));
        }
    }
}

proof fn lemma_flat_covers(cs: Seq<Seq<u64>>, k: u64)
    ensures
        flat(cs).contains(k) <==> exists|c: int|
            0 <= c < cs.len() && (#[trigger] cs[c]).contains(k),
    decreases cs.len(),
{
    if cs.len() > 0 {
        let init = cs.drop_last();
        lemma_flat_covers(init, k);
        let front = flat(init);
        let all = flat(cs);
        if all.contains(k) {
            let i = choose|i: int| 0 <= i < all.len() && all[i] == k;
            if i < front.len() {
                assert(front[i] == k);
                let c = choose|c: int| 0 <= c < init.len() && (#[trigger] init[c]).contains(k);
                assert(cs[c].contains(k));
            } else {
                assert(cs.last()[i - front.len()] == k);
                assert(cs[cs.len() - 1].contains(k));
            }
        }
        if exists|c: int| 0 <= c < cs.len() && (#[trigger] cs[c]).contains(k) {
            let c = choose|c: int| 0 <= c < cs.len() && (#[trigger] cs[c]).contains(k);
            if c < init.len() {
                assert(init[c].contains(k));
                let i = choose|i: int| 0 <= i < front.len() && front[i] == k;
                assert(all[i] == k);
            } else {
                let i = choose|i: int| 0 <= i < cs.last().len() && cs.last()[i] == k;
                assert(all[front.len() + i] == k);
            }
        }
    }
}

impl<F: FileIO, S: SstFormat> Tables<F, S> {
    /// Compacts the files of two levels into one file of the target level.
    /// Fewer than two files are left alone.
    ///
    /// Only versions that no reader at or after the watermark sees are
    /// dropped. The output is recorded before the inputs are retired, in one
    /// batch.
    pub fn compact_with_watermark(
        &mut self,
        source_level: u32,
        target_level: u32,
        watermark: u64,
        created_at: u64,
    ) -> (r: Result<Option<SstHandle>>)
        requires
            old(self).wf(),
        ensures
            final(self).wf(),
            final(self)@.dir == old(self)@.dir,
            final(self)@.schemas == old(self)@.schemas,
            old(self).sound() && old(self).clean_ahead() && old(self)@.version.next_file_id + 1
                < u64::MAX ==> final(self).sound(),
            exists|inputs: Seq<u64>| #[trigger]
                lists(inputs, level_files(old(self)@.version, source_level, target_level)) && (
                match r {
                    Ok(None) => inputs.len() < 2 && *final(self) == *old(self),
                    Ok(Some(h)) => inputs.len() >= 2 && final(self).compacts(
                        old(self),
                        inputs,
                        seq![inputs],
                        source_level,
                        target_level,
                        watermark,
                        created_at,
                        seq![h],
                    ),
                    Err(_) => inputs.len() >= 2 && compaction_failed(
                        *old(self),
                        *final(self),
                        inputs,
                        seq![inputs],
                        source_level,
                        target_level,
                        watermark,
                        created_at,
                    ) && old(self).compaction_may_fail(
                        inputs,
                        seq![inputs],
                        source_level,
                        target_level,
                        watermark,
                        created_at,
                    ),
                }),
    {
        let version_set = self.manifest.version_set();
        let inputs = compaction_inputs(&version_set, source_level, target_level);
        assert(lists(inputs@, level_files(self@.version, source_level, target_level)));
        if inputs.len() < 2 {
            return Ok(None);
        }
        let mut chunk: Vec<u64> = Vec::new();
        chunk.extend_from_slice(inputs.as_slice());
        let mut chunks: Vec<Vec<u64>> = Vec::new();
        chunks.push(chunk);
        proof {
            assert(chunk@ =~= inputs@);
            assert(chunk_views(chunks@) =~= seq![inputs@]);
            lemma_one_chunk_covers(inputs@);
        }
        match self.compact_chunks(
            inputs.as_slice(),
            &chunks,
            source_level,
            target_level,
            watermark,
            created_at,
        ) {
            Ok(handles) => {
                let mut handles = handles;
                let ghost hs = handles@;
                let handle = handles.pop();
                proof {
                    assert(hs =~= seq![hs[0]]);
                }
                Ok(handle)
            },
            Err(e) => Err(e),
        }
    }

    /// Compacts the files of two levels in chunks of limited size, each into a
    /// file of its own, and replaces all of them in one batch.
    pub fn sub_compact(
        &mut self,
        source_level: u32,
        target_level: u32,
        watermark: u64,
        created_at: u64,
    ) -> (r: Result<Option<Vec<SstHandle>>>)
        requires
            old(self).wf(),
        ensures
            final(self).wf(),
            final(self)@.dir == old(self)@.dir,
            final(self)@.schemas == old(self)@.schemas,
            exists|inputs: Seq<u64>| #[trigger]
                lists(inputs, level_files(old(self)@.version, source_level, target_level)) && ({
                    let chunks = chunks_of(
                        split(inputs, old(self)@.version.meta, SUB_COMPACTION_MAX_BYTES),
                    );
                    &&& old(self).ready_for(inputs, source_level, target_level, chunks)
                        ==> final(self).sound()
                    &&& match r {
                        Ok(None) => inputs.len() < 2 && *final(self) == *old(self),
                        Ok(Some(hs)) => inputs.len() >= 2 && final(self).compacts(
                            old(self),
                            inputs,
                            chunks,
                            source_level,
                            target_level,
                            watermark,
                            created_at,
                            hs@,
                        ),
                        Err(_) => inputs.len() >= 2 && compaction_failed(
                            *old(self),
                            *final(self),
                            inputs,
                            chunks,
                            source_level,
                            target_level,
                            watermark,
                            created_at,
                        ) && old(self).compaction_may_fail(
                            inputs,
                            chunks,
                            source_level,
                            target_level,
                            watermark,
                            created_at,
                        ),
                    }
                }),
    {
        let version_set = self.manifest.version_set();
        let inputs = compaction_inputs(&version_set, source_level, target_level);
        assert(lists(inputs@, level_files(self@.version, source_level, target_level)));
        if inputs.len() < 2 {
            return Ok(None);
        }
        let chunks = split_by_size(inputs.as_slice(), &version_set, SUB_COMPACTION_MAX_BYTES);
        match self.compact_chunks(
            inputs.as_slice(),
            &chunks,
            source_level,
            target_level,
            watermark,
            created_at,
        ) {
            Ok(handles) => Ok(Some(handles)),
            Err(e) => Err(e),
        }
    }
}

/// The chunks of a split cover the inputs.
pub proof fn law_split_covers(inputs: Seq<u64>, meta: Map<u64, MetaModel>, max_bytes: u64)
    ensures
        chunks_cover(chunks_of(split(inputs, meta, max_bytes)), inputs),
{
    let cs = chunks_of(split(inputs, meta, max_bytes));
    law_split_partitions(inputs, meta, max_bytes);
    assert forall|k: u64| #[trigger] inputs.contains(k) <==> exists|c: int|
        0 <= c < cs.len() && (#[trigger] cs[c]).contains(k) by {
        lemma_flat_covers(cs, k);
    }
}

// ── Opening ───────────────────────────────────────────────────────────────

/// Counts the rows of the files that could be read: all of them, those of
/// each table, and the newest commit among them.
#[verifier::ext_equal]
pub struct Tally {
    /// Rows of all files.
    pub rows: usize,
    /// Rows by table prefix.
    pub tables: Map<Seq<u8>, usize>,
    /// Newest commit.
    pub newest: u64,
}

/// The newest commit of a list of rows.
pub open spec fn newest_commit(rs: Seq<RowModel>) -> u64
    decreases rs.len(),
{
    if rs.len() == 0 {
        0
    } else {
        later(newest_commit(rs.drop_last()), rs.last().version.begin_ts)
    }
}

/// One more file is counted, where it could be read.
pub open spec fn tally_step(u: Tally, t: Tally, rs: Seq<RowModel>, readable: bool) -> bool {
    if readable {
        &&& t.rows == capped_count(u.rows + rs.len())
        &&& is_grown(t.tables, u.tables, rs)
        &&& t.newest == later(u.newest, newest_commit(rs))
    } else {
        t == u
    }
}

/// The tallies count the listed files one after the other.
pub open spec fn are_tallies(
    ts: Seq<Tally>,
    m: TablesModel,
    ids: Seq<u64>,
    readable: Seq<bool>,
) -> bool {
    &&& ts.len() == readable.len() + 1
    &&& ts[0] == (Tally { rows: 0, tables: Map::empty(), newest: 0 })
    &&& forall|i: int|
        0 <= i < readable.len() ==> tally_step(
            #[trigger] ts[i],
            ts[i + 1],
            m.rows(ids[i]),
            readable[i],
        )
}

/// How many of the first `n` files could not be read.
pub open spec fn failures(readable: Seq<bool>, n: int) -> nat
    decreases n,
{
    if n <= 0 {
        0
    } else {
        failures(readable, n - 1) + (if readable[n - 1] {
            0nat
        } else {
            1
        })
    }
}

/// The counts are those of the files that could be read.
pub open spec fn tallied(m: TablesModel, max_commit: u64, read_failures: u64) -> bool {
    exists|ts: Seq<Tally>, ids: Seq<u64>, readable: Seq<bool>| #[trigger]
        are_tallies(ts, m, ids, readable) && {
            &&& is_listing(ids, m.version)
            &&& readable.len() == ids.len()
            &&& ts.last() == (Tally {
                rows: m.row_count,
                tables: m.table_rows,
                newest: max_commit,
            })
            &&& read_failures == failures(readable, ids.len() as int)
        }
}

/// The counts are those of the files that could be read, and which could is as
/// the format may answer.
pub open spec fn tallied_by<S: SstFormat>(
    format: S,
    m: TablesModel,
    max_commit: u64,
    read_failures: u64,
) -> bool {
    exists|ts: Seq<Tally>, ids: Seq<u64>, readable: Seq<bool>| #[trigger]
        are_tallies(ts, m, ids, readable) && {
            &&& is_listing(ids, m.version)
            &&& readable.len() == ids.len()
            &&& ts.last() == (Tally {
                rows: m.row_count,
                tables: m.table_rows,
                newest: max_commit,
            })
            &&& read_failures == failures(readable, ids.len() as int)
            &&& forall|i: int|
                0 <= i < ids.len() ==> may_read_rows(
                    format,
                    m.path(#[trigger] ids[i]),
                    readable[i],
                )
        }
}

/// What opening found in the files.
pub struct Recovered {
    /// Newest commit in a file that could be read.
    pub max_commit: u64,
    /// Files that could not be read.
    pub read_failures: u64,
}

fn newest_begin(rows: &[VersionedRow]) -> (r: u64)
    ensures
        r == newest_commit(row_models(rows@)),
{
    let ghost rs = row_models(rows@);
    let mut newest: u64 = 0;
    let mut i: usize = 0;
    assert(rs.take(0) =~= Seq::<RowModel>::empty());
    while i < rows.len()
        invariant
            i <= rows@.len(),
            rs == row_models(rows@),
            newest == newest_commit(rs.take(i as int)),
        decreases rows@.len() - i,
    {
        proof {
            assert(rs.take(i + 1).drop_last() =~= rs.take(i as int));
            assert(rs.take(i + 1).last() == rows@[i as int]@);
        }
        if rows[i].version.begin_ts > newest {
            newest = rows[i].version.begin_ts;
        }
        i += 1;
    }
    assert(rs.take(i as int) =~= rs);
    newest
}

impl<F: FileIO, S: SstFormat> Tables<F, S> {
    /// Takes charge of the files that the manifest lists and counts their
    /// rows. A file that cannot be read is counted as a failure and left out;
    /// it does not keep the engine from opening.
    pub fn open(dir: &str, format: S, manifest: Manifest<F>, disk: F, schemas: NameMap<Schema>) -> (r:
        (Self, Recovered))
        requires
            format.wf(),
            manifest.wf(),
            disk.wf(),
            schemas.wf(),
        ensures
            r.0.wf(),
            ({
                let m = r.0@;
                &&& m.dir == dir@
                &&& m.version == manifest.state()
                &&& m.stored == format.stored()
                &&& m.schemas == schema_map(schemas@)
                &&& m.stats == Map::<u64, Map<Seq<char>, StatsModel>>::empty()
                &&& m.stats_version == 1
                &&& tallied_by(format, m, r.1.max_commit, r.1.read_failures)
            }),
            r.0.format() == format,
            r.0.manifest() == manifest,
            r.0.sidecars().is_new(dir@, disk),
            forall|id: u64|
                #![trigger r.0.describes_as(id, r.0@.rows(id))]
                sidecar_files_fit(disk.files(), dir@, id, r.0@.rows(id)) ==> r.0.describes_as(
                    id,
                    r.0@.rows(id),
                ),
            no_sidecar_files(disk.files(), dir@, manifest.state().next_file_id)
                ==> r.0.clean_ahead(),
    {
        let version_set = manifest.version_set();
        let ids = version_set.file_ids();
        let mut t = Tables {
            dir: dir.to_owned(),
            format,
            manifest,
            sidecars: Sidecars::new(dir, disk),
            column_stats: IdMap::new(),
            schemas,
            sst_row_count: 0,
            table_rows: ByteMap::new(),
            stats_version: 1,
        };
        let ghost m = t@;
        let ghost cars = t.sidecars;
        let ghost record = t.manifest;
        let mut max_commit: u64 = 0;
        let mut read_failures: u64 = 0;
        let ghost mut readable: Seq<bool> = Seq::empty();
        let ghost mut ts: Seq<Tally> = seq![Tally { rows: 0, tables: Map::empty(), newest: 0 }];
        let mut i: usize = 0;
        proof {
            assert(t@.stats =~= Map::<u64, Map<Seq<char>, StatsModel>>::empty());
        }
        while i < ids.len()
            invariant
                i <= ids@.len(),
                t.wf(),
                t.sidecars == cars,
                t.manifest == record,
                t@ == (TablesModel {
                    row_count: t@.row_count,
                    table_rows: t@.table_rows,
                    ..m
                }),
                readable.len() == i,
                read_failures == failures(readable, i as int),
                read_failures <= i,
                are_tallies(ts, m, ids@, readable),
                t.format == format,
                m.dir == dir@,
                forall|j: int|
                    0 <= j < i ==> may_read_rows(
                        format,
                        m.path(#[trigger] ids@[j]),
                        readable[j],
                    ),
                ts.last() == (Tally {
                    rows: t@.row_count,
                    tables: t@.table_rows,
                    newest: max_commit,
                }),
            decreases ids@.len() - i,
        {
            let ghost was = readable;
            let ghost u = Tally {
                rows: t@.row_count,
                tables: t@.table_rows,
                newest: max_commit,
            };
            let path = sst_path(t.dir.as_str(), ids[i]);
            let content = t.format.read_all(path.as_str());
            assert(may_read_rows(format, m.path(ids@[i as int]), content is Ok));
            match content {
                Ok(rows) => {
                    proof {
                        readable = readable.push(true);
                    }
                    t.sst_row_count = t.sst_row_count.saturating_add(rows.len());
                    let newest = newest_begin(rows.as_slice());
                    if newest > max_commit {
                        max_commit = newest;
                    }
                    add_row_counts(&mut t.table_rows, rows.as_slice());
                    proof {
                        let rs = row_models(rows@);
                        assert(rs == m.rows(ids@[i as int]));
                    }
                },
                Err(_) => {
                    proof {
                        readable = readable.push(false);
                    }
                    read_failures = read_failures + 1;
                },
            }
            proof {
                lemma_failures_same(was, readable, i as int);
                assert(t@ =~= (TablesModel {
                    row_count: t@.row_count,
                    table_rows: t@.table_rows,
                    ..m
                }));
                let next = Tally {
                    rows: t@.row_count,
                    tables: t@.table_rows,
                    newest: max_commit,
                };
                assert(tally_step(u, next, m.rows(ids@[i as int]), readable[i as int]));
                let longer = ts.push(next);
                assert forall|j: int| 0 <= j < readable.len() implies tally_step(
                    #[trigger] longer[j],
                    longer[j + 1],
                    m.rows(ids@[j]),
                    readable[j],
                ) by {
                    if j < i {
                        assert(tally_step(ts[j], ts[j + 1], m.rows(ids@[j]), was[j]));
                    }
                }
                ts = longer;
            }
            i += 1;
        }
        proof {
            assert forall|j: int| 0 <= j < readable.len() implies tally_step(
                #[trigger] ts[j],
                ts[j + 1],
                t@.rows(ids@[j]),
                readable[j],
            ) by {
                assert(t@.rows(ids@[j]) == m.rows(ids@[j]));
            }
            assert(are_tallies(ts, t@, ids@, readable));
            if no_sidecar_files(disk.files(), dir@, manifest.state().next_file_id) {
                assert forall|id: u64| id >= t@.version.next_file_id implies
                    #[trigger] t.sidecars.bare(id) by {
                    assert(!disk.files().contains_key(bloom_path_of(dir@, id)));
                }
            }
        }
        (t, Recovered { max_commit, read_failures })
    }
}

/// The sidecar files of an SST describe the rows.
pub open spec fn sidecar_files_fit(
    files: Map<Seq<char>, Seq<u8>>,
    dir: Seq<char>,
    id: u64,
    rs: Seq<RowModel>,
) -> bool {
    &&& filter_file_fits(file_bytes(files, bloom_path_of(dir, id)), rs)
    &&& index_file_fits(file_bytes(files, key_index_path_of(dir, id)), rs)
}

/// There are no sidecar files of SSTs from `first` on.
pub open spec fn no_sidecar_files(
    files: Map<Seq<char>, Seq<u8>>,
    dir: Seq<char>,
    first: u64,
) -> bool {
    forall|id: u64|
        #![trigger bloom_path_of(dir, id)]
        id >= first ==> !files.contains_key(bloom_path_of(dir, id)) && !files.contains_key(
            key_index_path_of(dir, id),
        )
}

proof fn lemma_failures_same(a: Seq<bool>, b: Seq<bool>, n: int)
    requires
        forall|i: int| 0 <= i < n ==> a[i] == b[i],
    ensures
        failures(a, n) == failures(b, n),
    decreases n,
{
    if n > 0 {
        lemma_failures_same(a, b, n - 1);
        assert(a[n - 1] == b[n - 1]);
    }
}

// ── Access ────────────────────────────────────────────────────────────────

/// The edits that mark a table prefix as dropped, or as no longer dropped.
pub open spec fn mark_edits(prefix: Seq<u8>, dropped: bool) -> Seq<EditModel> {
    if dropped {
        seq![EditModel::DroppedPrefix(prefix)]
    } else {
        seq![EditModel::UndroppedPrefix(prefix)]
    }
}

impl<F: FileIO, S: SstFormat> Tables<F, S> {
    /// Lends the directory.
    pub fn dir_text(&self) -> (r: &str)
        ensures
            r@ == self@.dir,
    {
        self.dir.as_str()
    }

    /// Lends the file format.
    pub fn sst_format(&self) -> (r: &S)
        requires
            self.wf(),
        ensures
            r.wf(),
            r.stored() == self@.stored,
            *r == self.format(),
    {
        &self.format
    }

    /// Returns the current version set.
    pub fn version_set(&self) -> (r: std::sync::Arc<VersionSet>)
        requires
            self.wf(),
        ensures
            r@ == self@.version,
            r.wf(),
            r.indexed(),
    {
        self.manifest.version_set()
    }

    /// Returns the ids of the live files, by level and then by id.
    pub fn file_ids(&self) -> (r: Vec<u64>)
        requires
            self.wf(),
        ensures
            is_listing(r@, self@.version),
    {
        self.manifest.version_set().file_ids()
    }

    /// Lends the registered schema of a table.
    pub fn schema(&self, table: &str) -> (r: Option<&Schema>)
        requires
            self.wf(),
        ensures
            r is Some <==> self@.schemas.contains_key(table@),
            r matches Some(s) ==> s@ == self@.schemas[table@],
    {
        self.schemas.get(table)
    }

    /// Registers the schema of a table.
    pub fn register_schema(&mut self, table: &str, schema: Schema)
        requires
            old(self).wf(),
        ensures
            final(self).wf(),
            final(self)@ == (TablesModel {
                schemas: old(self)@.schemas.insert(table@, schema@),
                ..old(self)@
            }),
            old(self).sound() ==> final(self).sound(),
            old(self).clean_ahead() ==> final(self).clean_ahead(),
    {
        let ghost s = schema@;
        self.schemas.insert(table, schema);
        proof {
            assert(self@.schemas =~= old(self)@.schemas.insert(table@, s));
            assert(self@ =~= (TablesModel {
                schemas: old(self)@.schemas.insert(table@, s),
                ..old(self)@
            }));
            lemma_same_files_sound(*old(self), *self);
        }
    }

    /// Lends the cached column statistics of a table in a file.
    pub fn column_stats(&self, file_id: u64, table: &str) -> (r: Option<&TableColumnStats>)
        requires
            self.wf(),
        ensures
            r is Some <==> self@.stats.contains_key(file_id) && self@.stats[file_id].contains_key(
                table@,
            ),
            r matches Some(s) ==> s.wf() && s@ == self@.stats[file_id][table@],
    {
        match self.column_stats.get(file_id) {
            Some(m) => m.get(table),
            None => None,
        }
    }

    /// Returns the number of rows of all files, superseded ones and tombstones
    /// included.
    pub fn sst_rows(&self) -> (r: usize)
        ensures
            r == self@.row_count,
    {
        self.sst_row_count
    }

    /// Returns the number of rows of a table in all files.
    pub fn table_row_count(&self, table: &str) -> (r: usize)
        requires
            self.wf(),
        ensures
            r == count_at(self@.table_rows, table_prefix_of(table@)),
    {
        let prefix = table_prefix(table);
        match self.table_rows.get(prefix.as_slice()) {
            Some(n) => *n,
            None => 0,
        }
    }

    /// Returns a number that changes with every flush and compaction.
    pub fn stats_version(&self) -> (r: u64)
        ensures
            r == self@.stats_version,
    {
        self.stats_version
    }

    /// Marks a table prefix as dropped, or as no longer dropped.
    pub fn mark_prefix(&mut self, prefix: Vec<u8>, dropped: bool) -> (r: Result<()>)
        requires
            old(self).wf(),
        ensures
            final(self).wf(),
            old(self).recording(mark_edits(prefix@, dropped), r is Ok),
            ({
                let v = old(self)@.version;
                let w = VersionSetModel {
                    dropped: if dropped {
                        v.dropped.insert(prefix@)
                    } else {
                        v.dropped.remove(prefix@)
                    },
                    ..v
                };
                &&& r is Ok ==> final(self)@ == (TablesModel { version: w, ..old(self)@ })
                &&& r is Err ==> final(self)@ == old(self)@ || final(self)@ == (TablesModel {
                    version: w,
                    ..old(self)@
                })
            }),
            old(self).sound() ==> final(self).sound(),
            old(self).clean_ahead() ==> final(self).clean_ahead(),
    {
        let ghost v = self@.version;
        let ghost old_prefix = prefix@;
        let mut edits: Vec<VersionEdit> = Vec::new();
        if dropped {
            edits.push(VersionEdit::DroppedPrefix(prefix));
        } else {
            edits.push(VersionEdit::UndroppedPrefix(prefix));
        }
        let ghost es = edit_models(edits@);
        assert(es =~= mark_edits(old_prefix, dropped));
        proof {
            assert(es.drop_last() =~= Seq::<EditModel>::empty());
            assert(v.replay(es.drop_last()) == v);
            assert(v.replay(es) == v.apply(es.last()));
        }
        let r = self.manifest.append_batch(edits);
        proof {
            assert(self@ =~= (TablesModel { version: self@.version, ..old(self)@ }));
            lemma_marked_sound(*old(self), *self);
        }
        r
    }
}

/// Which tables are dropped does not bear on soundness.
proof fn lemma_marked_sound<F: FileIO, S: SstFormat>(before: Tables<F, S>, after: Tables<F, S>)
    requires
        after.sidecars == before.sidecars,
        after@.dir == before@.dir,
        after@.version.levels == before@.version.levels,
        after@.version.meta == before@.version.meta,
        after@.version.next_file_id == before@.version.next_file_id,
        after@.stored == before@.stored,
    ensures
        before.sound() ==> after.sound(),
        before.clean_ahead() ==> after.clean_ahead(),
{
    assert forall|l: u32, id: u64| after@.version.holds(l, id) == before@.version.holds(l, id) by {}
    assert forall|id: u64| #[trigger] after@.live(id) == before@.live(id) by {
        if after@.live(id) {
            let l = choose|l: u32| #[trigger] after@.version.holds(l, id);
            assert(before@.version.holds(l, id));
        }
        if before@.live(id) {
            let l = choose|l: u32| #[trigger] before@.version.holds(l, id);
            assert(after@.version.holds(l, id));
        }
    }
    if before.sound() {
        assert forall|id: u64| #[trigger] after@.live(id) implies after.described(id)
            && after@.file_kept(id) by {
            assert(before@.live(id));
            assert(before.described(id));
            assert(before@.file_kept(id));
        }
        assert forall|id: u64| #[trigger] after@.version.meta.contains_key(
            id,
        ) implies after@.live(id) by {
            assert(before@.version.meta.contains_key(id));
            assert(before@.live(id));
        }
        assert forall|a: u32, b: u32, id: u64| #[trigger] after@.version.holds(a, id)
            && #[trigger] after@.version.holds(b, id) implies a == b by {
            assert(before@.version.holds(a, id) && before@.version.holds(b, id));
        }
    }
    if before.clean_ahead() {
        assert forall|id: u64| id >= after@.version.next_file_id implies
            #[trigger] after.sidecars.bare(id) by {
            assert(before.sidecars.bare(id));
        }
    }
}

} // verus!
