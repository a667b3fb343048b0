//! SST format abstraction.
//!
//! Decouples the flush, compaction and read paths from the concrete file
//! layout. [`VortexFormat`] holds the decisions of the default columnar
//! layout; [`MemoryFormat`] keeps files in memory.

use crate::batches::{
    are_batches, column_named, columns_to_batches, effective_size, fits_schema, found_cells,
    has_column, is_empty_batch, lemma_column_named, lemma_selected, project, projection_view,
    schema_view, selected,
};
use crate::buf::{bytes_empty, bytes_slice, bytes_view, in_range};
use crate::column_predicate::{
    apply_row_predicates, column_of, named_models, predicate_models, row_fault, row_matches,
    row_satisfies, row_stays, satisfies, ColumnPredicate, PredicateModel,
};
use crate::error::{EngineError, Result};
use crate::key_index::{lookup_visible, untagged_rows};
use crate::memtable::{row_models, RowModel, VersionedRow};
use crate::name_map::NameMap;
use crate::row_codec::{cells_of, decode_row_values, is_fault};
use crate::scalar::{scalar_models, ScalarModel, ScalarValue, TypeModel};
use crate::schema::{types_of, ColumnBatch, FieldModel, Schema};
use crate::version::{Snapshot, VersionModel, VersionedValue};
use crate::vortex_sst::{
    business_cells, business_column_name, cell_satisfies, column_name, column_pred_to_vortex,
    column_scalars, columnar_filter, decode_business_cells, describes, first_key, get_filter,
    handle_for, last_key, lemma_column_names_differ, pushable, pushed_satisfied, scan_filter,
};
use bytes::Bytes;
use vstd::prelude::*;

pub use crate::vortex_sst::SstHandle;

verus! {

/// Per-file key-range and size summary.
#[derive(Debug)]
pub struct ZoneMap {
    /// Inclusive smallest key.
    pub min_key: Bytes,
    /// Inclusive largest key.
    pub max_key: Bytes,
    /// Number of rows in the file.
    pub total_rows: usize,
    /// Bytes on disk.
    pub total_bytes: u64,
    /// Per-column minimum value.
    pub column_min: NameMap<ScalarValue>,
    /// Per-column maximum value.
    pub column_max: NameMap<ScalarValue>,
    /// Per-column null count.
    pub column_null_count: NameMap<usize>,
}

impl ZoneMap {
    /// The summary is that of the rows, without column statistics.
    pub open spec fn summarizes(&self, rs: Seq<RowModel>) -> bool {
        &&& bytes_view(self.min_key) == first_key(rs)
        &&& bytes_view(self.max_key) == last_key(rs)
        &&& self.total_rows == rs.len()
        &&& self.column_min.wf()
        &&& self.column_max.wf()
        &&& self.column_null_count.wf()
    }

    /// There are no statistics of columns.
    pub open spec fn has_no_columns(&self) -> bool {
        &&& self.column_min@ == Map::<Seq<char>, ScalarValue>::empty()
        &&& self.column_max@ == Map::<Seq<char>, ScalarValue>::empty()
        &&& self.column_null_count@ == Map::<Seq<char>, usize>::empty()
    }
}

/// What a list of named predicates says, without the names.
pub open spec fn unnamed_models(ps: Seq<(String, ColumnPredicate)>) -> Seq<PredicateModel> {
    ps.map_values(|p: (String, ColumnPredicate)| p.1@)
}

/// What an optional list of named predicates says.
pub open spec fn opt_predicates(ps: Option<&[(String, ColumnPredicate)]>) -> Seq<PredicateModel> {
    match ps {
        Some(ps) => unnamed_models(ps@),
        None => Seq::empty(),
    }
}

/// A scan keeps the row: it is in range and visible, and where there are
/// predicates it is live and satisfies them.
pub open spec fn scan_keeps(
    r: RowModel,
    lower: Seq<u8>,
    upper: Seq<u8>,
    ts: u64,
    types: Seq<TypeModel>,
    ps: Seq<PredicateModel>,
) -> bool {
    &&& in_range(r.key, lower, upper)
    &&& r.version.visible_at(ts)
    &&& ps.len() == 0 || row_stays(r, types, ps)
}

/// The rows that a scan keeps.
pub open spec fn scanned(
    rs: Seq<RowModel>,
    lower: Seq<u8>,
    upper: Seq<u8>,
    ts: u64,
    types: Seq<TypeModel>,
    ps: Seq<PredicateModel>,
) -> Seq<RowModel>
    decreases rs.len(),
{
    if rs.len() == 0 {
        Seq::empty()
    } else {
        let rest = scanned(rs.drop_last(), lower, upper, ts, types, ps);
        if scan_keeps(rs.last(), lower, upper, ts, types, ps) {
            rest.push(rs.last())
        } else {
            rest
        }
    }
}

/// The rows that a scan of business columns yields: in range, visible and
/// live, and satisfying every predicate that a file can evaluate.
pub open spec fn columnar_rows(
    rs: Seq<RowModel>,
    lower: Seq<u8>,
    upper: Seq<u8>,
    ts: u64,
    types: Seq<TypeModel>,
    ps: Seq<PredicateModel>,
) -> Seq<RowModel>
    decreases rs.len(),
{
    if rs.len() == 0 {
        Seq::empty()
    } else {
        let rest = columnar_rows(rs.drop_last(), lower, upper, ts, types, ps);
        let r = rs.last();
        if in_range(r.key, lower, upper) && r.version.visible_at(ts) && pushed_satisfied(
            business_cells(r, types),
            ps,
        ) && r.version.value is Some {
            rest.push(r)
        } else {
            rest
        }
    }
}

/// The batches hold the selected business columns of the rows.
pub open spec fn holds_columns(
    bs: Seq<ColumnBatch>,
    rs: Seq<RowModel>,
    fields: Seq<FieldModel>,
    projection: Option<Seq<usize>>,
    batch_size: usize,
) -> bool {
    let cols = selected(projection, fields.len());
    if rs.len() == 0 {
        bs.len() == 1 && is_empty_batch(bs[0], project(fields, cols))
    } else {
        are_batches(
            bs,
            project(fields, cols),
            cols.map_values(|c: usize| column_scalars(rs, types_of(fields), c as int)),
            rs.len(),
            effective_size(batch_size, rs.len() as usize),
        )
    }
}

/// What an optional version says.
pub open spec fn opt_version(v: Option<VersionedValue>) -> Option<VersionModel> {
    match v {
        Some(v) => Some(v@),
        None => None,
    }
}

/// The rows of every file by its path, in contracts.
pub type StoredRows = Map<Seq<char>, Seq<RowModel>>;

/// The SST read/write contract. No operation promises to succeed.
pub trait SstFormat: Sized {
    /// The rows of every file, by path.
    spec fn stored(&self) -> StoredRows;

    /// The format's own state is in order.
    spec fn wf(&self) -> bool;

    /// Writes `rows` to a new SST at `path`. A file does not hold the rows'
    /// transactions.
    fn write(
        &mut self,
        path: &str,
        rows: &[VersionedRow],
        file_id: u64,
        row_schema: Option<&Schema>,
    ) -> (r: Result<SstHandle>)
        requires
            old(self).wf(),
        ensures
            final(self).wf(),
            r matches Ok(h) ==> {
                &&& final(self).stored() == old(self).stored().insert(
                    path@,
                    untagged_rows(row_models(rows@)),
                )
                &&& describes(h, row_models(rows@), file_id)
            },
            r is Err ==> final(self).stored().remove(path@) == old(self).stored().remove(path@),
    ;

    /// Reads every row from `path` in the order in which they were written.
    fn read_all(&self, path: &str) -> (r: Result<Vec<VersionedRow>>)
        requires
            self.wf(),
        ensures
            r matches Ok(rows) ==> self.stored().contains_key(path@) && row_models(rows@)
                == self.stored()[path@],
    ;

    /// Point lookup for `key` at `snapshot`; a visible tombstone is returned.
    fn get(&self, path: &str, key: &[u8], snapshot: Snapshot) -> (r: Result<Option<VersionedValue>>)
        requires
            self.wf(),
        ensures
            r matches Ok(v) ==> self.stored().contains_key(path@) && opt_version(v)
                == lookup_visible(self.stored()[path@], key@, snapshot.ts),
    ;

    /// Range scan over `[lower, upper)` at `snapshot`, with optional
    /// predicates on the columns of `row_schema`.
    fn scan_with_filter(
        &self,
        path: &str,
        lower: &[u8],
        upper: &[u8],
        snapshot: Snapshot,
        projection: Option<&[usize]>,
        predicates: Option<&[(String, ColumnPredicate)]>,
        row_schema: Option<&Schema>,
    ) -> (r: Result<Vec<VersionedRow>>)
        requires
            self.wf(),
        ensures
            r matches Ok(rows) ==> self.stored().contains_key(path@) && ({
                let ps = opt_predicates(predicates);
                match row_schema {
                    Some(schema) => row_models(rows@) == scanned(
                        self.stored()[path@],
                        lower@,
                        upper@,
                        snapshot.ts,
                        types_of(schema@),
                        ps,
                    ),
                    None => ps.len() == 0 ==> row_models(rows@) == scanned(
                        self.stored()[path@],
                        lower@,
                        upper@,
                        snapshot.ts,
                        Seq::empty(),
                        ps,
                    ),
                }
            }),
    ;

    /// Range scan that yields the business columns of live rows, without
    /// decoding row payloads.
    fn scan_columns(
        &self,
        path: &str,
        lower: &[u8],
        upper: &[u8],
        snapshot: Snapshot,
        predicates: &[ColumnPredicate],
        projection: Option<&[usize]>,
        row_schema: &Schema,
        batch_size: usize,
    ) -> (r: Result<Vec<ColumnBatch>>)
        requires
            self.wf(),
            fits_schema(projection_view(projection), row_schema@.len()),
        ensures
            r matches Ok(bs) ==> self.stored().contains_key(path@) && holds_columns(
                bs@,
                columnar_rows(
                    self.stored()[path@],
                    lower@,
                    upper@,
                    snapshot.ts,
                    types_of(row_schema@),
                    predicate_models(predicates@),
                ),
                row_schema@,
                projection_view(projection),
                batch_size,
            ),
    ;

    /// Returns the file's key-range and size summary.
    fn zone_map(&self, path: &str, row_schema: Option<&Schema>) -> (r: Result<ZoneMap>)
        requires
            self.wf(),
        ensures
            r matches Ok(z) ==> self.stored().contains_key(path@) && z.summarizes(
                self.stored()[path@],
            ),
    ;

    /// Removes a file; a file that does not exist is no error.
    fn remove(&mut self, path: &str) -> (r: Result<()>)
        requires
            old(self).wf(),
        ensures
            final(self).wf(),
            r is Ok ==> final(self).stored() == old(self).stored().remove(path@),
            r is Err ==> final(self).stored().remove(path@) == old(self).stored().remove(path@),
    ;
}

// ── What a format may answer ──────────────────────────────────────────────

/// What a call gave, where it did not fail.
pub open spec fn answered<T>(r: Result<T>) -> Option<T> {
    match r {
        Ok(v) => Some(v),
        Err(_) => None,
    }
}

/// Asked to write the rows to a new SST, the format may give this handle, or
/// fail where there is none.
pub open spec fn may_store<S: SstFormat>(
    format: S,
    path: Seq<char>,
    rs: Seq<RowModel>,
    file_id: u64,
    schema: Option<Seq<FieldModel>>,
    given: Option<SstHandle>,
) -> bool {
    exists|f: &mut S, p: &str, rows: &[VersionedRow], sc: Option<&Schema>, r: Result<SstHandle>|
        *f == format && p@ == path && row_models(rows@) == rs && schema_view(sc) == schema
            && answered(r) == given && #[trigger] call_ensures(
            S::write,
            (f, p, rows, file_id, sc),
            r,
        )
}

/// Asked for every row of an SST, the format may succeed or fail, as `done`
/// says.
pub open spec fn may_read_rows<S: SstFormat>(format: S, path: Seq<char>, done: bool) -> bool {
    exists|p: &str, r: Result<Vec<VersionedRow>>|
        p@ == path && (r is Ok) == done && #[trigger] call_ensures(S::read_all, (&format, p), r)
}

/// Asked for a key at a snapshot, the format may succeed or fail, as `done`
/// says.
pub open spec fn may_look_up<S: SstFormat>(
    format: S,
    path: Seq<char>,
    key: Seq<u8>,
    ts: u64,
    done: bool,
) -> bool {
    exists|p: &str, k: &[u8], at: Snapshot, r: Result<Option<VersionedValue>>|
        p@ == path && k@ == key && at.ts == ts && (r is Ok) == done && #[trigger] call_ensures(
            S::get,
            (&format, p, k, at),
            r,
        )
}

/// What optional named predicates say.
pub open spec fn named_view(ps: Option<&[(String, ColumnPredicate)]>) -> Option<
    Seq<(Seq<char>, PredicateModel)>,
> {
    match ps {
        Some(ps) => Some(named_models(ps@)),
        None => None,
    }
}

/// Asked for a key range at a snapshot, the format may succeed or fail, as
/// `done` says.
pub open spec fn may_scan<S: SstFormat>(
    format: S,
    path: Seq<char>,
    lower: Seq<u8>,
    upper: Seq<u8>,
    ts: u64,
    projection: Option<Seq<usize>>,
    named: Option<Seq<(Seq<char>, PredicateModel)>>,
    schema: Option<Seq<FieldModel>>,
    done: bool,
) -> bool {
    exists|
        p: &str,
        lo: &[u8],
        hi: &[u8],
        at: Snapshot,
        cols: Option<&[usize]>,
        ps: Option<&[(String, ColumnPredicate)]>,
        sc: Option<&Schema>,
        r: Result<Vec<VersionedRow>>,
    |
        p@ == path && lo@ == lower && hi@ == upper && at.ts == ts && projection_view(cols)
            == projection && named_view(ps) == named && schema_view(sc) == schema && (r is Ok)
            == done && #[trigger] call_ensures(
            S::scan_with_filter,
            (&format, p, lo, hi, at, cols, ps, sc),
            r,
        )
}

/// Asked for the business columns of a key range at a snapshot, the format may
/// succeed or fail, as `done` says.
pub open spec fn may_scan_columns<S: SstFormat>(
    format: S,
    path: Seq<char>,
    lower: Seq<u8>,
    upper: Seq<u8>,
    ts: u64,
    preds: Seq<PredicateModel>,
    projection: Option<Seq<usize>>,
    fields: Seq<FieldModel>,
    batch_size: usize,
    done: bool,
) -> bool {
    exists|
        p: &str,
        lo: &[u8],
        hi: &[u8],
        at: Snapshot,
        ps: &[ColumnPredicate],
        cols: Option<&[usize]>,
        sc: &Schema,
        r: Result<Vec<ColumnBatch>>,
    |
        p@ == path && lo@ == lower && hi@ == upper && at.ts == ts && predicate_models(ps@) == preds
            && projection_view(cols) == projection && sc@ == fields && (r is Ok) == done
            && #[trigger] call_ensures(
            S::scan_columns,
            (&format, p, lo, hi, at, ps, cols, sc, batch_size),
            r,
        )
}

/// Asked for the summary of an SST, the format may give this one, or fail where
/// there is none.
pub open spec fn may_summarize<S: SstFormat>(
    format: S,
    path: Seq<char>,
    schema: Option<Seq<FieldModel>>,
    given: Option<ZoneMap>,
) -> bool {
    exists|p: &str, sc: Option<&Schema>, r: Result<ZoneMap>|
        p@ == path && schema_view(sc) == schema && answered(r) == given && #[trigger] call_ensures(
            S::zone_map,
            (&format, p, sc),
            r,
        )
}

/// Asked to remove an SST, the format may succeed or fail, as `done` says.
pub open spec fn may_remove<S: SstFormat>(format: S, path: Seq<char>, done: bool) -> bool {
    exists|f: &mut S, p: &str, r: Result<()>|
        *f == format && p@ == path && (r is Ok) == done && #[trigger] call_ensures(
            S::remove,
            (f, p),
            r,
        )
}

// ── The default columnar layout ───────────────────────────────────────────

/// Whether a file can evaluate the predicate on its business columns. The
/// others are applied to the rows that the file yields.
pub fn can_vortex_pushdown(pred: &ColumnPredicate) -> (r: bool)
    ensures
        r == pushable(pred@),
{
    column_pred_to_vortex(pred).is_some()
}

/// The predicates that a file evaluates.
pub open spec fn pushed_of(ps: Seq<PredicateModel>) -> Seq<PredicateModel>
    decreases ps.len(),
{
    if ps.len() == 0 {
        Seq::empty()
    } else if pushable(ps.last()) {
        pushed_of(ps.drop_last()).push(ps.last())
    } else {
        pushed_of(ps.drop_last())
    }
}

/// The predicates that are applied to the rows that a file yields.
pub open spec fn residual_of(ps: Seq<PredicateModel>) -> Seq<PredicateModel>
    decreases ps.len(),
{
    if ps.len() == 0 {
        Seq::empty()
    } else if pushable(ps.last()) {
        residual_of(ps.drop_last())
    } else {
        residual_of(ps.drop_last()).push(ps.last())
    }
}

/// The message for a scan with predicates that needs a schema.
pub open spec fn schema_needed_text() -> Seq<char> {
    "scan_with_filter requires row_schema when predicates are supplied: the legacy Vortex layout decodes the `value` blob row by row and needs the per-table Arrow schema"@
}

/// The default columnar format.
#[derive(Debug, Clone, Copy, Default, PartialEq, Eq, Structural)]
pub struct VortexFormat;

impl VortexFormat {
    /// Creates a new format handle.
    pub fn new() -> (r: Self)
        ensures
            r == VortexFormat,
    {
        VortexFormat
    }

    /// Splits the predicates of a scan into those that the file evaluates and
    /// those that are applied afterwards.
    pub fn plan_scan(&self, predicates: Option<&[(String, ColumnPredicate)]>) -> (r: (
        Vec<ColumnPredicate>,
        Vec<ColumnPredicate>,
    ))
        ensures
            predicate_models(r.0@) == pushed_of(opt_predicates(predicates)),
            predicate_models(r.1@) == residual_of(opt_predicates(predicates)),
    {
        let mut pushed: Vec<ColumnPredicate> = Vec::new();
        let mut residual: Vec<ColumnPredicate> = Vec::new();
        assert(predicate_models(pushed@) =~= Seq::<PredicateModel>::empty());
        if let Some(preds) = predicates {
            let ghost ps = unnamed_models(preds@);
            let mut i: usize = 0;
            assert(ps.take(0) =~= Seq::<PredicateModel>::empty());
            while i < preds.len()
                invariant
                    ps == unnamed_models(preds@),
                    i <= preds@.len(),
                    predicate_models(pushed@) == pushed_of(ps.take(i as int)),
                    predicate_models(residual@) == residual_of(ps.take(i as int)),
                decreases preds@.len() - i,
            {
                let pred = &preds[i].1;
                let ghost p0 = predicate_models(pushed@);
                let ghost r0 = predicate_models(residual@);
                proof {
                    assert(ps.take(i + 1).drop_last() =~= ps.take(i as int));
                    assert(ps.take(i + 1).last() == pred@);
                }
                if can_vortex_pushdown(pred) {
                    pushed.push(pred.clone());
                    assert(predicate_models(pushed@) =~= p0.push(pred@));
                } else {
                    residual.push(pred.clone());
                    assert(predicate_models(residual@) =~= r0.push(pred@));
                }
                i += 1;
            }
            assert(ps.take(i as int) =~= ps);
        }
        (pushed, residual)
    }

    /// Applies the predicates that the file did not evaluate to the rows that
    /// it yielded.
    pub fn finish_scan(
        &self,
        rows: Vec<VersionedRow>,
        residual: &[ColumnPredicate],
        row_schema: Option<&Schema>,
    ) -> (r: Result<Vec<VersionedRow>>)
        ensures
            ({
                let ms = row_models(rows@);
                let ps = predicate_models(residual@);
                if ps.len() == 0 {
                    r matches Ok(out) && row_models(out@) == ms
                } else {
                    match row_schema {
                        None => r matches Err(e) && e.is_message(schema_needed_text()),
                        Some(schema) => {
                            let types = types_of(schema@);
                            if types.len() == 0 {
                                r matches Ok(out) && row_models(out@) == ms
                            } else {
                                &&& r is Ok <==> forall|i: int|
                                    0 <= i < ms.len() ==> row_fault(#[trigger] ms[i], types) is None
                                &&& r matches Ok(out) ==> row_models(out@) == ms.filter(
                                    |m: RowModel| row_stays(m, types, ps),
                                )
                                &&& r matches Err(e) ==> exists|i: int|
                                    0 <= i < ms.len() && (row_fault(
                                        #[trigger] ms[i],
                                        types,
                                    ) matches Some(f) && is_fault(e, f))
                            }
                        },
                    }
                }
            }),
    {
        if residual.len() == 0 {
            return Ok(rows);
        }
        match row_schema {
            None => Err(
                EngineError::CorruptMessage(
                    "scan_with_filter requires row_schema when predicates are supplied: the legacy Vortex layout decodes the `value` blob row by row and needs the per-table Arrow schema".to_owned(),
                ),
            ),
            Some(schema) => apply_row_predicates(rows.as_slice(), schema, residual),
        }
    }

    /// Summarizes the rows of a file of `total_bytes` bytes. Rows are opaque
    /// to it, so it has no column statistics.
    pub fn summarize(&self, rows: &[VersionedRow], total_bytes: u64) -> (r: ZoneMap)
        ensures
            r.summarizes(row_models(rows@)),
            r.total_bytes == total_bytes,
            r.has_no_columns(),
    {
        let n: usize = rows.len();
        let min_key = if n == 0 {
            bytes_empty()
        } else {
            rows[0].key.clone()
        };
        let max_key = if n == 0 {
            bytes_empty()
        } else {
            rows[n - 1].key.clone()
        };
        ZoneMap {
            min_key,
            max_key,
            total_rows: n,
            total_bytes,
            column_min: NameMap::new(),
            column_max: NameMap::new(),
            column_null_count: NameMap::new(),
        }
    }
}

/// Every predicate is either evaluated by the file or applied afterwards, and
/// together the two filters keep exactly the rows that satisfy all of them.
pub proof fn law_no_predicate_is_lost(row: RowModel, types: Seq<TypeModel>, ps: Seq<PredicateModel>)
    requires
        ps.len() > 0,
    ensures
        row_stays(row, types, ps) == ((pushed_of(ps).len() > 0 ==> row_stays(
            row,
            types,
            pushed_of(ps),
        )) && (residual_of(ps).len() > 0 ==> row_stays(row, types, residual_of(ps)))),
        pushed_of(ps).len() + residual_of(ps).len() == ps.len(),
{
    lemma_split_counts(ps);
    let cells = match row.version.value {
        Some(b) => match cells_of(b, types) {
            Ok((c, _)) => c,
            Err(_) => Seq::empty(),
        },
        None => Seq::empty(),
    };
    lemma_split_satisfied(cells, ps);
}

proof fn lemma_split_counts(ps: Seq<PredicateModel>)
    ensures
        pushed_of(ps).len() + residual_of(ps).len() == ps.len(),
    decreases ps.len(),
{
    if ps.len() > 0 {
        lemma_split_counts(ps.drop_last());
    }
}

proof fn lemma_satisfied_push(cells: Seq<ScalarModel>, ps: Seq<PredicateModel>, p: PredicateModel)
    ensures
        row_satisfies(cells, ps.push(p)) == (row_satisfies(cells, ps) && cell_satisfies(cells, p)),
{
    let all = ps.push(p);
    if row_satisfies(cells, all) {
        assert forall|i: int| 0 <= i < ps.len() implies {
            let c = column_of(#[trigger] ps[i]) as int;
            c < cells.len() && satisfies(cells[c], ps[i])
        } by {
            assert(all[i] == ps[i]);
        }
        assert(all[ps.len() as int] == p);
    }
    if row_satisfies(cells, ps) && cell_satisfies(cells, p) {
        assert forall|i: int| 0 <= i < all.len() implies {
            let c = column_of(#[trigger] all[i]) as int;
            c < cells.len() && satisfies(cells[c], all[i])
        } by {
            if i < ps.len() {
                assert(all[i] == ps[i]);
            }
        }
    }
}

proof fn lemma_split_satisfied(cells: Seq<ScalarModel>, ps: Seq<PredicateModel>)
    ensures
        row_satisfies(cells, ps) == (row_satisfies(cells, pushed_of(ps)) && row_satisfies(
            cells,
            residual_of(ps),
        )),
    decreases ps.len(),
{
    if ps.len() > 0 {
        let init = ps.drop_last();
        lemma_split_satisfied(cells, init);
        assert(ps =~= init.push(ps.last()));
        lemma_satisfied_push(cells, init, ps.last());
        lemma_satisfied_push(cells, pushed_of(init), ps.last());
        lemma_satisfied_push(cells, residual_of(init), ps.last());
    }
}

// ── Files in memory ───────────────────────────────────────────────────────

/// A format that keeps its files in memory, for tests and simulation.
#[derive(Debug)]
pub struct MemoryFormat {
    files: NameMap<Vec<VersionedRow>>,
}

impl MemoryFormat {
    /// Makes a format without files.
    pub fn new() -> (r: Self)
        ensures
            r.wf(),
            r.stored() == Map::<Seq<char>, Seq<RowModel>>::empty(),
    {
        let r = MemoryFormat { files: NameMap::new() };
        assert(r.stored() =~= Map::<Seq<char>, Seq<RowModel>>::empty());
        r
    }
}

fn untag(rows: &[VersionedRow]) -> (r: Vec<VersionedRow>)
    ensures
        row_models(r@) == untagged_rows(row_models(rows@)),
{
    let mut out: Vec<VersionedRow> = Vec::new();
    let mut i: usize = 0;
    let ghost want = untagged_rows(row_models(rows@));
    while i < rows.len()
        invariant
            i <= rows@.len(),
            want == untagged_rows(row_models(rows@)),
            out@.len() == i,
            forall|j: int| 0 <= j < i ==> (#[trigger] out@[j])@ == want[j],
        decreases rows@.len() - i,
    {
        let mut row = rows[i].clone();
        row.version.tx_id = 0;
        out.push(row);
        i += 1;
    }
    assert(row_models(out@) =~= want);
    out
}

fn copy_rows(rows: &Vec<VersionedRow>) -> (r: Vec<VersionedRow>)
    ensures
        row_models(r@) == row_models(rows@),
{
    let mut out: Vec<VersionedRow> = Vec::new();
    let mut i: usize = 0;
    while i < rows.len()
        invariant
            i <= rows@.len(),
            out@.len() == i,
            forall|j: int| 0 <= j < i ==> (#[trigger] out@[j])@ == rows@[j]@,
        decreases rows@.len() - i,
    {
        out.push(rows[i].clone());
        i += 1;
    }
    assert(row_models(out@) =~= row_models(rows@));
    out
}

fn missing_file<T>() -> (r: Result<T>)
    ensures
        r is Err,
{
    Err(EngineError::Corrupt("no such file"))
}

impl SstFormat for MemoryFormat {
    closed spec fn stored(&self) -> Map<Seq<char>, Seq<RowModel>> {
        self.files@.map_values(|v: Vec<VersionedRow>| row_models(v@))
    }

    closed spec fn wf(&self) -> bool {
        self.files.wf()
    }

    fn write(
        &mut self,
        path: &str,
        rows: &[VersionedRow],
        file_id: u64,
        row_schema: Option<&Schema>,
    ) -> (r: Result<SstHandle>)
        ensures
            r matches Ok(h) && h.bytes == 0,
    {
        self.files.insert(path, untag(rows));
        assert(self.stored() =~= old(self).stored().insert(
            path@,
            untagged_rows(row_models(rows@)),
        ));
        Ok(handle_for(rows, file_id, 0))
    }

    fn read_all(&self, path: &str) -> (r: Result<Vec<VersionedRow>>)
        ensures
            r is Ok <==> self.stored().contains_key(path@),
    {
        match self.files.get(path) {
            Some(rows) => Ok(copy_rows(rows)),
            None => missing_file(),
        }
    }

    fn get(&self, path: &str, key: &[u8], snapshot: Snapshot) -> (r: Result<Option<VersionedValue>>)
        ensures
            r is Ok <==> self.stored().contains_key(path@),
    {
        let rows = match self.files.get(path) {
            Some(rows) => rows,
            None => {
                return missing_file();
            },
        };
        let ghost rs = row_models(rows@);
        let filter = get_filter(key, snapshot);
        let none: Vec<ScalarValue> = Vec::new();
        let mut i: usize = 0;
        assert(rs.skip(0) =~= rs);
        while i < rows.len()
            invariant
                self.stored().contains_key(path@),
                self.stored()[path@] == rs,
                rs == row_models(rows@),
                i <= rows@.len(),
                forall|row: RowModel, cells: Seq<ScalarModel>| #[trigger]
                    filter.passes(row, cells) == (row.key == key@ && row.version.visible_at(
                        snapshot.ts,
                    )),
                lookup_visible(rs, key@, snapshot.ts) == lookup_visible(
                    rs.skip(i as int),
                    key@,
                    snapshot.ts,
                ),
            decreases rows@.len() - i,
        {
            let ghost rest = rs.skip(i as int);
            assert(rest[0] == rows@[i as int]@);
            assert(rest.drop_first() =~= rs.skip(i + 1));
            if filter.evaluate(&rows[i], none.as_slice()) {
                return Ok(Some(rows[i].version.clone()));
            }
            i += 1;
        }
        assert(rs.skip(i as int).len() == 0);
        Ok(None)
    }

    fn scan_with_filter(
        &self,
        path: &str,
        lower: &[u8],
        upper: &[u8],
        snapshot: Snapshot,
        projection: Option<&[usize]>,
        predicates: Option<&[(String, ColumnPredicate)]>,
        row_schema: Option<&Schema>,
    ) -> (r: Result<Vec<VersionedRow>>)
        ensures
            r is Ok <==> self.stored().contains_key(path@),
    {
        let rows = match self.files.get(path) {
            Some(rows) => rows,
            None => {
                return missing_file();
            },
        };
        let empty_schema = Schema { fields: Vec::new() };
        let schema: &Schema = match row_schema {
            Some(s) => s,
            None => &empty_schema,
        };
        let ghost rs = row_models(rows@);
        let ghost types = types_of(schema@);
        let ghost ps = opt_predicates(predicates);
        assert(row_schema is None ==> types =~= Seq::<TypeModel>::empty());
        let mut preds: Vec<ColumnPredicate> = Vec::new();
        if let Some(named) = predicates {
            let mut k: usize = 0;
            while k < named.len()
                invariant
                    k <= named@.len(),
                    preds@.len() == k,
                    forall|j: int| 0 <= j < k ==> (#[trigger] preds@[j])@ == named@[j].1@,
                decreases named@.len() - k,
            {
                preds.push(named[k].1.clone());
                k += 1;
            }
            assert(predicate_models(preds@) =~= ps);
        }
        assert(predicate_models(preds@) =~= ps);
        let none: Vec<ColumnPredicate> = Vec::new();
        let filter = scan_filter(lower, upper, snapshot, none.as_slice());
        let blank: Vec<ScalarValue> = Vec::new();
        let mut out: Vec<VersionedRow> = Vec::new();
        let mut i: usize = 0;
        assert(row_models(out@) =~= scanned(
            rs.take(0),
            lower@,
            upper@,
            snapshot.ts,
            types,
            ps,
        ));
        while i < rows.len()
            invariant
                self.stored().contains_key(path@),
                self.stored()[path@] == rs,
                rs == row_models(rows@),
                types == types_of(schema@),
                predicate_models(preds@) == ps,
                i <= rows@.len(),
                none@.len() == 0,
                forall|row: RowModel, cells: Seq<ScalarModel>| #[trigger]
                    filter.passes(row, cells) == (in_range(row.key, lower@, upper@)
                        && row.version.visible_at(snapshot.ts) && pushed_satisfied(
                        cells,
                        predicate_models(none@),
                    )),
                row_models(out@) == scanned(
                    rs.take(i as int),
                    lower@,
                    upper@,
                    snapshot.ts,
                    types,
                    ps,
                ),
            decreases rows@.len() - i,
        {
            let row = &rows[i];
            let ghost before = row_models(out@);
            proof {
                assert(rs.take(i + 1).drop_last() =~= rs.take(i as int));
                assert(rs.take(i + 1).last() == row@);
                assert(pushed_satisfied(scalar_models(blank@), predicate_models(none@)));
            }
            let mut kept = filter.evaluate(row, blank.as_slice());
            if kept && preds.len() > 0 {
                kept = match &row.version.value {
                    None => false,
                    Some(payload) => match decode_row_values(
                        bytes_slice(payload),
                        schema,
                    ) {
                        Ok(cells) => row_matches(
                            cells.as_slice(),
                            preds.as_slice(),
                        ),
                        Err(_) => false,
                    },
                };
            }
            assert(kept == scan_keeps(row@, lower@, upper@, snapshot.ts, types, ps));
            if kept {
                out.push(row.clone());
                assert(row_models(out@) =~= before.push(row@));
            }
            i += 1;
        }
        assert(rs.take(i as int) =~= rs);
        Ok(out)
    }

    fn scan_columns(
        &self,
        path: &str,
        lower: &[u8],
        upper: &[u8],
        snapshot: Snapshot,
        predicates: &[ColumnPredicate],
        projection: Option<&[usize]>,
        row_schema: &Schema,
        batch_size: usize,
    ) -> (r: Result<Vec<ColumnBatch>>)
        ensures
            r is Ok <==> self.stored().contains_key(path@),
    {
        let rows = match self.files.get(path) {
            Some(rows) => rows,
            None => {
                return missing_file();
            },
        };
        let ghost rs = row_models(rows@);
        let ghost types = types_of(row_schema@);
        let ghost ps = predicate_models(predicates@);
        let filter = columnar_filter(lower, upper, snapshot, predicates);
        let mut kept: Vec<VersionedRow> = Vec::new();
        let mut i: usize = 0;
        assert(row_models(kept@) =~= columnar_rows(
            rs.take(0),
            lower@,
            upper@,
            snapshot.ts,
            types,
            ps,
        ));
        while i < rows.len()
            invariant
                rs == row_models(rows@),
                types == types_of(row_schema@),
                ps == predicate_models(predicates@),
                i <= rows@.len(),
                forall|row: RowModel, cells: Seq<ScalarModel>| #[trigger]
                    filter.passes(row, cells) == (in_range(row.key, lower@, upper@)
                        && row.version.visible_at(snapshot.ts) && pushed_satisfied(cells, ps)
                        && row.version.value is Some),
                row_models(kept@) == columnar_rows(
                    rs.take(i as int),
                    lower@,
                    upper@,
                    snapshot.ts,
                    types,
                    ps,
                ),
            decreases rows@.len() - i,
        {
            let row = &rows[i];
            let ghost before = row_models(kept@);
            proof {
                assert(rs.take(i + 1).drop_last() =~= rs.take(i as int));
                assert(rs.take(i + 1).last() == row@);
            }
            let cells = decode_business_cells(row, row_schema);
            if filter.evaluate(row, cells.as_slice()) {
                kept.push(row.clone());
                assert(row_models(kept@) =~= before.push(row@));
            }
            i += 1;
        }
        assert(rs.take(i as int) =~= rs);
        business_batches(kept.as_slice(), projection, row_schema, batch_size, path)
    }

    fn zone_map(&self, path: &str, row_schema: Option<&Schema>) -> (r: Result<ZoneMap>)
        ensures
            r is Ok <==> self.stored().contains_key(path@),
            r matches Ok(z) ==> z.total_bytes == 0 && z.has_no_columns(),
    {
        match self.files.get(path) {
            Some(rows) => Ok(VortexFormat::new().summarize(rows.as_slice(), 0)),
            None => missing_file(),
        }
    }

    fn remove(&mut self, path: &str) -> (r: Result<()>)
        ensures
            r is Ok,
    {
        self.files.remove(path);
        assert(self.stored() =~= old(self).stored().remove(path@));
        Ok(())
    }
}

/// The batches of the business columns of rows.
fn business_batches(
    rows: &[VersionedRow],
    projection: Option<&[usize]>,
    row_schema: &Schema,
    batch_size: usize,
    path: &str,
) -> (r: Result<Vec<ColumnBatch>>)
    requires
        fits_schema(projection_view(projection), row_schema@.len()),
    ensures
        r matches Ok(bs) && holds_columns(
            bs@,
            row_models(rows@),
            row_schema@,
            projection_view(projection),
            batch_size,
        ),
{
    let ghost rs = row_models(rows@);
    let ghost types = types_of(row_schema@);
    let mut decoded: Vec<Vec<ScalarValue>> = Vec::new();
    let mut i: usize = 0;
    while i < rows.len()
        invariant
            rs == row_models(rows@),
            types == types_of(row_schema@),
            i <= rows@.len(),
            decoded@.len() == i,
            forall|j: int|
                0 <= j < i ==> {
                    &&& scalar_models((#[trigger] decoded@[j])@) == business_cells(rs[j], types)
                    &&& decoded@[j]@.len() == row_schema@.len()
                },
        decreases rows@.len() - i,
    {
        assert(rs[i as int] == rows@[i as int]@);
        decoded.push(decode_business_cells(&rows[i], row_schema));
        i += 1;
    }
    let row_count: usize = rows.len();
    let mut found: Vec<(String, Vec<ScalarValue>)> = Vec::new();
    let mut c: usize = 0;
    while c < row_schema.len()
        invariant
            rs == row_models(rows@),
            types == types_of(row_schema@),
            row_count == rows@.len(),
            c <= row_schema@.len(),
            decoded@.len() == row_count,
            forall|j: int|
                0 <= j < decoded@.len() ==> {
                    &&& scalar_models((#[trigger] decoded@[j])@) == business_cells(rs[j], types)
                    &&& decoded@[j]@.len() == row_schema@.len()
                },
            found@.len() == c,
            forall|k: int|
                0 <= k < c ==> {
                    &&& (#[trigger] found@[k]).0@ == column_name(k as nat)
                    &&& found@[k].1@.len() == row_count
                    &&& scalar_models(found@[k].1@) == column_scalars(rs, types, k)
                },
        decreases row_schema@.len() - c,
    {
        let mut column: Vec<ScalarValue> = Vec::new();
        let mut j: usize = 0;
        while j < decoded.len()
            invariant
                rs == row_models(rows@),
                c < row_schema@.len(),
                decoded@.len() == rows@.len(),
                j <= decoded@.len(),
                forall|k: int|
                    0 <= k < decoded@.len() ==> {
                        &&& scalar_models((#[trigger] decoded@[k])@) == business_cells(rs[k], types)
                        &&& decoded@[k]@.len() == row_schema@.len()
                    },
                column@.len() == j,
                forall|k: int|
                    0 <= k < j ==> (#[trigger] column@[k])@ == business_cells(rs[k], types)[c as int],
            decreases decoded@.len() - j,
        {
            proof {
                let ms = scalar_models(decoded@[j as int]@);
                assert(ms[c as int] == decoded@[j as int]@[c as int]@);
            }
            column.push(decoded[j][c].clone());
            j += 1;
        }
        assert(scalar_models(column@) =~= column_scalars(rs, types, c as int));
        found.push((business_column_name(c), column));
        c += 1;
    }
    proof {
        let cols = selected(projection_view(projection), row_schema@.len());
        lemma_selected(projection_view(projection), row_schema@.len());
        assert forall|k: int| 0 <= k < cols.len() implies {
            &&& has_column(found@, #[trigger] cols[k])
            &&& column_named(
                found@,
                column_name(cols[k] as nat),
            ) == Some(column_scalars(rs, types, cols[k] as int))
        } by {
            let n = cols[k] as int;
            assert forall|j: int| 0 <= j < n implies (#[trigger] found@[j]).0@
                != column_name(n as nat) by {
                lemma_column_names_differ(j as nat, n as nat);
            }
            lemma_column_named(
                found@,
                column_name(n as nat),
                n,
            );
        }
        assert(found_cells(found@, cols) =~= cols.map_values(
            |c: usize| column_scalars(rs, types, c as int),
        ));
    }
    columns_to_batches(found.as_slice(), row_count, projection, row_schema, batch_size, path)
}

} // verus!
