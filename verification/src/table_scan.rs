//! Scans of one table for a query engine.

use crate::batches::{
    can_be_batched, effective_size, fits_schema, in_key_order, is_batch_error, is_batched,
    is_empty_batch, live_payloads, max_index, project, projection_text, projection_view,
    rows_to_batches, schema_view, selected, validate_projection,
};
use crate::buf::{in_range, lemma_sorted_keys, lists_keys, ByteMap};
use crate::chain_store::Chains;
use crate::column_predicate::{
    named_models, predicate_models, predicates_with_fields, with_names, ColumnPredicate,
    PredicateModel,
};
use crate::column_stats::{skip_by_stats, skips};
use crate::error::{EngineError, Result};
use crate::file_io::FileIO;
use crate::keys::{
    law_key_names_its_table, law_prefix_range, prefix_upper, prefix_upper_exclusive, successor,
    table_prefix, table_prefix_of, zero_free,
};
use crate::listing::lists;
use crate::memtable::{prefix_scan, MemTable, RowModel};
use crate::merge::version_map;
use crate::paths::sst_path;
use crate::scalar::TypeModel;
use crate::scans::{
    lemma_newest_concat, lemma_nothing_offered, merge_pairs, newest_of_all, offered, offered_by,
    searched,
};
use crate::schema::{types_of, ColumnBatch, FieldModel, Schema};
use crate::sst_format::{
    columnar_rows, holds_columns, may_scan, may_scan_columns, named_view, opt_predicates, scanned,
    unnamed_models, SstFormat,
};
use crate::tables::{in_scan, is_listing, undropped, Tables};
use crate::tables_model::TablesModel;
use crate::version::{Snapshot, VersionModel, VersionedValue};
use crate::version_set::lists_files;
use vstd::prelude::*;
use vstd::string::StringExecFns;
use vstd::utf8::encode_utf8;

verus! {

/// The message for a table that no schema is known of.
pub open spec fn unknown_table_text(table: Seq<char>) -> Seq<char> {
    "scan_table_arrow: no schema for `"@ + table + "` and no fallback"@
}

fn unknown_table(table: &str) -> (r: EngineError)
    ensures
        r.is_message(unknown_table_text(table@)),
{
    let mut text: String = "scan_table_arrow: no schema for `".to_owned();
    text.append(table);
    text.append("` and no fallback");
    assert(text@ =~= unknown_table_text(table@));
    EngineError::CorruptMessage(text)
}

/// The schema under which a table is scanned: the registered one, else the
/// caller's.
pub open spec fn schema_for(
    m: TablesModel,
    table: Seq<char>,
    fallback: Option<Seq<FieldModel>>,
) -> Option<Seq<FieldModel>> {
    if m.schemas.contains_key(table) {
        Some(m.schemas[table])
    } else {
        fallback
    }
}

/// What the memtable offers to a scan of a table: nothing of a dropped table.
pub open spec fn offered_young(m: TablesModel, chains: Chains, table: Seq<char>, ts: u64) -> Seq<
    (Seq<u8>, VersionModel),
> {
    let prefix = table_prefix_of(table);
    if m.is_dropped(prefix) {
        Seq::empty()
    } else {
        prefix_scan(chains, prefix, ts)
    }
}

/// What memtable and files show of a table at a snapshot.
pub open spec fn table_contents(
    m: TablesModel,
    chains: Chains,
    ids: Seq<u64>,
    table: Seq<char>,
    ts: u64,
) -> Map<Seq<u8>, VersionModel> {
    let prefix = table_prefix_of(table);
    let upper = prefix_upper(prefix);
    newest_of_all(
        Map::empty(),
        offered_young(m, chains, table, ts) + offered_by(
            m,
            searched(m, ids, prefix, upper),
            in_scan(m, prefix, upper, ts),
        ),
    )
}

/// What the memtable alone shows of a table can be put into batches.
pub open spec fn young_fits(
    m: TablesModel,
    chains: Chains,
    table: Seq<char>,
    ts: u64,
    fields: Seq<FieldModel>,
    projection: Option<Seq<usize>>,
    size: nat,
) -> bool {
    can_be_batched(
        in_key_order(newest_of_all(Map::empty(), offered_young(m, chains, table, ts))),
        fields,
        projection,
        size,
    )
}

/// What a scan of a whole table shows cannot be put into batches, for the
/// reason `e`.
pub open spec fn is_table_fault(
    e: EngineError,
    m: TablesModel,
    chains: Chains,
    table: Seq<char>,
    fields: Seq<FieldModel>,
    projection: Option<Seq<usize>>,
    ts: u64,
) -> bool {
    exists|vs: Seq<VersionModel>| #[trigger]
        is_batch_error(e, vs, fields, projection, usize::MAX as nat) && !can_be_batched(
            vs,
            fields,
            projection,
            usize::MAX as nat,
        ) && exists|ids: Seq<u64>| #[trigger]
            is_listing(ids, m.version) && vs == in_key_order(
                table_contents(m, chains, ids, table, ts),
            )
}

/// What a scan of a whole table returns where every file can be read.
pub open spec fn is_table_scan(
    bs: Seq<ColumnBatch>,
    m: TablesModel,
    chains: Chains,
    table: Seq<char>,
    fields: Seq<FieldModel>,
    projection: Option<Seq<usize>>,
    ts: u64,
) -> bool {
    exists|ids: Seq<u64>| #[trigger]
        is_listing(ids, m.version) && is_batched(
            bs,
            in_key_order(table_contents(m, chains, ids, table, ts)),
            fields,
            projection,
            usize::MAX as nat,
        )
}

/// Scans every visible row of a table, each key once: memtable and all files
/// are merged, and the newest visible version of each key counts.
pub fn scan_table<F: FileIO, S: SstFormat>(
    tables: &Tables<F, S>,
    memtable: &MemTable,
    table: &str,
    projection: Option<&[usize]>,
    fallback_schema: Option<&Schema>,
    snapshot_ts: u64,
) -> (r: Result<Vec<ColumnBatch>>)
    requires
        tables.wf(),
        memtable.wf(),
    ensures
        match schema_for(tables@, table@, schema_view(fallback_schema)) {
            None => r matches Err(e) && e.is_message(unknown_table_text(table@)),
            Some(fields) => {
                let p = projection_view(projection);
                &&& !fits_schema(p, fields.len()) ==> (r matches Err(e) && e.is_message(
                    projection_text(max_index(p->0) as nat, fields.len()),
                ))
                &&& tables@.has_no_files() && fits_schema(p, fields.len()) ==> (r is Ok
                    <==> young_fits(
                    tables@,
                    memtable.chains(),
                    table@,
                    snapshot_ts,
                    fields,
                    p,
                    usize::MAX as nat,
                ))
                &&& fits_schema(p, fields.len()) ==> (r matches Err(e) ==> {
                    let prefix = table_prefix_of(table@);
                    ||| tables.range_may_fail(prefix, prefix_upper(prefix), snapshot_ts)
                    ||| is_table_fault(
                        e,
                        tables@,
                        memtable.chains(),
                        table@,
                        fields,
                        p,
                        snapshot_ts,
                    )
                })
                &&& r matches Ok(bs) ==> forall|i: int|
                    0 <= i < bs@.len() ==> (#[trigger] bs@[i]).wf()
                &&& r matches Ok(bs) ==> is_table_scan(
                    bs@,
                    tables@,
                    memtable.chains(),
                    table@,
                    fields,
                    p,
                    snapshot_ts,
                )
            },
        },
{
    let ghost m = tables@;
    let ghost chains = memtable.chains();
    let registered = tables.schema(table);
    let row_schema = match registered {
        Some(s) => s,
        None => match fallback_schema {
            Some(s) => s,
            None => {
                return Err(unknown_table(table));
            },
        },
    };
    match projection {
        Some(p) => match validate_projection(row_schema, p) {
            Ok(()) => {},
            Err(e) => {
                return Err(e);
            },
        },
        None => {},
    }
    let prefix = table_prefix(table);
    let upper = prefix_upper_exclusive(prefix.as_slice());
    let mut visible: ByteMap<VersionedValue> = ByteMap::new();
    assert(version_map(visible@) =~= Map::<Seq<u8>, VersionModel>::empty());
    let ghost mem = offered_young(m, chains, table@, snapshot_ts);
    if !tables.is_dropped_prefix(prefix.as_slice()) {
        let pairs = memtable.scan_prefix_versions(prefix.as_slice(), Snapshot::new(snapshot_ts));
        merge_pairs(&mut visible, pairs);
    }
    match tables.merge_range(&mut visible, prefix.as_slice(), upper.as_slice(), snapshot_ts) {
        Ok(()) => {},
        Err(e) => {
            return Err(e);
        },
    }
    proof {
        let keep = in_scan(m, prefix@, upper@, snapshot_ts);
        let ids = choose|ids: Seq<u64>| #[trigger]
            is_listing(ids, m.version) && version_map(visible@) == newest_of_all(
                newest_of_all(Map::empty(), mem),
                offered_by(m, searched(m, ids, prefix@, upper@), keep),
            );
        lemma_newest_concat(
            Map::empty(),
            mem,
            offered_by(m, searched(m, ids, prefix@, upper@), keep),
        );
        assert(version_map(visible@) == table_contents(m, chains, ids, table@, snapshot_ts));
    }
    rows_to_batches(table, &visible, projection, registered, fallback_schema, usize::MAX)
}

// ── Partitioned scans ─────────────────────────────────────────────────────

/// The statistics show that no row of the table in the file satisfies the
/// predicates.
pub open spec fn skips_file(
    m: TablesModel,
    id: u64,
    table: Seq<char>,
    named: Seq<(Seq<char>, PredicateModel)>,
) -> bool {
    m.stats.contains_key(id) && m.stats[id].contains_key(table) && skips(m.stats[id][table], named)
}

/// Returns whether the statistics show that no row of a table in a file
/// satisfies the predicates.
pub fn skip_file_by_column_stats<F: FileIO, S: SstFormat>(
    tables: &Tables<F, S>,
    file_id: u64,
    table: &str,
    named_preds: &[(String, ColumnPredicate)],
) -> (r: bool)
    requires
        tables.wf(),
    ensures
        r == skips_file(tables@, file_id, table@, named_models(named_preds@)),
{
    match tables.column_stats(file_id, table) {
        Some(stats) => skip_by_stats(stats, named_preds),
        None => false,
    }
}

/// What one file of the first level offers to a scan: nothing where its
/// statistics rule it out, else the rows that satisfy the predicates.
pub open spec fn young_offer(
    m: TablesModel,
    id: u64,
    table: Seq<char>,
    ts: u64,
    types: Seq<TypeModel>,
    named: Seq<(Seq<char>, PredicateModel)>,
) -> Seq<(Seq<u8>, VersionModel)> {
    let prefix = table_prefix_of(table);
    if skips_file(m, id, table, named) {
        Seq::empty()
    } else {
        offered(
            scanned(
                m.rows(id),
                prefix,
                prefix_upper(prefix),
                ts,
                types,
                named.map_values(|p: (Seq<char>, PredicateModel)| p.1),
            ),
            undropped(m),
        )
    }
}

/// What the files of the first level offer, one after the other.
pub open spec fn young_offers(
    m: TablesModel,
    ids: Seq<u64>,
    table: Seq<char>,
    ts: u64,
    types: Seq<TypeModel>,
    named: Seq<(Seq<char>, PredicateModel)>,
) -> Seq<(Seq<u8>, VersionModel)>
    decreases ids.len(),
{
    if ids.len() == 0 {
        Seq::empty()
    } else {
        young_offers(m, ids.drop_last(), table, ts, types, named) + young_offer(
            m,
            ids.last(),
            table,
            ts,
            types,
            named,
        )
    }
}

/// The columns' types and predicates that apply to the first level: those of
/// the registered schema, where there is one.
pub open spec fn young_filter(
    m: TablesModel,
    table: Seq<char>,
    preds: Option<Seq<PredicateModel>>,
) -> (Seq<TypeModel>, Seq<(Seq<char>, PredicateModel)>) {
    if m.schemas.contains_key(table) {
        let fields = m.schemas[table];
        (
            types_of(fields),
            match preds {
                Some(ps) => with_names(ps, fields),
                None => Seq::empty(),
            },
        )
    } else {
        (Seq::empty(), Seq::empty())
    }
}

/// The rows that a deeper file shows.
pub open spec fn deep_rows(
    m: TablesModel,
    id: u64,
    table: Seq<char>,
    ts: u64,
    fields: Seq<FieldModel>,
    ps: Seq<PredicateModel>,
) -> Seq<RowModel> {
    let prefix = table_prefix_of(table);
    columnar_rows(m.rows(id), prefix, prefix_upper(prefix), ts, types_of(fields), ps)
}

/// The files below the first level that show rows.
pub open spec fn deep_files(
    m: TablesModel,
    ps: Seq<(u32, u64)>,
    table: Seq<char>,
    ts: u64,
    fields: Seq<FieldModel>,
    preds: Seq<PredicateModel>,
) -> Seq<u64>
    decreases ps.len(),
{
    if ps.len() == 0 {
        Seq::empty()
    } else {
        let rest = deep_files(m, ps.drop_last(), table, ts, fields, preds);
        let (level, id) = ps.last();
        if level > 0 && !skips_file(m, id, table, with_names(preds, fields)) && deep_rows(
            m,
            id,
            table,
            ts,
            fields,
            preds,
        ).len() > 0 {
            rest.push(id)
        } else {
            rest
        }
    }
}

/// What optional predicates say.
pub open spec fn opt_models(ps: Option<&[ColumnPredicate]>) -> Option<Seq<PredicateModel>> {
    match ps {
        Some(ps) => Some(predicate_models(ps@)),
        None => None,
    }
}

/// The predicates, none where there are none.
pub open spec fn or_none(ps: Option<Seq<PredicateModel>>) -> Seq<PredicateModel> {
    match ps {
        Some(ps) => ps,
        None => Seq::empty(),
    }
}

/// The rows of memtable and first level that a partitioned scan shows.
pub open spec fn young_contents(
    m: TablesModel,
    chains: Chains,
    young: Seq<u64>,
    table: Seq<char>,
    ts: u64,
    preds: Option<Seq<PredicateModel>>,
) -> Map<Seq<u8>, VersionModel> {
    let prefix = table_prefix_of(table);
    let (types, named) = young_filter(m, table, preds);
    newest_of_all(
        Map::empty(),
        offered_young(m, chains, table, ts) + (if m.is_dropped(prefix) {
            Seq::empty()
        } else {
            young_offers(m, young, table, ts, types, named)
        }),
    )
}

/// What a partitioned scan returns: memtable and first level as one partition
/// where they show a key, then one partition for every deeper file that shows
/// rows; one empty batch where nothing is shown.
pub open spec fn are_partitions(
    parts: Seq<Vec<ColumnBatch>>,
    m: TablesModel,
    chains: Chains,
    young: Seq<u64>,
    ps: Seq<(u32, u64)>,
    table: Seq<char>,
    fields: Seq<FieldModel>,
    projection: Option<Seq<usize>>,
    preds: Option<Seq<PredicateModel>>,
    ts: u64,
    batch_size: usize,
) -> bool {
    let top = young_contents(m, chains, young, table, ts, preds);
    let head: nat = if top == Map::<Seq<u8>, VersionModel>::empty() {
        0
    } else {
        1
    };
    let deep = if m.is_dropped(table_prefix_of(table)) {
        Seq::empty()
    } else {
        deep_files(m, ps, table, ts, fields, or_none(preds))
    };
    if head + deep.len() == 0 {
        &&& parts.len() == 1
        &&& parts[0]@.len() == 1
        &&& is_empty_batch(
            parts[0]@[0],
            project(fields, selected(projection, fields.len())),
        )
    } else {
        &&& parts.len() == head + deep.len()
        &&& head == 1 ==> is_batched(
            parts[0]@,
            in_key_order(top),
            fields,
            projection,
            batch_size as nat,
        )
        &&& forall|j: int|
            head <= j < parts.len() ==> holds_columns(
                (#[trigger] parts[j])@,
                deep_rows(m, deep[j - head], table, ts, fields, or_none(preds)),
                fields,
                projection,
                batch_size,
            )
    }
}

/// Scanning a table may fail in a file of the first level that its statistics
/// do not rule out.
pub open spec fn young_may_fail<F: FileIO, S: SstFormat>(
    tables: &Tables<F, S>,
    table: Seq<char>,
    projection: Option<Seq<usize>>,
    preds: Option<Seq<PredicateModel>>,
    ts: u64,
) -> bool {
    let m = tables@;
    let prefix = table_prefix_of(table);
    let schema = if m.schemas.contains_key(table) {
        Some(m.schemas[table])
    } else {
        None
    };
    let named = if schema is Some && preds is Some {
        Some(young_filter(m, table, preds).1)
    } else {
        None
    };
    exists|id: u64| #[trigger]
        m.version.holds(0, id) && may_scan(
            tables.format(),
            m.path(id),
            prefix,
            prefix_upper(prefix),
            ts,
            projection,
            named,
            schema,
            false,
        )
}

/// Scanning a table may fail in a file below the first level.
pub open spec fn deep_may_fail<F: FileIO, S: SstFormat>(
    tables: &Tables<F, S>,
    table: Seq<char>,
    fields: Seq<FieldModel>,
    projection: Option<Seq<usize>>,
    preds: Seq<PredicateModel>,
    ts: u64,
    batch_size: usize,
) -> bool {
    let prefix = table_prefix_of(table);
    exists|level: u32, id: u64| #[trigger]
        tables@.version.holds(level, id) && level > 0 && may_scan_columns(
            tables.format(),
            tables@.path(id),
            prefix,
            prefix_upper(prefix),
            ts,
            preds,
            projection,
            fields,
            batch_size,
            false,
        )
}

/// Why a partitioned scan may fail: a file cannot be read, or what memtable
/// and first level show cannot be put into batches, for the reason `e`.
pub open spec fn partition_fault<F: FileIO, S: SstFormat>(
    e: EngineError,
    tables: &Tables<F, S>,
    chains: Chains,
    table: Seq<char>,
    fields: Seq<FieldModel>,
    projection: Option<Seq<usize>>,
    preds: Option<Seq<PredicateModel>>,
    ts: u64,
    batch_size: usize,
) -> bool {
    ||| young_may_fail(tables, table, projection, preds, ts)
    ||| deep_may_fail(tables, table, fields, projection, or_none(preds), ts, batch_size)
    ||| exists|young: Seq<u64>| #[trigger]
        lists(young, tables@.version.files(0)) && ({
            let vs = in_key_order(young_contents(tables@, chains, young, table, ts, preds));
            !can_be_batched(vs, fields, projection, batch_size as nat) && is_batch_error(
                e,
                vs,
                fields,
                projection,
                batch_size as nat,
            )
        })
}

/// Offers what the files of the first level show of a table to a merge.
fn merge_young<F: FileIO, S: SstFormat>(
    tables: &Tables<F, S>,
    visible: &mut ByteMap<VersionedValue>,
    table: &str,
    projection: Option<&[usize]>,
    predicates: Option<&[ColumnPredicate]>,
    snapshot_ts: u64,
) -> (r: Result<()>)
    requires
        tables.wf(),
        old(visible).wf(),
    ensures
        final(visible).wf(),
        tables@.has_no_files() ==> r is Ok && version_map(final(visible)@) == version_map(
            old(visible)@,
        ),
        r is Ok ==> exists|young: Seq<u64>| #[trigger]
            lists(young, tables@.version.files(0)) && ({
                let (types, named) = young_filter(tables@, table@, opt_models(predicates));
                version_map(final(visible)@) == newest_of_all(
                    version_map(old(visible)@),
                    young_offers(tables@, young, table@, snapshot_ts, types, named),
                )
            }),
        r is Err ==> young_may_fail(
            tables,
            table@,
            projection_view(projection),
            opt_models(predicates),
            snapshot_ts,
        ),
{
    let ghost m = tables@;
    let ghost start = version_map(visible@);
    let prefix = table_prefix(table);
    let upper = prefix_upper_exclusive(prefix.as_slice());
    let version_set = tables.version_set();
    let young = version_set.files(0);
    let registered = tables.schema(table);
    let named_preds: Option<Vec<(String, ColumnPredicate)>> = match registered {
        Some(s) => match predicates {
            Some(p) => Some(predicates_with_fields(p, s)),
            None => None,
        },
        None => None,
    };
    let ghost types = young_filter(m, table@, opt_models(predicates)).0;
    let ghost named = young_filter(m, table@, opt_models(predicates)).1;
    let mut i: usize = 0;
    assert(young@.take(0) =~= Seq::<u64>::empty());
    proof {
        if young@.len() > 0 {
            assert(young@.contains(young@[0]));
            assert(m.version.holds(0, young@[0]));
            assert(m.live(young@[0]));
        }
    }
    while i < young.len()
        invariant
            i <= young@.len(),
            m.has_no_files() ==> young@.len() == 0,
            young@.len() == 0 ==> version_map(visible@) == start,
            tables.wf(),
            m == tables@,
            lists(young@, m.version.files(0)),
            named_preds is Some <==> registered is Some && predicates is Some,
            named == young_filter(m, table@, opt_models(predicates)).1,
            prefix@ == table_prefix_of(table@),
            upper@ == prefix_upper(prefix@),
            registered is Some <==> m.schemas.contains_key(table@),
            registered matches Some(s) ==> s@ == m.schemas[table@],
            named_preds matches Some(ps) ==> registered is Some && named_models(ps@) == named,
            named_preds is None ==> named.len() == 0,
            registered matches Some(s) ==> types == types_of(s@),
            registered is None ==> types == Seq::<TypeModel>::empty(),
            visible.wf(),
            version_map(visible@) == newest_of_all(
                start,
                young_offers(m, young@.take(i as int), table@, snapshot_ts, types, named),
            ),
        decreases young@.len() - i,
    {
        let file_id: u64 = young[i];
        let ghost before = young_offers(
            m,
            young@.take(i as int),
            table@,
            snapshot_ts,
            types,
            named,
        );
        let ghost mine = young_offer(m, file_id, table@, snapshot_ts, types, named);
        proof {
            assert(young@.take(i + 1).drop_last() =~= young@.take(i as int));
            lemma_newest_concat(start, before, mine);
        }
        let skipped = match &named_preds {
            Some(ps) => skip_file_by_column_stats(tables, file_id, table, ps.as_slice()),
            None => false,
        };
        if skipped {
            assert(before + mine =~= before);
        } else {
            let path = sst_path(tables.dir_text(), file_id);
            let filter = match &named_preds {
                Some(ps) => Some(ps.as_slice()),
                None => None,
            };
            let rows = match tables.sst_format().scan_with_filter(
                path.as_str(),
                prefix.as_slice(),
                upper.as_slice(),
                Snapshot::new(snapshot_ts),
                projection,
                filter,
                registered,
            ) {
                Ok(rows) => rows,
                Err(e) => {
                    proof {
                        assert(young@.contains(young@[i as int]));
                        assert(m.version.holds(0, file_id));
                        assert(may_scan(
                            tables.format(),
                            m.path(file_id),
                            prefix@,
                            upper@,
                            snapshot_ts,
                            projection_view(projection),
                            named_view(filter),
                            schema_view(registered),
                            false,
                        ));
                    }
                    return Err(e);
                },
            };
            proof {
                let ps = named.map_values(|p: (Seq<char>, PredicateModel)| p.1);
                assert(opt_predicates(filter) =~= ps) by {
                    match named_preds {
                        Some(v) => {
                            assert(unnamed_models(v@) =~= named_models(v@).map_values(
                                |p: (Seq<char>, PredicateModel)| p.1,
                            ));
                        },
                        None => {},
                    }
                }
                assert(!skips_file(m, file_id, table@, named));
            }
            tables.merge_rows(visible, rows);
        }
        i += 1;
    }
    assert(young@.take(i as int) =~= young@);
    Ok(())
}

proof fn lemma_nothing_live(m: Map<Seq<u8>, VersionModel>)
    requires
        m.dom() =~= Set::<Seq<u8>>::empty(),
    ensures
        live_payloads(in_key_order(m)) == Seq::<Seq<u8>>::empty(),
{
    let none = Seq::<Seq<u8>>::empty();
    assert(lists_keys(none, m.dom()));
    lemma_sorted_keys(none, m.dom());
    assert(in_key_order(m).len() == 0);
}

fn has_rows(bs: &Vec<ColumnBatch>) -> (r: bool)
    ensures
        r <==> exists|i: int| 0 <= i < bs@.len() && (#[trigger] bs@[i]).num_rows > 0,
{
    let mut i: usize = 0;
    while i < bs.len()
        invariant
            i <= bs@.len(),
            forall|j: int| 0 <= j < i ==> (#[trigger] bs@[j]).num_rows == 0,
        decreases bs@.len() - i,
    {
        if bs[i].num_rows > 0 {
            return true;
        }
        i += 1;
    }
    false
}

proof fn lemma_has_rows(
    bs: Seq<ColumnBatch>,
    rs: Seq<RowModel>,
    fields: Seq<FieldModel>,
    projection: Option<Seq<usize>>,
    batch_size: usize,
)
    requires
        holds_columns(bs, rs, fields, projection, batch_size),
    ensures
        (exists|i: int| 0 <= i < bs.len() && (#[trigger] bs[i]).num_rows > 0) <==> rs.len() > 0,
{
    if rs.len() > 0 {
        let size = effective_size(batch_size, rs.len() as usize);
        if bs.len() == 0 || size == 0 {
            assert(bs.len() * size == 0) by (nonlinear_arith)
                requires
                    bs.len() == 0 || size == 0,
            ;
        }
        let b = bs[0];
        assert(0 * size == 0) by (nonlinear_arith);
        assert((0 + 1) * size == size) by (nonlinear_arith);
        assert(b.num_rows > 0);
    }
}

/// Scans a table in partitions: memtable and first level merged as one, then
/// every deeper file on its own, from its business columns.
pub fn scan_table_arrow<F: FileIO, S: SstFormat>(
    tables: &Tables<F, S>,
    memtable: &MemTable,
    table: &str,
    projection: Option<&[usize]>,
    fallback_schema: Option<&Schema>,
    batch_size: usize,
    predicates: Option<&[ColumnPredicate]>,
    snapshot_ts: u64,
) -> (r: Result<Vec<Vec<ColumnBatch>>>)
    requires
        tables.wf(),
        memtable.wf(),
    ensures
        match schema_for(tables@, table@, schema_view(fallback_schema)) {
            None => r matches Err(e) && e.is_message(unknown_table_text(table@)),
            Some(fields) => {
                let p = projection_view(projection);
                &&& !fits_schema(p, fields.len()) ==> (r matches Err(e) && e.is_message(
                    projection_text(max_index(p->0) as nat, fields.len()),
                ))
                &&& tables@.has_no_files() && fits_schema(p, fields.len()) ==> (r is Ok
                    <==> young_fits(
                    tables@,
                    memtable.chains(),
                    table@,
                    snapshot_ts,
                    fields,
                    p,
                    batch_size as nat,
                ))
                &&& fits_schema(p, fields.len()) ==> (r matches Err(e) ==> partition_fault(
                    e,
                    tables,
                    memtable.chains(),
                    table@,
                    fields,
                    p,
                    opt_models(predicates),
                    snapshot_ts,
                    batch_size,
                ))
                &&& r matches Ok(parts) ==> is_partitioned(
                    parts@,
                    tables@,
                    memtable.chains(),
                    table@,
                    fields,
                    p,
                    opt_models(predicates),
                    snapshot_ts,
                    batch_size,
                )
            },
        },
{
    let ghost m = tables@;
    let ghost chains = memtable.chains();
    let ghost preds = opt_models(predicates);
    let registered = tables.schema(table);
    let row_schema = match registered {
        Some(s) => s,
        None => match fallback_schema {
            Some(s) => s,
            None => {
                return Err(unknown_table(table));
            },
        },
    };
    let ghost fields = row_schema@;
    let ghost p = projection_view(projection);
    match projection {
        Some(p) => match validate_projection(row_schema, p) {
            Ok(()) => {},
            Err(e) => {
                return Err(e);
            },
        },
        None => {},
    }
    let prefix = table_prefix(table);
    let upper = prefix_upper_exclusive(prefix.as_slice());
    let dropped = tables.is_dropped_prefix(prefix.as_slice());
    let mut visible: ByteMap<VersionedValue> = ByteMap::new();
    assert(version_map(visible@) =~= Map::<Seq<u8>, VersionModel>::empty());
    let ghost mem = offered_young(m, chains, table@, snapshot_ts);
    if !dropped {
        let pairs = memtable.scan_prefix_versions(prefix.as_slice(), Snapshot::new(snapshot_ts));
        merge_pairs(&mut visible, pairs);
    }
    let ghost mut young: Seq<u64> = Seq::empty();
    if !dropped {
        match merge_young(tables, &mut visible, table, projection, predicates, snapshot_ts) {
            Ok(()) => {},
            Err(e) => {
                return Err(e);
            },
        }
        proof {
            let (types, named) = young_filter(m, table@, preds);
            young = choose|young: Seq<u64>| #[trigger]
                lists(young, m.version.files(0)) && version_map(visible@) == newest_of_all(
                    newest_of_all(Map::empty(), mem),
                    young_offers(m, young, table@, snapshot_ts, types, named),
                );
            lemma_newest_concat(
                Map::empty(),
                mem,
                young_offers(m, young, table@, snapshot_ts, types, named),
            );
        }
    } else {
        let files = tables.version_set().files(0);
        proof {
            young = files@;
            assert(mem + Seq::<(Seq<u8>, VersionModel)>::empty() =~= mem);
        }
    }
    let ghost top = young_contents(m, chains, young, table@, snapshot_ts, preds);
    assert(version_map(visible@) == top);
    let mut parts: Vec<Vec<ColumnBatch>> = Vec::new();
    let ghost head: nat = if top == Map::<Seq<u8>, VersionModel>::empty() {
        0
    } else {
        1
    };
    proof {
        visible.lemma_entries();
        if visible.key_seq().len() > 0 {
            assert(visible@.contains_key(visible.key_seq()[0]));
            assert(top.contains_key(visible.key_seq()[0]));
        } else {
            assert forall|k: Seq<u8>| !top.contains_key(k) by {
                if visible@.contains_key(k) {
                    assert(visible@.dom().contains(k));
                    assert(visible.key_seq().contains(k));
                }
            }
            assert(top =~= Map::<Seq<u8>, VersionModel>::empty());
        }
    }
    if visible.len() > 0 {
        match rows_to_batches(
            table,
            &visible,
            projection,
            registered,
            fallback_schema,
            batch_size,
        ) {
            Ok(bs) => {
                parts.push(bs);
            },
            Err(e) => {
                return Err(e);
            },
        }
    }
    let none: Vec<ColumnPredicate> = Vec::new();
    let deep_preds: &[ColumnPredicate] = match predicates {
        Some(p) => p,
        None => none.as_slice(),
    };
    let ghost ps_deep = or_none(preds);
    assert(predicate_models(deep_preds@) =~= ps_deep);
    let pairs = tables.version_set().level_files();
    let ghost ps = pairs@;
    let ghost first = parts@;
    proof {
        if ps.len() > 0 {
            assert(ps.contains(ps[0]));
            assert(m.version.holds(ps[0].0, ps[0].1));
            assert(m.live(ps[0].1));
        }
    }
    if !dropped {
        let named_preds = predicates_with_fields(deep_preds, row_schema);
        let mut i: usize = 0;
        assert(ps.take(0) =~= Seq::<(u32, u64)>::empty());
        while i < pairs.len()
            invariant
                i <= pairs@.len(),
                ps == pairs@,
                lists_files(ps, m.version.levels),
                preds == opt_models(predicates),
                ps_deep == or_none(preds),
                m.has_no_files() ==> ps.len() == 0,
                tables.wf(),
                m == tables@,
                prefix@ == table_prefix_of(table@),
                upper@ == prefix_upper(prefix@),
                fields == row_schema@,
                p == projection_view(projection),
                fits_schema(p, fields.len()),
                schema_for(m, table@, schema_view(fallback_schema)) == Some(fields),
                predicate_models(deep_preds@) == ps_deep,
                named_models(named_preds@) == with_names(ps_deep, fields),
                head == first.len(),
                ({
                    let deep = deep_files(
                        m,
                        ps.take(i as int),
                        table@,
                        snapshot_ts,
                        fields,
                        ps_deep,
                    );
                    &&& parts@.len() == head + deep.len()
                    &&& head == 1 ==> parts@[0] == first[0]
                    &&& forall|j: int|
                        head <= j < parts@.len() ==> holds_columns(
                            (#[trigger] parts@[j])@,
                            deep_rows(m, deep[j - head], table@, snapshot_ts, fields, ps_deep),
                            fields,
                            p,
                            batch_size,
                        )
                }),
            decreases pairs@.len() - i,
        {
            let (level, file_id) = pairs[i];
            let ghost before = parts@;
            let ghost deep0 = deep_files(
                m,
                ps.take(i as int),
                table@,
                snapshot_ts,
                fields,
                ps_deep,
            );
            proof {
                assert(ps.take(i + 1).drop_last() =~= ps.take(i as int));
                assert(ps.take(i + 1).last() == (level, file_id));
            }
            if level > 0 && !skip_file_by_column_stats(
                tables,
                file_id,
                table,
                named_preds.as_slice(),
            ) {
                let path = sst_path(tables.dir_text(), file_id);
                let bs = match tables.sst_format().scan_columns(
                    path.as_str(),
                    prefix.as_slice(),
                    upper.as_slice(),
                    Snapshot::new(snapshot_ts),
                    deep_preds,
                    projection,
                    row_schema,
                    batch_size,
                ) {
                    Ok(bs) => bs,
                    Err(e) => {
                        proof {
                            assert(ps.contains(ps[i as int]));
                            assert(m.version.holds(level, file_id));
                            assert(may_scan_columns(
                                tables.format(),
                                m.path(file_id),
                                prefix@,
                                upper@,
                                snapshot_ts,
                                ps_deep,
                                p,
                                fields,
                                batch_size,
                                false,
                            ));
                        }
                        return Err(e);
                    },
                };
                let ghost rs = deep_rows(m, file_id, table@, snapshot_ts, fields, ps_deep);
                proof {
                    lemma_has_rows(bs@, rs, fields, p, batch_size);
                }
                if has_rows(&bs) {
                    parts.push(bs);
                    proof {
                        let deep = deep0.push(file_id);
                        assert forall|j: int| head <= j < parts@.len() implies holds_columns(
                            (#[trigger] parts@[j])@,
                            deep_rows(m, deep[j - head], table@, snapshot_ts, fields, ps_deep),
                            fields,
                            p,
                            batch_size,
                        ) by {
                            if j < before.len() {
                                assert(parts@[j] == before[j]);
                                assert(deep[j - head] == deep0[j - head]);
                            }
                        }
                    }
                }
            }
            i += 1;
        }
        assert(ps.take(i as int) =~= ps);
    }
    if parts.len() == 0 {
        let nothing: ByteMap<VersionedValue> = ByteMap::new();
        proof {
            lemma_nothing_live(version_map(nothing@));
        }
        match rows_to_batches(
            table,
            &nothing,
            projection,
            registered,
            fallback_schema,
            batch_size,
        ) {
            Ok(bs) => {
                parts.push(bs);
            },
            Err(e) => {
                return Err(e);
            },
        }
    }
    proof {
        assert(are_partitions(
            parts@,
            m,
            chains,
            young,
            ps,
            table@,
            fields,
            p,
            preds,
            snapshot_ts,
            batch_size,
        ));
    }
    Ok(parts)
}

/// What a partitioned scan returns where every file can be read.
pub open spec fn is_partitioned(
    parts: Seq<Vec<ColumnBatch>>,
    m: TablesModel,
    chains: Chains,
    table: Seq<char>,
    fields: Seq<FieldModel>,
    projection: Option<Seq<usize>>,
    preds: Option<Seq<PredicateModel>>,
    ts: u64,
    batch_size: usize,
) -> bool {
    exists|young: Seq<u64>, ps: Seq<(u32, u64)>| #[trigger]
        are_partitions(
            parts,
            m,
            chains,
            young,
            ps,
            table,
            fields,
            projection,
            preds,
            ts,
            batch_size,
        ) && lists(young, m.version.files(0)) && lists_files(ps, m.version.levels)
}

// ── Laws ──────────────────────────────────────────────────────────────────

proof fn lemma_dropped_offers_nothing(m: TablesModel, ids: Seq<u64>, table: Seq<char>, ts: u64)
    requires
        zero_free(encode_utf8(table)),
        m.version.dropped.contains(table_prefix_of(table)),
    ensures
        ({
            let prefix = table_prefix_of(table);
            offered_by(m, ids, in_scan(m, prefix, prefix_upper(prefix), ts)) == Seq::<
                (Seq<u8>, VersionModel),
            >::empty()
        }),
    decreases ids.len(),
{
    let prefix = table_prefix_of(table);
    let keep = in_scan(m, prefix, prefix_upper(prefix), ts);
    if ids.len() > 0 {
        lemma_dropped_offers_nothing(m, ids.drop_last(), table, ts);
        let rs = m.rows(ids.last());
        assert(successor(prefix) is Some) by {
            assert(prefix.last() == 0);
        }
        assert forall|i: int| 0 <= i < rs.len() implies !keep(#[trigger] rs[i]) by {
            let k = rs[i].key;
            if in_range(k, prefix, prefix_upper(prefix)) {
                law_prefix_range(prefix, k);
                let rest = k.skip(prefix.len() as int);
                assert(k =~= prefix + rest);
                law_key_names_its_table(table, rest);
            }
        }
        lemma_nothing_offered(rs, keep);
    }
}

/// A dropped table is hidden from table scans, whatever memtable and files hold
/// of it, and whether that was written before or after the drop: a scan returns
/// one batch without rows.
pub proof fn law_drop_hides_scans(
    m: TablesModel,
    chains: Chains,
    table: Seq<char>,
    fields: Seq<FieldModel>,
    projection: Option<Seq<usize>>,
    preds: Option<Seq<PredicateModel>>,
    ts: u64,
    batch_size: usize,
    bs: Seq<ColumnBatch>,
    parts: Seq<Vec<ColumnBatch>>,
)
    requires
        zero_free(encode_utf8(table)),
        m.version.dropped.contains(table_prefix_of(table)),
    ensures
        ({
            let shown = project(fields, selected(projection, fields.len()));
            &&& is_table_scan(bs, m, chains, table, fields, projection, ts) ==> bs.len() == 1
                && is_empty_batch(bs[0], shown)
            &&& is_partitioned(
                parts,
                m,
                chains,
                table,
                fields,
                projection,
                preds,
                ts,
                batch_size,
            ) ==> parts.len() == 1 && parts[0]@.len() == 1 && is_empty_batch(parts[0]@[0], shown)
        }),
{
    let prefix = table_prefix_of(table);
    let nothing = Map::<Seq<u8>, VersionModel>::empty();
    let none = Seq::<(Seq<u8>, VersionModel)>::empty();
    law_key_names_its_table(table, Seq::empty());
    assert(prefix + Seq::<u8>::empty() =~= prefix);
    assert(m.is_dropped(prefix));
    lemma_nothing_live(nothing);
    if is_table_scan(bs, m, chains, table, fields, projection, ts) {
        let ids = choose|ids: Seq<u64>| #[trigger]
            is_listing(ids, m.version) && is_batched(
                bs,
                in_key_order(table_contents(m, chains, ids, table, ts)),
                fields,
                projection,
                usize::MAX as nat,
            );
        let read = searched(m, ids, prefix, prefix_upper(prefix));
        lemma_dropped_offers_nothing(m, read, table, ts);
        assert(none + none =~= none);
        assert(table_contents(m, chains, ids, table, ts) == nothing);
    }
    if is_partitioned(parts, m, chains, table, fields, projection, preds, ts, batch_size) {
        let (young, ps) = choose|young: Seq<u64>, ps: Seq<(u32, u64)>| #[trigger]
            are_partitions(
                parts,
                m,
                chains,
                young,
                ps,
                table,
                fields,
                projection,
                preds,
                ts,
                batch_size,
            ) && lists(young, m.version.files(0)) && lists_files(ps, m.version.levels);
        assert(none + none =~= none);
        assert(young_contents(m, chains, young, table, ts, preds) == nothing);
    }
}

} // verus!
