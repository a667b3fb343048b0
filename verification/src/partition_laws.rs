//! What filtered scans of files and partitioned scans of a table come down to.

use crate::batches::{
    batch_is, effective_size, in_key_order, is_batched, least, project, projection_view,
    schema_view, selected,
};
use crate::buf::lex_lt;
use crate::clock::Clock;
use crate::column_predicate::{
    column_of, predicate_models, row_stays, satisfies, with_names, ColumnPredicate, PredicateModel,
};
use crate::committer::snapshot_of;
use crate::compaction::CompactionPicker;
use crate::dml::{first_rows_of, rows_of_batches};
use crate::engine::Engine;
use crate::file_io::FileIO;
use crate::hook::EngineHook;
use crate::keys::table_prefix_of;
use crate::listing::lists;
use crate::memtable::RowModel;
use crate::order_laws::law_ranges_are_half_open;
use crate::row_codec::cells_of;
use crate::scalar::TypeModel;
use crate::schema::{types_of, ColumnBatch, FieldModel, Schema};
use crate::sst_format::{columnar_rows, holds_columns, scanned, SstFormat};
use crate::table_scan::{
    are_partitions, deep_files, deep_rows, opt_models, or_none, schema_for, skips_file,
    young_contents, young_offer, young_offers,
};
use crate::table_scan_laws::{lemma_rows_so_far, named_columns};
use crate::tables_model::TablesModel;
use crate::version::VersionModel;
use crate::version_set::lists_files;
use crate::vortex_sst::{business_cells, column_scalars, pushable};
use vstd::prelude::*;

verus! {

/// The row's key lies in `[lower, upper)`, and it begins at or before the snapshot
/// and ends behind it.
pub open spec fn is_shown(r: RowModel, lower: Seq<u8>, upper: Seq<u8>, ts: u64) -> bool {
    &&& !lex_lt(r.key, lower)
    &&& lex_lt(r.key, upper)
    &&& r.version.begin_ts <= ts
    &&& ts < r.version.end_ts
}

/// The row is live, can be decoded, and its values satisfy each of the predicates.
pub open spec fn is_match(r: RowModel, types: Seq<TypeModel>, ps: Seq<PredicateModel>) -> bool {
    r.version.value matches Some(b) && (cells_of(b, types) matches Ok(p) && forall|i: int|
        0 <= i < ps.len() ==> {
            let c = column_of(#[trigger] ps[i]) as int;
            c < p.0.len() && satisfies(p.0[c], ps[i])
        })
}

/// A filtered scan of a file keeps exactly the rows that are shown and, where there
/// are predicates, match all of them; in order.
pub proof fn law_scans_keep_the_matching_rows(
    rs: Seq<RowModel>,
    lower: Seq<u8>,
    upper: Seq<u8>,
    ts: u64,
    types: Seq<TypeModel>,
    ps: Seq<PredicateModel>,
)
    ensures
        scanned(rs, lower, upper, ts, types, ps) == rs.filter(
            |r: RowModel| is_shown(r, lower, upper, ts) && (ps.len() == 0 || is_match(r, types, ps)),
        ),
        forall|r: RowModel| #[trigger] row_stays(r, types, ps) == is_match(r, types, ps),
    decreases rs.len(),
{
    reveal(Seq::filter);
    if rs.len() > 0 {
        law_scans_keep_the_matching_rows(rs.drop_last(), lower, upper, ts, types, ps);
        law_ranges_are_half_open(rs.last().key, lower, upper);
        assert(row_stays(rs.last(), types, ps) == is_match(rs.last(), types, ps));
    }
}

/// A scan of the columns of a file yields exactly the live rows that are shown and
/// whose values satisfy each predicate that a file can evaluate; in order.
pub proof fn law_column_scans_yield_the_live_rows(
    rs: Seq<RowModel>,
    lower: Seq<u8>,
    upper: Seq<u8>,
    ts: u64,
    types: Seq<TypeModel>,
    ps: Seq<PredicateModel>,
)
    ensures
        columnar_rows(rs, lower, upper, ts, types, ps) == rs.filter(
            |r: RowModel|
                is_shown(r, lower, upper, ts) && r.version.value is Some && forall|i: int|
                    0 <= i < ps.len() && pushable(#[trigger] ps[i]) ==> {
                        let c = column_of(ps[i]) as int;
                        let cells = business_cells(r, types);
                        c < cells.len() && satisfies(cells[c], ps[i])
                    },
        ),
    decreases rs.len(),
{
    reveal(Seq::filter);
    if rs.len() > 0 {
        law_column_scans_yield_the_live_rows(rs.drop_last(), lower, upper, ts, types, ps);
        law_ranges_are_half_open(rs.last().key, lower, upper);
    }
}

/// The columns of a live row that can be decoded hold its values.
pub proof fn law_columns_hold_the_decoded_values(r: RowModel, types: Seq<TypeModel>)
    ensures
        r.version.value matches Some(b) ==> (cells_of(b, types) matches Ok(p) ==> business_cells(
            r,
            types,
        ) == p.0),
        r.version.value is None ==> business_cells(r, types).len() == types.len() && forall|i: int|
            0 <= i < types.len() ==> (#[trigger] business_cells(r, types)[i]).payload is None,
{
}

/// The batches of a partition hold its rows in order and each once, with the
/// columns of the projection and no others.
pub proof fn law_partitions_hold_the_selected_columns(
    bs: Seq<ColumnBatch>,
    rs: Seq<RowModel>,
    fields: Seq<FieldModel>,
    projection: Option<Seq<usize>>,
    batch_size: usize,
    b: int,
    g: int,
    c: int,
)
    requires
        holds_columns(bs, rs, fields, projection, batch_size),
        rs.len() <= usize::MAX,
    ensures
        ({
            let cols = named_columns(projection, fields.len());
            let rows = rows_of_batches(bs);
            &&& rows.len() == rs.len()
            &&& 0 <= b < bs.len() ==> {
                &&& bs[b].columns@.len() == cols.len()
                &&& bs[b].schema@.len() == cols.len()
                &&& 0 <= c < cols.len() ==> bs[b].schema@[c] == fields[cols[c] as int]
                &&& batch_size != 0 ==> bs[b].num_rows <= batch_size
                &&& rs.len() > 0 ==> bs[b].num_rows > 0
            }
            &&& 0 <= g < rows.len() ==> {
                &&& rows[g].len() == cols.len()
                &&& 0 <= c < cols.len() ==> rows[g][c] == business_cells(
                    rs[g],
                    types_of(fields),
                )[cols[c] as int]
            }
        }),
{
    let cols = selected(projection, fields.len());
    let rows = rows_of_batches(bs);
    assert(cols =~= named_columns(projection, fields.len()));
    if rs.len() == 0 {
        assert(bs.drop_last() =~= Seq::<ColumnBatch>::empty());
        assert(rows_of_batches(Seq::<ColumnBatch>::empty()).len() == 0);
        assert(rows =~= first_rows_of(bs[0], 0));
    } else {
        let cells = cols.map_values(|c: usize| column_scalars(rs, types_of(fields), c as int));
        let size = effective_size(batch_size, rs.len() as usize);
        let n = rs.len();
        assert forall|c: int| 0 <= c < cells.len() implies (#[trigger] cells[c]).len() == n by {
        }
        lemma_rows_so_far(bs, project(fields, cols), cells, n, size, bs.len() as int);
        assert(bs.take(bs.len() as int) =~= bs);
        if 0 <= b < bs.len() {
            assert(batch_is(
                bs[b],
                project(fields, cols),
                cells,
                b * size,
                least((b + 1) * size, n as int),
            ));
            assert((b + 1) * size == b * size + size) by (nonlinear_arith);
            assert(b * size <= (bs.len() - 1) * size) by (nonlinear_arith)
                requires
                    b <= bs.len() - 1,
                    size >= 0,
            ;
        }
        if 0 <= g < rows.len() {
            assert(rows[g] == Seq::new(cells.len(), |c: int| cells[c][g]));
        }
    }
}

/// The deeper files that become partitions are exactly those below the first level
/// that their statistics do not rule out and that show a row; in the order listed.
pub proof fn law_deep_files_are_those_with_rows(
    m: TablesModel,
    files: Seq<(u32, u64)>,
    more: Seq<(u32, u64)>,
    one: (u32, u64),
    table: Seq<char>,
    ts: u64,
    fields: Seq<FieldModel>,
    ps: Seq<PredicateModel>,
)
    ensures
        deep_files(m, files + more, table, ts, fields, ps) == deep_files(
            m,
            files,
            table,
            ts,
            fields,
            ps,
        ) + deep_files(m, more, table, ts, fields, ps),
        deep_files(m, seq![one], table, ts, fields, ps) == if one.0 > 0 && !skips_file(
            m,
            one.1,
            table,
            with_names(ps, fields),
        ) && deep_rows(m, one.1, table, ts, fields, ps).len() > 0 {
            seq![one.1]
        } else {
            Seq::empty()
        },
    decreases more.len(),
{
    if more.len() == 0 {
        assert(files + more =~= files);
        assert(deep_files(m, files, table, ts, fields, ps) + deep_files(
            m,
            more,
            table,
            ts,
            fields,
            ps,
        ) =~= deep_files(m, files, table, ts, fields, ps));
    } else {
        assert((files + more).drop_last() =~= files + more.drop_last());
        law_deep_files_are_those_with_rows(
            m,
            files,
            more.drop_last(),
            one,
            table,
            ts,
            fields,
            ps,
        );
        assert(deep_files(m, files + more, table, ts, fields, ps) =~= deep_files(
            m,
            files,
            table,
            ts,
            fields,
            ps,
        ) + deep_files(m, more, table, ts, fields, ps));
    }
    assert(seq![one].drop_last() =~= Seq::<(u32, u64)>::empty());
    assert(deep_files(m, Seq::<(u32, u64)>::empty(), table, ts, fields, ps).len() == 0);
    assert(deep_files(m, seq![one], table, ts, fields, ps) =~= if one.0 > 0 && !skips_file(
        m,
        one.1,
        table,
        with_names(ps, fields),
    ) && deep_rows(m, one.1, table, ts, fields, ps).len() > 0 {
        seq![one.1]
    } else {
        Seq::empty()
    });
}

/// The files of the first level offer one after the other, none of them left out.
pub proof fn law_young_files_offer_in_turn(
    m: TablesModel,
    ids: Seq<u64>,
    more: Seq<u64>,
    one: u64,
    table: Seq<char>,
    ts: u64,
    types: Seq<TypeModel>,
    named: Seq<(Seq<char>, PredicateModel)>,
)
    ensures
        young_offers(m, ids + more, table, ts, types, named) == young_offers(
            m,
            ids,
            table,
            ts,
            types,
            named,
        ) + young_offers(m, more, table, ts, types, named),
        young_offers(m, seq![one], table, ts, types, named) == young_offer(
            m,
            one,
            table,
            ts,
            types,
            named,
        ),
    decreases more.len(),
{
    let none = Seq::<(Seq<u8>, VersionModel)>::empty();
    if more.len() == 0 {
        assert(ids + more =~= ids);
        assert(young_offers(m, ids, table, ts, types, named) + none =~= young_offers(
            m,
            ids,
            table,
            ts,
            types,
            named,
        ));
    } else {
        assert((ids + more).drop_last() =~= ids + more.drop_last());
        law_young_files_offer_in_turn(m, ids, more.drop_last(), one, table, ts, types, named);
        assert(young_offers(m, ids + more, table, ts, types, named) =~= young_offers(
            m,
            ids,
            table,
            ts,
            types,
            named,
        ) + young_offers(m, more, table, ts, types, named));
    }
    assert(seq![one].drop_last() =~= Seq::<u64>::empty());
    assert(young_offers(m, Seq::<u64>::empty(), table, ts, types, named) == none);
    assert(young_offers(m, seq![one], table, ts, types, named) =~= young_offer(
        m,
        one,
        table,
        ts,
        types,
        named,
    ));
}

proof fn lemma_deep_file_of(
    m: TablesModel,
    files: Seq<(u32, u64)>,
    table: Seq<char>,
    ts: u64,
    fields: Seq<FieldModel>,
    ps: Seq<PredicateModel>,
    i: int,
) -> (k: int)
    requires
        0 <= i < files.len(),
        files[i].0 > 0,
        !skips_file(m, files[i].1, table, with_names(ps, fields)),
        deep_rows(m, files[i].1, table, ts, fields, ps).len() > 0,
    ensures
        0 <= k < deep_files(m, files, table, ts, fields, ps).len(),
        deep_files(m, files, table, ts, fields, ps)[k] == files[i].1,
    decreases files.len(),
{
    let init = files.drop_last();
    let rest = deep_files(m, init, table, ts, fields, ps);
    if i < init.len() {
        lemma_deep_file_of(m, init, table, ts, fields, ps, i)
    } else {
        rest.len() as int
    }
}

proof fn lemma_deep_file_from(
    m: TablesModel,
    files: Seq<(u32, u64)>,
    table: Seq<char>,
    ts: u64,
    fields: Seq<FieldModel>,
    ps: Seq<PredicateModel>,
    k: int,
) -> (i: int)
    requires
        0 <= k < deep_files(m, files, table, ts, fields, ps).len(),
    ensures
        0 <= i < files.len(),
        files[i].0 > 0,
        !skips_file(m, files[i].1, table, with_names(ps, fields)),
        deep_rows(m, files[i].1, table, ts, fields, ps).len() > 0,
        deep_files(m, files, table, ts, fields, ps)[k] == files[i].1,
    decreases files.len(),
{
    let init = files.drop_last();
    let rest = deep_files(m, init, table, ts, fields, ps);
    if k < rest.len() {
        lemma_deep_file_from(m, init, table, ts, fields, ps, k)
    } else {
        files.len() - 1
    }
}

/// The file has a partition to itself: it is below the first level, its statistics
/// do not rule it out, and it shows a row of the table.
pub open spec fn is_deep_source(
    m: TablesModel,
    id: u64,
    table: Seq<char>,
    ts: u64,
    fields: Seq<FieldModel>,
    ps: Seq<PredicateModel>,
) -> bool {
    &&& exists|l: u32| l > 0 && #[trigger] m.version.holds(l, id)
    &&& !skips_file(m, id, table, with_names(ps, fields))
    &&& deep_rows(m, id, table, ts, fields, ps).len() > 0
}

/// A partitioned scan leaves no source out and makes none up: every deeper file
/// with rows of the table is a partition, the partition behind the first is always
/// such a file, and what memtable and first level show together comes first.
pub proof fn law_every_source_is_a_partition<F: FileIO, S: SstFormat, H: EngineHook, P: CompactionPicker, C: Clock>(
    e: &Engine<F, S, H, P, C>,
    table: &str,
    projection: Option<&[usize]>,
    fallback: Option<&Schema>,
    batch_size: usize,
    predicates: Option<&[ColumnPredicate]>,
    parts: Vec<Vec<ColumnBatch>>,
    fields: Seq<FieldModel>,
    ps: Seq<PredicateModel>,
    id: u64,
    j: int,
)
    requires
        fields == (if e@.tables.schemas.contains_key(table@) {
            e@.tables.schemas[table@]
        } else {
            fallback->0@
        }),
        ps == (match predicates {
            Some(ps) => predicate_models(ps@),
            None => Seq::empty(),
        }),
        call_ensures(
            Engine::<F, S, H, P, C>::scan_table_arrow,
            (e, table, projection, fallback, batch_size, predicates),
            Ok(parts),
        ),
        !e@.tables.is_dropped(table_prefix_of(table@)),
    ensures
        ({
            let m = e@.tables;
            let ts = snapshot_of(e@.write);
            let p = projection_view(projection);
            &&& is_deep_source(m, id, table@, ts, fields, ps) ==> exists|k: int|
                0 <= k < parts@.len() && holds_columns(
                    (#[trigger] parts@[k])@,
                    deep_rows(m, id, table@, ts, fields, ps),
                    fields,
                    p,
                    batch_size,
                )
            &&& 0 < j < parts@.len() ==> exists|f: u64| #[trigger]
                is_deep_source(m, f, table@, ts, fields, ps) && holds_columns(
                    parts@[j]@,
                    deep_rows(m, f, table@, ts, fields, ps),
                    fields,
                    p,
                    batch_size,
                )
            &&& exists|young: Seq<u64>| #[trigger]
                lists(young, m.version.files(0)) && ({
                    let top = young_contents(
                        m,
                        e@.write.chains,
                        young,
                        table@,
                        ts,
                        opt_models(predicates),
                    );
                    top != Map::<Seq<u8>, VersionModel>::empty() ==> parts@.len() > 0 && is_batched(
                        parts@[0]@,
                        in_key_order(top),
                        fields,
                        p,
                        batch_size as nat,
                    )
                })
        }),
{
    let m = e@.tables;
    let ts = snapshot_of(e@.write);
    let preds = opt_models(predicates);
    let p = projection_view(projection);
    assert(fields == schema_for(m, table@, schema_view(fallback))->0);
    assert(ps == or_none(preds));
    let chains = e@.write.chains;
    let (young, files) = choose|young: Seq<u64>, files: Seq<(u32, u64)>| #[trigger]
        are_partitions(
            parts@,
            m,
            chains,
            young,
            files,
            table@,
            fields,
            p,
            preds,
            ts,
            batch_size,
        ) && lists(young, m.version.files(0)) && lists_files(files, m.version.levels);
    let deep = deep_files(m, files, table@, ts, fields, ps);
    let top = young_contents(m, chains, young, table@, ts, preds);
    let head: int = if top == Map::<Seq<u8>, VersionModel>::empty() {
        0
    } else {
        1
    };
    if is_deep_source(m, id, table@, ts, fields, ps) {
        let l = choose|l: u32| l > 0 && #[trigger] m.version.holds(l, id);
        assert(files.contains((l, id)));
        let i = choose|i: int| 0 <= i < files.len() && files[i] == (l, id);
        let k = lemma_deep_file_of(m, files, table@, ts, fields, ps, i);
        assert(holds_columns(
            parts@[head + k]@,
            deep_rows(m, deep[head + k - head], table@, ts, fields, ps),
            fields,
            p,
            batch_size,
        ));
    }
    if 0 < j < parts@.len() {
        assert(holds_columns(
            parts@[j]@,
            deep_rows(m, deep[j - head], table@, ts, fields, ps),
            fields,
            p,
            batch_size,
        ));
        let i = lemma_deep_file_from(m, files, table@, ts, fields, ps, j - head);
        assert(files.contains(files[i]));
        assert(m.version.holds(files[i].0, files[i].1));
        assert(is_deep_source(m, deep[j - head], table@, ts, fields, ps));
    }
    assert(lists(young, m.version.files(0)));
}

} // verus!
