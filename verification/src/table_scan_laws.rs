//! What scans of a table come down to: its live rows, column by column.

use crate::batches::{
    are_batches, batch_is, fits_schema, in_key_order, is_batched, least, live_payloads, max_index,
    project, projection_view, row_cells, schema_view, selected, selected_cells, window,
};
use crate::buf::{has_prefix, lex_lt};
use crate::chain_store::{chains_read, Chains};
use crate::clock::Clock;
use crate::committer::snapshot_of;
use crate::compaction::CompactionPicker;
use crate::dml::{first_rows_of, rows_of_batches};
use crate::engine::Engine;
use crate::engine_laws::healthy;
use crate::file_io::FileIO;
use crate::hook::EngineHook;
use crate::keys::{
    law_key_names_its_table, law_prefix_range, prefix_upper, successor, table_prefix_of, zero_free,
};
use crate::memtable::live_pairs;
use crate::scalar::ScalarModel;
use crate::scan_laws::{
    law_live_entries_of_a_map, law_memtable_scans_agree_with_reads, lemma_file_offer_from,
    lemma_merge_is_read, lemma_newest_finite,
};
use crate::scans::{entries, law_merge_shows_newest, offered_by, searched};
use crate::schema::{types_of, ColumnBatch, FieldModel, Schema};
use crate::sst_format::SstFormat;
use crate::table_scan::{is_table_scan, offered_young, schema_for, table_contents};
use crate::tables::{in_scan, is_listing, law_pruning_loses_nothing};
use crate::tables_laws::memtable_is_newer;
use crate::tables_model::{law_read_is_unique, TablesModel};
use crate::version::{VersionModel, OPEN_ENDED_TS};
use vstd::prelude::*;
use vstd::utf8::encode_utf8;

verus! {

// ── Projections ───────────────────────────────────────────────────────────

/// A projection that fits a schema names only columns of it, and selects them all
/// in its order; without a projection every column is selected, in the schema's
/// order.
pub proof fn law_projections_select_what_they_name(
    projection: Option<Seq<usize>>,
    fields: Seq<FieldModel>,
    i: int,
)
    requires
        fields.len() <= usize::MAX,
    ensures
        fits_schema(projection, fields.len()) <==> (projection matches Some(p) ==> forall|j: int|
            0 <= j < p.len() ==> #[trigger] p[j] < fields.len()),
        ({
            let cols = selected(projection, fields.len());
            let shown = project(fields, cols);
            match projection {
                Some(p) => cols.len() == p.len() && shown.len() == p.len() && (0 <= i < p.len()
                    ==> cols[i] == p[i] && shown[i] == fields[p[i] as int]),
                None => cols.len() == fields.len() && shown.len() == fields.len() && (0 <= i
                    < fields.len() ==> cols[i] == i && shown[i] == fields[i]),
            }
        }),
{
    if let Some(p) = projection {
        lemma_greatest(p);
    }
}

proof fn lemma_greatest(p: Seq<usize>)
    ensures
        max_index(p) >= -1,
        forall|i: int| 0 <= i < p.len() ==> #[trigger] p[i] <= max_index(p),
        max_index(p) >= 0 ==> exists|i: int| 0 <= i < p.len() && #[trigger] p[i] == max_index(p),
    decreases p.len(),
{
    if p.len() > 0 {
        let init = p.drop_last();
        lemma_greatest(init);
        assert forall|i: int| 0 <= i < p.len() implies #[trigger] p[i] <= max_index(p) by {
            if i < init.len() {
                assert(init[i] == p[i]);
            }
        }
        if p.last() > max_index(init) {
            assert(p[p.len() - 1] == max_index(p));
        } else {
            let i = choose|i: int| 0 <= i < init.len() && #[trigger] init[i] == max_index(init);
            assert(p[i] == max_index(p));
        }
    }
}

/// The columns that a projection names; every column without one.
pub open spec fn named_columns(projection: Option<Seq<usize>>, n: nat) -> Seq<usize> {
    match projection {
        Some(p) => p,
        None => Seq::new(n, |i: int| i as usize),
    }
}

// ── Batches ───────────────────────────────────────────────────────────────

pub proof fn lemma_rows_so_far(
    bs: Seq<ColumnBatch>,
    fields: Seq<FieldModel>,
    cells: Seq<Seq<ScalarModel>>,
    n: nat,
    size: nat,
    j: int,
)
    requires
        are_batches(bs, fields, cells, n, size),
        forall|c: int| 0 <= c < cells.len() ==> (#[trigger] cells[c]).len() == n,
        size > 0,
        0 <= j <= bs.len(),
    ensures
        rows_of_batches(bs.take(j)).len() == least(j * size, n as int),
        forall|g: int|
            0 <= g < rows_of_batches(bs.take(j)).len() ==> #[trigger] rows_of_batches(bs.take(j))[g]
                == Seq::new(cells.len(), |c: int| cells[c][g]),
    decreases j,
{
    let rows = rows_of_batches(bs.take(j));
    if j == 0 {
        assert(j * size == 0) by (nonlinear_arith)
            requires
                j == 0,
        ;
        assert(rows.len() == 0);
    } else {
        lemma_rows_so_far(bs, fields, cells, n, size, j - 1);
        let b = bs[j - 1];
        let front = rows_of_batches(bs.take(j - 1));
        assert(bs.take(j).drop_last() =~= bs.take(j - 1));
        assert(bs.take(j).last() == b);
        let (from, to) = ((j - 1) * size, least(j * size, n as int));
        assert(batch_is(b, fields, cells, from, to));
        assert(j * size == (j - 1) * size + size) by (nonlinear_arith);
        assert((j - 1) * size <= (bs.len() - 1) * size) by (nonlinear_arith)
            requires
                j <= bs.len(),
                size > 0,
        ;
        assert((j - 1) * size < n);
        assert(front.len() == from);
        assert(rows == front + first_rows_of(b, b.num_rows as int));
        assert forall|g: int| 0 <= g < rows.len() implies #[trigger] rows[g] == Seq::new(
            cells.len(),
            |c: int| cells[c][g],
        ) by {
            if g < front.len() {
                assert(rows[g] == front[g]);
            } else {
                let i = g - from;
                assert(rows[g] == b.row(i));
                let want = Seq::new(cells.len(), |c: int| cells[c][g]);
                assert(b.cells() == window(cells, from, to));
                assert(b.row(i).len() == want.len());
                assert forall|c: int| 0 <= c < want.len() implies b.row(i)[c] == want[c] by {
                    assert(b.cells()[c] == cells[c].subrange(from, to));
                }
                assert(b.row(i) =~= want);
            }
        }
    }
}

/// The batches of versions hold the live ones as rows, in order and each once:
/// one column for each selected column, which holds that column's value of every
/// row, under that column's declaration.
pub proof fn law_batches_hold_the_selected_columns(
    bs: Seq<ColumnBatch>,
    vs: Seq<VersionModel>,
    fields: Seq<FieldModel>,
    projection: Option<Seq<usize>>,
    size: nat,
    b: int,
    g: int,
    c: int,
)
    requires
        is_batched(bs, vs, fields, projection, size),
        fits_schema(projection, fields.len()),
        size > 0,
    ensures
        ({
            let cols = named_columns(projection, fields.len());
            let rows = rows_of_batches(bs);
            &&& rows.len() == (if cols.len() == 0 {
                0
            } else {
                live_payloads(vs).len()
            })
            &&& 0 <= b < bs.len() ==> {
                &&& bs[b].columns@.len() == cols.len()
                &&& bs[b].schema@.len() == cols.len()
                &&& 0 <= c < cols.len() ==> bs[b].schema@[c] == fields[cols[c] as int]
            }
            &&& 0 <= g < rows.len() ==> {
                &&& rows[g].len() == cols.len()
                &&& 0 <= c < cols.len() ==> rows[g][c] == row_cells(
                    live_payloads(vs)[g],
                    types_of(fields),
                )[cols[c] as int]
            }
        }),
{
    let cols = selected(projection, fields.len());
    let payloads = live_payloads(vs);
    let rows = rows_of_batches(bs);
    assert(cols =~= named_columns(projection, fields.len()));
    if payloads.len() == 0 || cols.len() == 0 {
        assert(bs.drop_last() =~= Seq::<ColumnBatch>::empty());
        assert(rows_of_batches(Seq::<ColumnBatch>::empty()).len() == 0);
        assert(rows =~= first_rows_of(bs[0], 0));
    } else {
        let cells = selected_cells(payloads, types_of(fields), cols);
        assert forall|c: int| 0 <= c < cells.len() implies (#[trigger] cells[c]).len()
            == payloads.len() by {
        }
        lemma_rows_so_far(
            bs,
            project(fields, cols),
            cells,
            payloads.len(),
            size,
            bs.len() as int,
        );
        assert(bs.take(bs.len() as int) =~= bs);
        if 0 <= b < bs.len() {
            assert(batch_is(
                bs[b],
                project(fields, cols),
                cells,
                b * size,
                least((b + 1) * size, payloads.len() as int),
            ));
        }
        if 0 <= g < rows.len() {
            assert(rows[g] == Seq::new(cells.len(), |c: int| cells[c][g]));
        }
    }
}

/// The live payloads of versions are the values of those that have one, each
/// where it stands.
pub proof fn law_live_payloads_are_the_values(
    a: Seq<VersionModel>,
    b: Seq<VersionModel>,
    one: VersionModel,
)
    ensures
        live_payloads(a + b) == live_payloads(a) + live_payloads(b),
        live_payloads(seq![one]) == match one.value {
            Some(v) => seq![v],
            None => Seq::empty(),
        },
    decreases b.len(),
{
    if b.len() == 0 {
        assert(a + b =~= a);
        assert(live_payloads(a) + live_payloads(b) =~= live_payloads(a));
    } else {
        assert((a + b).drop_last() =~= a + b.drop_last());
        law_live_payloads_are_the_values(a, b.drop_last(), one);
        assert(live_payloads(a + b) =~= live_payloads(a) + live_payloads(b));
    }
    assert(seq![one].drop_last() =~= Seq::<VersionModel>::empty());
    assert(live_payloads(Seq::<VersionModel>::empty()).len() == 0);
    assert(live_payloads(seq![one]) =~= match one.value {
        Some(v) => seq![v],
        None => Seq::empty(),
    });
}

proof fn lemma_payloads_of_pairs(es: Seq<(Seq<u8>, VersionModel)>)
    ensures
        live_payloads(es.map_values(|e: (Seq<u8>, VersionModel)| e.1)) == live_pairs(es).map_values(
            |p: (Seq<u8>, Seq<u8>)| p.1,
        ),
    decreases es.len(),
{
    let vs = es.map_values(|e: (Seq<u8>, VersionModel)| e.1);
    let ps = live_pairs(es).map_values(|p: (Seq<u8>, Seq<u8>)| p.1);
    if es.len() > 0 {
        let init = es.drop_last();
        lemma_payloads_of_pairs(init);
        assert(vs.drop_last() =~= init.map_values(|e: (Seq<u8>, VersionModel)| e.1));
        assert(live_payloads(vs) =~= ps);
    } else {
        assert(live_payloads(vs) =~= ps);
    }
}

// ── Tables ────────────────────────────────────────────────────────────────

/// `ks` lists the keys of a table that a read at the snapshot finds live.
pub open spec fn are_live_keys(
    ks: Seq<Seq<u8>>,
    m: TablesModel,
    chains: Chains,
    table: Seq<char>,
    ts: u64,
) -> bool {
    &&& forall|i: int, j: int| 0 <= i < j < ks.len() ==> #[trigger] lex_lt(ks[i], ks[j])
    &&& forall|k: Seq<u8>| #[trigger]
        ks.contains(k) <==> has_prefix(k, table_prefix_of(table)) && exists|v: Seq<u8>|
            m.reads(chains, k, ts, Some(v))
}

proof fn lemma_table_contents(
    m: TablesModel,
    chains: Chains,
    ids: Seq<u64>,
    table: Seq<char>,
    ts: u64,
    k: Seq<u8>,
)
    requires
        m.well_kept(),
        m.agrees(),
        memtable_is_newer(m, chains),
        chains.dom().finite(),
        is_listing(ids, m.version),
        ts < OPEN_ENDED_TS,
        zero_free(encode_utf8(table)),
        !m.version.dropped.contains(table_prefix_of(table)),
    ensures
        ({
            let shown = table_contents(m, chains, ids, table, ts);
            &&& shown.contains_key(k) ==> has_prefix(k, table_prefix_of(table))
            &&& has_prefix(k, table_prefix_of(table)) ==> !m.is_dropped(k) && m.reads(
                chains,
                k,
                ts,
                if shown.contains_key(k) {
                    shown[k].value
                } else {
                    None
                },
            )
        }),
{
    let prefix = table_prefix_of(table);
    let upper = prefix_upper(prefix);
    let keep = in_scan(m, prefix, upper, ts);
    let found = searched(m, ids, prefix, upper);
    let young = offered_young(m, chains, table, ts);
    let ps = young + offered_by(m, found, keep);
    let shown = table_contents(m, chains, ids, table, ts);
    law_key_names_its_table(table, Seq::empty());
    assert(prefix + Seq::<u8>::empty() =~= prefix);
    assert(successor(prefix) is Some) by {
        assert(prefix.last() == 0);
    }
    law_prefix_range(prefix, k);
    law_merge_shows_newest(ps, k);
    if shown.contains_key(k) {
        let j = choose|j: int| 0 <= j < ps.len() && ps[j] == (k, shown[k]);
        if j < young.len() {
            assert(young[j] == (k, shown[k]));
            law_memtable_scans_agree_with_reads(
                chains,
                Seq::empty(),
                Seq::empty(),
                prefix,
                ts,
                k,
                shown[k],
            );
            assert(young.contains((k, shown[k])));
        } else {
            let (a, i) = lemma_file_offer_from(m, found, keep, j - young.len());
        }
    }
    if has_prefix(k, prefix) {
        let rest = k.skip(prefix.len() as int);
        assert(k =~= prefix + rest);
        law_key_names_its_table(table, rest);
        assert forall|w: VersionModel| #[trigger] young.contains((k, w)) <==> chains_read(
            chains,
            k,
            ts,
        ) == Some(w) by {
            law_memtable_scans_agree_with_reads(
                chains,
                Seq::empty(),
                Seq::empty(),
                prefix,
                ts,
                k,
                w,
            );
        }
        law_pruning_loses_nothing(m, ids, prefix, upper, ts);
        lemma_merge_is_read(m, chains, ids, young, keep, ts, k);
    }
}

/// Each batch has one column for each of `cols`, under its declaration, and the
/// rows of the batches are those of the keys `ks`: under each column stands that
/// column's value in what a read of the key gives.
pub open spec fn are_rows_of_keys(
    bs: Seq<ColumnBatch>,
    ks: Seq<Seq<u8>>,
    m: TablesModel,
    chains: Chains,
    fields: Seq<FieldModel>,
    cols: Seq<usize>,
    ts: u64,
) -> bool {
    let rows = rows_of_batches(bs);
    &&& forall|b: int, c: int|
        #![trigger bs[b].schema@[c]]
        0 <= b < bs.len() && 0 <= c < cols.len() ==> bs[b].schema@[c] == fields[cols[c] as int]
    &&& forall|b: int|
        0 <= b < bs.len() ==> (#[trigger] bs[b]).columns@.len() == cols.len()
            && bs[b].schema@.len() == cols.len()
    &&& rows.len() == (if cols.len() == 0 {
        0
    } else {
        ks.len()
    })
    &&& forall|g: int| 0 <= g < rows.len() ==> (#[trigger] rows[g]).len() == cols.len()
    &&& forall|g: int, c: int, v: Seq<u8>|
        #![trigger rows[g][c], m.reads(chains, ks[g], ts, Some(v))]
        0 <= g < rows.len() && 0 <= c < cols.len() && m.reads(chains, ks[g], ts, Some(v))
            ==> rows[g][c] == row_cells(v, types_of(fields))[cols[c] as int]
}

proof fn lemma_scanned_cell(
    bs: Seq<ColumnBatch>,
    m: TablesModel,
    chains: Chains,
    ids: Seq<u64>,
    table: Seq<char>,
    fields: Seq<FieldModel>,
    projection: Option<Seq<usize>>,
    ts: u64,
    g: int,
    c: int,
    v: Seq<u8>,
)
    requires
        m.well_kept(),
        m.agrees(),
        memtable_is_newer(m, chains),
        chains.dom().finite(),
        is_listing(ids, m.version),
        ts < OPEN_ENDED_TS,
        zero_free(encode_utf8(table)),
        !m.version.dropped.contains(table_prefix_of(table)),
        fits_schema(projection, fields.len()),
        is_batched(
            bs,
            in_key_order(table_contents(m, chains, ids, table, ts)),
            fields,
            projection,
            usize::MAX as nat,
        ),
    ensures
        ({
            let cols = named_columns(projection, fields.len());
            let pairs = live_pairs(entries(table_contents(m, chains, ids, table, ts)));
            let rows = rows_of_batches(bs);
            &&& rows.len() == (if cols.len() == 0 {
                0
            } else {
                pairs.len()
            })
            &&& 0 <= g < rows.len() && 0 <= c < cols.len() && m.reads(
                chains,
                pairs[g].0,
                ts,
                Some(v),
            ) ==> rows[g].len() == cols.len() && rows[g][c] == row_cells(
                v,
                types_of(fields),
            )[cols[c] as int]
        }),
{
    let shown = table_contents(m, chains, ids, table, ts);
    let vs = in_key_order(shown);
    let es = entries(shown);
    let pairs = live_pairs(es);
    assert(vs =~= es.map_values(|q: (Seq<u8>, VersionModel)| q.1));
    lemma_payloads_of_pairs(es);
    law_batches_hold_the_selected_columns(bs, vs, fields, projection, usize::MAX as nat, 0, g, c);
    if 0 <= g < pairs.len() {
        assert(live_payloads(vs)[g] == pairs[g].1);
        assert(pairs.contains(pairs[g]));
        lemma_live_keys(m, chains, ids, table, ts);
        law_live_entries_of_a_map(shown, pairs[g].0, pairs[g].1);
        lemma_table_contents(m, chains, ids, table, ts, pairs[g].0);
        if m.reads(chains, pairs[g].0, ts, Some(v)) {
            law_read_is_unique(m, chains, pairs[g].0, ts, Some(v), shown[pairs[g].0].value);
        }
    }
}

/// What a whole scan of a table shows are its live rows and nothing else.
pub proof fn lemma_scanned_rows(
    bs: Seq<ColumnBatch>,
    m: TablesModel,
    chains: Chains,
    table: Seq<char>,
    fields: Seq<FieldModel>,
    projection: Option<Seq<usize>>,
    ts: u64,
) -> (ks: Seq<Seq<u8>>)
    requires
        is_table_scan(bs, m, chains, table, fields, projection, ts),
        fits_schema(projection, fields.len()),
        m.well_kept(),
        m.agrees(),
        memtable_is_newer(m, chains),
        chains.dom().finite(),
        ts < OPEN_ENDED_TS,
        zero_free(encode_utf8(table)),
        !m.version.dropped.contains(table_prefix_of(table)),
    ensures
        are_live_keys(ks, m, chains, table, ts),
        are_rows_of_keys(
            bs,
            ks,
            m,
            chains,
            fields,
            named_columns(projection, fields.len()),
            ts,
        ),
{
    let cols = named_columns(projection, fields.len());
    let rows = rows_of_batches(bs);
    let size = usize::MAX as nat;
    let ids = choose|ids: Seq<u64>| #[trigger]
        is_listing(ids, m.version) && is_batched(
            bs,
            in_key_order(table_contents(m, chains, ids, table, ts)),
            fields,
            projection,
            size,
        );
    let shown = table_contents(m, chains, ids, table, ts);
    let vs = in_key_order(shown);
    let pairs = live_pairs(entries(shown));
    let ks = pairs.map_values(|q: (Seq<u8>, Seq<u8>)| q.0);
    lemma_live_keys(m, chains, ids, table, ts);
    assert forall|b: int, c: int|
        #![trigger bs[b].schema@[c]]
        0 <= b < bs.len() && 0 <= c < cols.len() implies bs[b].schema@[c] == fields[cols[c] as int] by {
        law_batches_hold_the_selected_columns(bs, vs, fields, projection, size, b, 0, c);
    }
    assert forall|b: int| 0 <= b < bs.len() implies (#[trigger] bs[b]).columns@.len() == cols.len()
        && bs[b].schema@.len() == cols.len() by {
        law_batches_hold_the_selected_columns(bs, vs, fields, projection, size, b, 0, 0);
    }
    lemma_scanned_cell(bs, m, chains, ids, table, fields, projection, ts, 0, 0, Seq::empty());
    assert forall|g: int, c: int, v: Seq<u8>|
        #![trigger rows[g][c], m.reads(chains, ks[g], ts, Some(v))]
        0 <= g < rows.len() && 0 <= c < cols.len() && m.reads(
            chains,
            ks[g],
            ts,
            Some(v),
        ) implies rows[g][c] == row_cells(v, types_of(fields))[cols[c] as int] by {
        lemma_scanned_cell(bs, m, chains, ids, table, fields, projection, ts, g, c, v);
    }
    assert forall|g: int| 0 <= g < rows.len() implies (#[trigger] rows[g]).len() == cols.len() by {
        law_batches_hold_the_selected_columns(bs, vs, fields, projection, size, 0, g, 0);
    }
    ks
}

/// A scan of a table shows its live rows and nothing else: one row for each key of
/// the table that a read at the latest commit finds, in key order. Each batch has
/// the columns of the projection and no others, or all of them without one; the
/// value under a column is that column's value in what the read of the key gives.
pub proof fn law_table_scan_shows_the_live_rows<F: FileIO, S: SstFormat, H: EngineHook, P: CompactionPicker, C: Clock>(
    e: &Engine<F, S, H, P, C>,
    table: &str,
    projection: Option<&[usize]>,
    fallback: Option<&Schema>,
    bs: Vec<ColumnBatch>,
) -> (ks: Seq<Seq<u8>>)
    requires
        call_ensures(
            Engine::<F, S, H, P, C>::scan_table,
            (e, table, projection, fallback),
            Ok(bs),
        ),
        healthy(e@),
        e@.write.chains.dom().finite(),
        snapshot_of(e@.write) < OPEN_ENDED_TS,
        zero_free(encode_utf8(table@)),
        !e@.tables.version.dropped.contains(table_prefix_of(table@)),
    ensures
        e@.tables.schemas.contains_key(table@) || fallback is Some,
        are_live_keys(ks, e@.tables, e@.write.chains, table@, snapshot_of(e@.write)),
        ({
            let fields = if e@.tables.schemas.contains_key(table@) {
                e@.tables.schemas[table@]
            } else {
                fallback->0@
            };
            are_rows_of_keys(
                bs@,
                ks,
                e@.tables,
                e@.write.chains,
                fields,
                named_columns(projection_view(projection), fields.len()),
                snapshot_of(e@.write),
            )
        }),
{
    let fields = schema_for(e@.tables, table@, schema_view(fallback))->0;
    lemma_scanned_rows(
        bs@,
        e@.tables,
        e@.write.chains,
        table@,
        fields,
        projection_view(projection),
        snapshot_of(e@.write),
    )
}

proof fn lemma_live_keys(m: TablesModel, chains: Chains, ids: Seq<u64>, table: Seq<char>, ts: u64)
    requires
        m.well_kept(),
        m.agrees(),
        memtable_is_newer(m, chains),
        chains.dom().finite(),
        is_listing(ids, m.version),
        ts < OPEN_ENDED_TS,
        zero_free(encode_utf8(table)),
        !m.version.dropped.contains(table_prefix_of(table)),
    ensures
        table_contents(m, chains, ids, table, ts).dom().finite(),
        are_live_keys(
            live_pairs(entries(table_contents(m, chains, ids, table, ts))).map_values(
                |q: (Seq<u8>, Seq<u8>)| q.0,
            ),
            m,
            chains,
            table,
            ts,
        ),
{
    let shown = table_contents(m, chains, ids, table, ts);
    let pairs = live_pairs(entries(shown));
    let ks = pairs.map_values(|q: (Seq<u8>, Seq<u8>)| q.0);
    let prefix = table_prefix_of(table);
    let upper = prefix_upper(prefix);
    lemma_newest_finite(
        offered_young(m, chains, table, ts) + offered_by(
            m,
            searched(m, ids, prefix, upper),
            in_scan(m, prefix, upper, ts),
        ),
    );
    assert forall|k: Seq<u8>| #[trigger] ks.contains(k) <==> has_prefix(k, prefix) && exists|v: Seq<
        u8,
    >|
        m.reads(chains, k, ts, Some(v)) by {
        lemma_table_contents(m, chains, ids, table, ts, k);
        if ks.contains(k) {
            let g = choose|g: int| 0 <= g < ks.len() && ks[g] == k;
            assert(pairs.contains(pairs[g]));
            law_live_entries_of_a_map(shown, pairs[g].0, pairs[g].1);
            assert(m.reads(chains, k, ts, Some(pairs[g].1)));
        }
        if has_prefix(k, prefix) && exists|v: Seq<u8>| m.reads(chains, k, ts, Some(v)) {
            let v = choose|v: Seq<u8>| m.reads(chains, k, ts, Some(v));
            law_read_is_unique(
                m,
                chains,
                k,
                ts,
                Some(v),
                if shown.contains_key(k) {
                    shown[k].value
                } else {
                    None
                },
            );
            law_live_entries_of_a_map(shown, k, v);
            let g = choose|g: int| 0 <= g < pairs.len() && pairs[g] == (k, v);
            assert(ks[g] == k);
        }
    }
    law_live_entries_of_a_map(shown, Seq::empty(), Seq::empty());
    assert forall|i: int, j: int| 0 <= i < j < ks.len() implies #[trigger] lex_lt(ks[i], ks[j]) by {
        assert(lex_lt(pairs[i].0, pairs[j].0));
    }
}

} // verus!
