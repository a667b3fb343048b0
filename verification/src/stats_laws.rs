//! What column statistics say of the rows they were taken of.

use crate::column_predicate::{
    column_of, named_models, row_satisfies, satisfies, with_names, ColumnPredicate, PredicateModel,
};
use crate::column_stats::{
    bounds_typed, encloses, excludes, law_skip_is_sound, lemma_lt_irreflexive, lemma_lt_transitive,
    skip_by_stats, skips, table_of_key, table_stats, with_cell, with_cells, StatsModel,
    TableColumnStats,
};
use crate::memtable::RowModel;
use crate::row_codec::cells_of;
use crate::scalar::{layout, scalar_lt, well_typed, ScalarModel, TypeModel};
use crate::schema::{types_of, FieldModel};
use vstd::prelude::*;

verus! {

/// Decoded values are of the types they were decoded as.
pub proof fn law_decoded_values_are_typed(s: Seq<u8>, types: Seq<TypeModel>)
    ensures
        cells_of(s, types) matches Ok(p) ==> p.0.len() == types.len() && forall|i: int|
            0 <= i < p.0.len() ==> well_typed(#[trigger] p.0[i]) && (p.0[i].payload is Some
                ==> p.0[i].ty == types[i]),
    decreases types.len(),
{
    reveal(layout);
    if types.len() > 0 {
        let init = types.drop_last();
        law_decoded_values_are_typed(s, init);
        if cells_of(s, types) is Ok {
            let p = cells_of(s, types)->Ok_0;
            let front = cells_of(s, init)->Ok_0;
            assert forall|i: int| 0 <= i < p.0.len() implies well_typed(#[trigger] p.0[i]) && (
            p.0[i].payload is Some ==> p.0[i].ty == types[i]) by {
                if i < front.0.len() {
                    assert(p.0[i] == front.0[i]);
                    assert(init[i] == types[i]);
                }
            }
        }
    }
}

/// The row belongs to the table, is live, and holds these values.
pub open spec fn is_table_row(
    r: RowModel,
    table: Seq<char>,
    fields: Seq<FieldModel>,
    cells: Seq<ScalarModel>,
) -> bool {
    &&& table_of_key(r.key) == Some(table)
    &&& r.version.value matches Some(b) && (cells_of(b, types_of(fields)) matches Ok(p) && p.0
        == cells)
}

proof fn lemma_cell(s: StatsModel, name: Seq<char>, v: ScalarModel, other: Seq<char>, w: ScalarModel)
    requires
        bounds_typed(s),
        well_typed(v),
        well_typed(w),
        w.payload is Some,
    ensures
        bounds_typed(with_cell(s, name, v)),
        encloses(s, other, w) ==> encloses(with_cell(s, name, v), other, w),
        v.payload is Some ==> encloses(with_cell(s, name, v), name, v),
{
    if v.payload is Some {
        lemma_lt_irreflexive(v);
        if name == other && encloses(s, other, w) {
            if scalar_lt(v, s.min[name]) && scalar_lt(w, v) {
                lemma_lt_transitive(w, v, s.min[name]);
            }
            if scalar_lt(s.max[name], v) && scalar_lt(v, w) {
                lemma_lt_transitive(s.max[name], v, w);
            }
        }
    }
}

proof fn lemma_cells(
    s: StatsModel,
    fields: Seq<FieldModel>,
    cells: Seq<ScalarModel>,
    n: nat,
    other: Seq<char>,
    w: ScalarModel,
    c: int,
)
    requires
        bounds_typed(s),
        n <= cells.len(),
        forall|i: int| 0 <= i < cells.len() ==> well_typed(#[trigger] cells[i]),
        well_typed(w),
        w.payload is Some,
    ensures
        bounds_typed(with_cells(s, fields, cells, n)),
        encloses(s, other, w) ==> encloses(with_cells(s, fields, cells, n), other, w),
        0 <= c < n && cells[c].payload is Some ==> encloses(
            with_cells(s, fields, cells, n),
            fields[c].name,
            cells[c],
        ),
    decreases n,
{
    if n > 0 {
        let k = (n - 1) as nat;
        lemma_cells(s, fields, cells, k, other, w, c);
        let mid = with_cells(s, fields, cells, k);
        lemma_cell(mid, fields[n - 1].name, cells[n - 1], other, w);
        if 0 <= c < k && cells[c].payload is Some {
            lemma_cell(mid, fields[n - 1].name, cells[n - 1], fields[c].name, cells[c]);
        }
    }
}

/// The statistics of a table enclose every value that a row of it holds under a
/// column: the smallest is no greater than it, and the largest no less.
pub proof fn law_statistics_enclose_every_value(
    rs: Seq<RowModel>,
    table: Seq<char>,
    fields: Seq<FieldModel>,
    i: int,
    cells: Seq<ScalarModel>,
    c: int,
)
    requires
        0 <= i < rs.len(),
        is_table_row(rs[i], table, fields, cells),
        0 <= c < fields.len(),
        cells[c].payload is Some,
    ensures
        ({
            let s = table_stats(rs, table, fields);
            &&& s.min.contains_key(fields[c].name)
            &&& s.max.contains_key(fields[c].name)
            &&& !scalar_lt(cells[c], s.min[fields[c].name])
            &&& !scalar_lt(s.max[fields[c].name], cells[c])
            &&& bounds_typed(s)
        }),
{
    let b = rs[i].version.value->0;
    law_decoded_values_are_typed(b, types_of(fields));
    lemma_rows_enclosed(rs, table, fields, i, cells, c);
}

proof fn lemma_rows_enclosed(
    rs: Seq<RowModel>,
    table: Seq<char>,
    fields: Seq<FieldModel>,
    i: int,
    cells: Seq<ScalarModel>,
    c: int,
)
    requires
        0 <= i < rs.len(),
        is_table_row(rs[i], table, fields, cells),
        0 <= c < fields.len(),
        cells.len() == fields.len(),
        well_typed(cells[c]),
        cells[c].payload is Some,
    ensures
        bounds_typed(table_stats(rs, table, fields)),
        encloses(table_stats(rs, table, fields), fields[c].name, cells[c]),
    decreases rs.len(),
{
    let init = rs.drop_last();
    let r = rs.last();
    let s = table_stats(init, table, fields);
    lemma_stats_typed(init, table, fields);
    if i < init.len() {
        lemma_rows_enclosed(init, table, fields, i, cells, c);
    }
    if table_of_key(r.key) == Some(table) && r.version.value is Some {
        let b = r.version.value->0;
        law_decoded_values_are_typed(b, types_of(fields));
        if cells_of(b, types_of(fields)) is Ok {
            let more = (cells_of(b, types_of(fields))->Ok_0).0;
            lemma_cells(s, fields, more, fields.len(), fields[c].name, cells[c], c);
        }
    }
}

proof fn lemma_stats_typed(rs: Seq<RowModel>, table: Seq<char>, fields: Seq<FieldModel>)
    ensures
        bounds_typed(table_stats(rs, table, fields)),
    decreases rs.len(),
{
    if rs.len() > 0 {
        let init = rs.drop_last();
        let r = rs.last();
        lemma_stats_typed(init, table, fields);
        if table_of_key(r.key) == Some(table) && r.version.value is Some {
            let b = r.version.value->0;
            law_decoded_values_are_typed(b, types_of(fields));
            if cells_of(b, types_of(fields)) is Ok {
                let more = (cells_of(b, types_of(fields))->Ok_0).0;
                lemma_cells_typed(table_stats(init, table, fields), fields, more, fields.len());
            }
        }
    }
}

proof fn lemma_cells_typed(
    s: StatsModel,
    fields: Seq<FieldModel>,
    cells: Seq<ScalarModel>,
    n: nat,
)
    requires
        bounds_typed(s),
        n <= cells.len(),
        forall|i: int| 0 <= i < cells.len() ==> well_typed(#[trigger] cells[i]),
    ensures
        bounds_typed(with_cells(s, fields, cells, n)),
    decreases n,
{
    if n > 0 {
        lemma_cells_typed(s, fields, cells, (n - 1) as nat);
    }
}

/// Column `c` of row `i` holds this value, under this name.
pub open spec fn is_value_of(
    rs: Seq<RowModel>,
    table: Seq<char>,
    fields: Seq<FieldModel>,
    name: Seq<char>,
    v: ScalarModel,
) -> bool {
    exists|i: int, cells: Seq<ScalarModel>, c: int|
        0 <= i < rs.len() && #[trigger] is_table_row(rs[i], table, fields, cells) && 0 <= c
            < fields.len() && fields[c].name == name && #[trigger] cells[c] == v && v.payload is Some
}

/// The bounds that statistics give are values that rows of the table hold under the
/// column: they are no wider than need be.
pub proof fn law_bounds_are_values(
    rs: Seq<RowModel>,
    table: Seq<char>,
    fields: Seq<FieldModel>,
    name: Seq<char>,
)
    ensures
        ({
            let s = table_stats(rs, table, fields);
            &&& s.min.contains_key(name) ==> is_value_of(rs, table, fields, name, s.min[name])
            &&& s.max.contains_key(name) ==> is_value_of(rs, table, fields, name, s.max[name])
        }),
    decreases rs.len(),
{
    if rs.len() > 0 {
        let init = rs.drop_last();
        let r = rs.last();
        let s = table_stats(init, table, fields);
        law_bounds_are_values(init, table, fields, name);
        if s.min.contains_key(name) {
            lemma_value_stays(rs, table, fields, name, s.min[name]);
        }
        if s.max.contains_key(name) {
            lemma_value_stays(rs, table, fields, name, s.max[name]);
        }
        if table_of_key(r.key) == Some(table) && r.version.value is Some {
            let b = r.version.value->0;
            law_decoded_values_are_typed(b, types_of(fields));
            if cells_of(b, types_of(fields)) is Ok {
                let cells = (cells_of(b, types_of(fields))->Ok_0).0;
                assert(is_table_row(rs[rs.len() - 1], table, fields, cells));
                lemma_bounds_from_cells(s, rs, table, fields, cells, fields.len(), name);
            }
        }
    }
}

proof fn lemma_value_stays(
    rs: Seq<RowModel>,
    table: Seq<char>,
    fields: Seq<FieldModel>,
    name: Seq<char>,
    v: ScalarModel,
)
    requires
        rs.len() > 0,
        is_value_of(rs.drop_last(), table, fields, name, v),
    ensures
        is_value_of(rs, table, fields, name, v),
{
    let init = rs.drop_last();
    let (i, cells, c) = choose|i: int, cells: Seq<ScalarModel>, c: int|
        0 <= i < init.len() && #[trigger] is_table_row(init[i], table, fields, cells) && 0 <= c
            < fields.len() && fields[c].name == name && #[trigger] cells[c] == v && v.payload is Some;
    assert(is_table_row(rs[i], table, fields, cells) && cells[c] == v);
}

proof fn lemma_bounds_from_cells(
    s: StatsModel,
    rs: Seq<RowModel>,
    table: Seq<char>,
    fields: Seq<FieldModel>,
    cells: Seq<ScalarModel>,
    n: nat,
    name: Seq<char>,
)
    requires
        rs.len() > 0,
        is_table_row(rs[rs.len() - 1], table, fields, cells),
        n <= fields.len(),
        s.min.contains_key(name) ==> is_value_of(rs, table, fields, name, s.min[name]),
        s.max.contains_key(name) ==> is_value_of(rs, table, fields, name, s.max[name]),
    ensures
        ({
            let t = with_cells(s, fields, cells, n);
            &&& t.min.contains_key(name) ==> is_value_of(rs, table, fields, name, t.min[name])
            &&& t.max.contains_key(name) ==> is_value_of(rs, table, fields, name, t.max[name])
        }),
    decreases n,
{
    if n > 0 {
        lemma_bounds_from_cells(s, rs, table, fields, cells, (n - 1) as nat, name);
        let c = n - 1;
        if fields[c].name == name && cells[c].payload is Some {
            assert(is_table_row(rs[rs.len() - 1], table, fields, cells) && cells[c] == cells[c]);
            assert(is_value_of(rs, table, fields, name, cells[c]));
        }
    }
}

// ── Nulls ─────────────────────────────────────────────────────────────────

/// The nulls among the first `n` values of a row, under columns of this name.
pub open spec fn nulls_in_row(
    fields: Seq<FieldModel>,
    cells: Seq<ScalarModel>,
    name: Seq<char>,
    n: nat,
) -> nat
    decreases n,
{
    if n == 0 {
        0
    } else {
        nulls_in_row(fields, cells, name, (n - 1) as nat) + if fields[n - 1].name == name
            && cells[n - 1].payload is None {
            1nat
        } else {
            0nat
        }
    }
}

/// The nulls that the live rows of a table hold under columns of this name.
pub open spec fn nulls_in(
    rs: Seq<RowModel>,
    table: Seq<char>,
    fields: Seq<FieldModel>,
    name: Seq<char>,
) -> nat
    decreases rs.len(),
{
    if rs.len() == 0 {
        0
    } else {
        let r = rs.last();
        nulls_in(rs.drop_last(), table, fields, name) + if table_of_key(r.key) == Some(table) {
            match r.version.value {
                None => 0nat,
                Some(b) => match cells_of(b, types_of(fields)) {
                    Ok(p) => nulls_in_row(fields, p.0, name, fields.len()),
                    Err(_) => 0nat,
                },
            }
        } else {
            0nat
        }
    }
}

spec fn counted(s: StatsModel, name: Seq<char>) -> int {
    if s.nulls.contains_key(name) {
        s.nulls[name] as int
    } else {
        0
    }
}

proof fn lemma_row_nulls(
    s: StatsModel,
    fields: Seq<FieldModel>,
    cells: Seq<ScalarModel>,
    name: Seq<char>,
    n: nat,
    base: nat,
)
    requires
        counted(s, name) == (if base <= usize::MAX {
            base as int
        } else {
            usize::MAX as int
        }),
    ensures
        ({
            let t = base + nulls_in_row(fields, cells, name, n);
            counted(with_cells(s, fields, cells, n), name) == (if t <= usize::MAX {
                t as int
            } else {
                usize::MAX as int
            })
        }),
    decreases n,
{
    if n > 0 {
        lemma_row_nulls(s, fields, cells, name, (n - 1) as nat, base);
    }
}

/// The count of nulls is the number of nulls that the live rows of the table hold
/// under the column.
pub proof fn law_nulls_are_counted(
    rs: Seq<RowModel>,
    table: Seq<char>,
    fields: Seq<FieldModel>,
    name: Seq<char>,
)
    ensures
        ({
            let s = table_stats(rs, table, fields);
            let n = nulls_in(rs, table, fields, name);
            (if s.nulls.contains_key(name) {
                s.nulls[name] as int
            } else {
                0
            }) == (if n <= usize::MAX {
                n as int
            } else {
                usize::MAX as int
            })
        }),
    decreases rs.len(),
{
    if rs.len() > 0 {
        let init = rs.drop_last();
        let r = rs.last();
        law_nulls_are_counted(init, table, fields, name);
        if table_of_key(r.key) == Some(table) && r.version.value is Some {
            let b = r.version.value->0;
            if cells_of(b, types_of(fields)) is Ok {
                let p = cells_of(b, types_of(fields))->Ok_0;
                lemma_row_nulls(
                    table_stats(init, table, fields),
                    fields,
                    p.0,
                    name,
                    fields.len(),
                    nulls_in(init, table, fields, name),
                );
            }
        }
    }
}

// ── Skipping ──────────────────────────────────────────────────────────────

/// Predicates keep the names of their columns: each one on a column of the schema
/// is paired with its name, in order, and no other is.
pub proof fn law_predicates_are_named(
    ps: Seq<PredicateModel>,
    qs: Seq<PredicateModel>,
    one: PredicateModel,
    fields: Seq<FieldModel>,
)
    ensures
        with_names(ps + qs, fields) == with_names(ps, fields) + with_names(qs, fields),
        with_names(seq![one], fields) == if column_of(one) < fields.len() {
            seq![(fields[column_of(one) as int].name, one)]
        } else {
            Seq::empty()
        },
    decreases qs.len(),
{
    if qs.len() == 0 {
        assert(ps + qs =~= ps);
        assert(with_names(ps, fields) + with_names(qs, fields) =~= with_names(ps, fields));
    } else {
        assert((ps + qs).drop_last() =~= ps + qs.drop_last());
        law_predicates_are_named(ps, qs.drop_last(), one, fields);
        assert(with_names(ps + qs, fields) =~= with_names(ps, fields) + with_names(qs, fields));
    }
    assert(seq![one].drop_last() =~= Seq::<PredicateModel>::empty());
    assert(with_names(Seq::<PredicateModel>::empty(), fields).len() == 0);
    assert(with_names(seq![one], fields) =~= if column_of(one) < fields.len() {
        seq![(fields[column_of(one) as int].name, one)]
    } else {
        Seq::empty()
    });
}

proof fn lemma_named_from(ps: Seq<PredicateModel>, fields: Seq<FieldModel>, k: int) -> (j: int)
    requires
        0 <= k < with_names(ps, fields).len(),
    ensures
        0 <= j < ps.len(),
        column_of(ps[j]) < fields.len(),
        with_names(ps, fields)[k] == (fields[column_of(ps[j]) as int].name, ps[j]),
    decreases ps.len(),
{
    let init = ps.drop_last();
    if k < with_names(init, fields).len() {
        lemma_named_from(init, fields, k)
    } else {
        ps.len() - 1
    }
}

/// Skipping loses no row: where the statistics of a table in a file rule the file
/// out, no live row of the table in it satisfies the predicates.
pub proof fn law_skipped_files_hold_no_match(
    rs: Seq<RowModel>,
    table: Seq<char>,
    fields: Seq<FieldModel>,
    ps: Seq<PredicateModel>,
    i: int,
    cells: Seq<ScalarModel>,
)
    requires
        skips(table_stats(rs, table, fields), with_names(ps, fields)),
        forall|j: int|
            0 <= j < ps.len() && (#[trigger] ps[j]) is Eq ==> well_typed(ps[j]->Eq_1),
        0 <= i < rs.len(),
        is_table_row(rs[i], table, fields, cells),
    ensures
        !row_satisfies(cells, ps),
{
    let s = table_stats(rs, table, fields);
    let named = with_names(ps, fields);
    let k = choose|k: int|
        0 <= k < named.len() && excludes(s, (#[trigger] named[k]).0, named[k].1);
    let j = lemma_named_from(ps, fields, k);
    let c = column_of(ps[j]) as int;
    law_decoded_values_are_typed(rs[i].version.value->0, types_of(fields));
    if row_satisfies(cells, ps) {
        assert(satisfies(cells[c], ps[j]));
        let v = ps[j]->Eq_1;
        law_statistics_enclose_every_value(rs, table, fields, i, cells, c);
        law_skip_is_sound(s, fields[c].name, ps[j]->Eq_0, v, cells[c]);
    }
}

/// A file is skipped exactly where one of the predicates asks for a value that is
/// less than the smallest or greater than the largest under its column.
pub proof fn law_files_are_skipped_by_their_bounds(
    stats: &TableColumnStats,
    named: &[(String, ColumnPredicate)],
    r: bool,
)
    requires
        call_ensures(skip_by_stats, (stats, named), r),
    ensures
        r <==> exists|j: int|
            0 <= j < named@.len() && (#[trigger] named@[j]).1 is Eq && {
                let name = named@[j].0@;
                let v = named@[j].1->Eq_value@;
                ||| stats@.min.contains_key(name) && scalar_lt(v, stats@.min[name])
                ||| stats@.max.contains_key(name) && scalar_lt(stats@.max[name], v)
            },
{
    let ps = named_models(named@);
    assert forall|j: int| 0 <= j < named@.len() implies #[trigger] ps[j] == (
        named@[j].0@,
        named@[j].1@,
    ) by {
    }
    if r {
        let j = choose|j: int|
            0 <= j < ps.len() && excludes(stats@, (#[trigger] ps[j]).0, ps[j].1);
        assert(named@[j].1 is Eq);
    }
    if exists|j: int|
        0 <= j < named@.len() && (#[trigger] named@[j]).1 is Eq && {
            let name = named@[j].0@;
            let v = named@[j].1->Eq_value@;
            ||| stats@.min.contains_key(name) && scalar_lt(v, stats@.min[name])
            ||| stats@.max.contains_key(name) && scalar_lt(stats@.max[name], v)
        } {
        let j = choose|j: int|
            0 <= j < named@.len() && (#[trigger] named@[j]).1 is Eq && {
                let name = named@[j].0@;
                let v = named@[j].1->Eq_value@;
                ||| stats@.min.contains_key(name) && scalar_lt(v, stats@.min[name])
                ||| stats@.max.contains_key(name) && scalar_lt(stats@.max[name], v)
            };
        assert(excludes(stats@, ps[j].0, ps[j].1));
    }
}

} // verus!
