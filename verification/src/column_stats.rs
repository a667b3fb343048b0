//! Per-table column statistics of an SST.
//!
//! Computed by decoding row payloads when a file is written, and used to skip
//! files that cannot hold a wanted value.

use crate::buf::{bytes_slice, lemma_lex_irreflexive, lemma_lex_transitive, KeyOrder};
use crate::column_predicate::{named_models, ColumnPredicate, PredicateModel};
use crate::keys::{
    joined, key_prefix, key_table_prefix, law_key_names_its_table, table_key, table_prefix_of,
    zero_free,
};
use crate::memtable::{row_models, RowModel, VersionedRow};
use crate::name_map::NameMap;
use crate::row_codec::{cells_of, decode_row_values, lemma_cells_len};
use crate::scalar::{
    comparable, lemma_one_key_shape, scalar_eq, scalar_lt, scalar_models, sort_key, well_typed,
    ScalarModel, ScalarValue,
};
use crate::schema::{types_of, FieldModel, Schema};
use vstd::prelude::*;
use vstd::slice::slice_subrange;
use vstd::utf8::{
    decode_utf8, encode_utf8, encode_utf8_decode_utf8, encode_utf8_valid_utf8, valid_utf8,
};

verus! {

// ── Table names ───────────────────────────────────────────────────────────

/// What `String::from_utf8_lossy` makes of bytes that are not UTF-8.
pub uninterp spec fn lossy_text(bytes: Seq<u8>) -> Seq<char>;

/// The text of bytes: their characters, or what a lossy decoding makes of them
/// where they are not UTF-8.
pub open spec fn shown_text(bytes: Seq<u8>) -> Seq<char> {
    if valid_utf8(bytes) {
        decode_utf8(bytes)
    } else {
        lossy_text(bytes)
    }
}

/// `String::from_utf8_lossy` gives the characters of valid UTF-8. Elsewhere it
/// puts replacement characters for the parts that are not; of those texts the
/// contract says only that they depend on the bytes alone.
#[verifier::external_body]
fn decode_lossy(bytes: &[u8]) -> (r: String)
    ensures
        valid_utf8(bytes@) ==> r@ == decode_utf8(bytes@),
        !valid_utf8(bytes@) ==> r@ == lossy_text(bytes@),
{
    String::from_utf8_lossy(bytes).into_owned()
}

/// The table that a key names: what stands before its first zero byte. A key
/// without one names no table.
pub open spec fn table_of_key(key: Seq<u8>) -> Option<Seq<char>> {
    let p = key_prefix(key);
    if p.len() > 0 && p.last() == 0 {
        Some(shown_text(p.drop_last()))
    } else {
        None
    }
}

/// What an optional text says.
pub open spec fn opt_name(s: Option<String>) -> Option<Seq<char>> {
    match s {
        Some(s) => Some(s@),
        None => None,
    }
}

/// Returns the table that a key names.
pub fn key_table(key: &[u8]) -> (r: Option<String>)
    ensures
        opt_name(r) == table_of_key(key@),
{
    let prefix = key_table_prefix(key);
    let n: usize = prefix.len();
    if n > 0 && prefix[n - 1] == 0 {
        let name = slice_subrange(prefix, 0, n - 1);
        assert(name@ =~= prefix@.drop_last());
        Some(decode_lossy(name))
    } else {
        None
    }
}

/// A key of a table whose name holds no zero character names that table.
pub proof fn law_key_names_table(table: Seq<char>, parts: Seq<Seq<u8>>)
    requires
        zero_free(encode_utf8(table)),
    ensures
        table_of_key(table_key(table, parts)) == Some(table),
{
    law_key_names_its_table(table, joined(parts));
    encode_utf8_valid_utf8(table);
    encode_utf8_decode_utf8(table);
    assert(table_prefix_of(table).drop_last() =~= encode_utf8(table));
}

/// The table under which a file's schema is looked up: the one that its first
/// key names, or the whole key where it names none.
pub open spec fn schema_table(key: Seq<u8>) -> Seq<char> {
    match table_of_key(key) {
        Some(t) => t,
        None => shown_text(key_prefix(key)),
    }
}

/// Returns the table under which the schema for a file that begins with `key`
/// is looked up.
pub fn schema_table_of(key: &[u8]) -> (r: String)
    ensures
        r@ == schema_table(key@),
{
    match key_table(key) {
        Some(t) => t,
        None => decode_lossy(key_table_prefix(key)),
    }
}

// ── Statistics ────────────────────────────────────────────────────────────

/// Column statistics of one table in one file.
#[derive(Debug)]
pub struct TableColumnStats {
    /// Smallest value of each column.
    pub min: NameMap<ScalarValue>,
    /// Largest value of each column.
    pub max: NameMap<ScalarValue>,
    /// Number of nulls of each column.
    pub null_count: NameMap<usize>,
}

/// What column statistics say.
#[verifier::ext_equal]
pub struct StatsModel {
    /// Smallest value of each column.
    pub min: Map<Seq<char>, ScalarModel>,
    /// Largest value of each column.
    pub max: Map<Seq<char>, ScalarModel>,
    /// Number of nulls of each column.
    pub nulls: Map<Seq<char>, usize>,
}

/// What a map of scalars says.
pub open spec fn scalar_map(m: Map<Seq<char>, ScalarValue>) -> Map<Seq<char>, ScalarModel> {
    m.map_values(|v: ScalarValue| v@)
}

impl View for TableColumnStats {
    type V = StatsModel;

    open spec fn view(&self) -> StatsModel {
        StatsModel {
            min: scalar_map(self.min@),
            max: scalar_map(self.max@),
            nulls: self.null_count@,
        }
    }
}

impl TableColumnStats {
    /// The maps are in order.
    pub open spec fn wf(&self) -> bool {
        self.min.wf() && self.max.wf() && self.null_count.wf()
    }
}

/// Statistics of nothing.
pub open spec fn no_stats() -> StatsModel {
    StatsModel { min: Map::empty(), max: Map::empty(), nulls: Map::empty() }
}

/// The count after one more, which stays at the largest count.
pub open spec fn one_more(m: Map<Seq<char>, usize>, name: Seq<char>) -> usize {
    if !m.contains_key(name) {
        1
    } else if m[name] == usize::MAX {
        usize::MAX
    } else {
        (m[name] + 1) as usize
    }
}

/// The statistics after one more value of the column `name`: nulls are
/// counted, other values widen the bounds.
pub open spec fn with_cell(s: StatsModel, name: Seq<char>, v: ScalarModel) -> StatsModel {
    if v.payload is None {
        StatsModel { nulls: s.nulls.insert(name, one_more(s.nulls, name)), ..s }
    } else {
        StatsModel {
            min: if !s.min.contains_key(name) || scalar_lt(v, s.min[name]) {
                s.min.insert(name, v)
            } else {
                s.min
            },
            max: if !s.max.contains_key(name) || scalar_lt(s.max[name], v) {
                s.max.insert(name, v)
            } else {
                s.max
            },
            nulls: s.nulls,
        }
    }
}

/// The statistics after the first `n` values of a row.
pub open spec fn with_cells(
    s: StatsModel,
    fields: Seq<FieldModel>,
    cells: Seq<ScalarModel>,
    n: nat,
) -> StatsModel
    decreases n,
{
    if n == 0 {
        s
    } else {
        with_cell(
            with_cells(s, fields, cells, (n - 1) as nat),
            fields[n - 1].name,
            cells[n - 1],
        )
    }
}

/// The statistics after one more row; tombstones and rows that cannot be
/// decoded do not count.
pub open spec fn with_row(s: StatsModel, fields: Seq<FieldModel>, r: RowModel) -> StatsModel {
    match r.version.value {
        None => s,
        Some(b) => match cells_of(b, types_of(fields)) {
            Ok((cells, _)) => with_cells(s, fields, cells, fields.len()),
            Err(_) => s,
        },
    }
}

/// The statistics of the rows of one table.
pub open spec fn table_stats(
    rs: Seq<RowModel>,
    table: Seq<char>,
    fields: Seq<FieldModel>,
) -> StatsModel
    decreases rs.len(),
{
    if rs.len() == 0 {
        no_stats()
    } else {
        let s = table_stats(rs.drop_last(), table, fields);
        if table_of_key(rs.last().key) == Some(table) {
            with_row(s, fields, rs.last())
        } else {
            s
        }
    }
}

/// Some row belongs to the table.
pub open spec fn has_table(rs: Seq<RowModel>, table: Seq<char>) -> bool {
    exists|i: int| 0 <= i < rs.len() && table_of_key((#[trigger] rs[i]).key) == Some(table)
}

/// What a map of schemas says.
pub open spec fn schema_map(m: Map<Seq<char>, Schema>) -> Map<Seq<char>, Seq<FieldModel>> {
    m.map_values(|s: Schema| s@)
}

/// What a map of statistics says.
pub open spec fn stats_map(m: Map<Seq<char>, TableColumnStats>) -> Map<Seq<char>, StatsModel> {
    m.map_values(|s: TableColumnStats| s@)
}

/// The map holds the statistics of every table that has a schema and rows.
pub open spec fn is_file_stats(
    m: Map<Seq<char>, StatsModel>,
    rs: Seq<RowModel>,
    schemas: Map<Seq<char>, Seq<FieldModel>>,
) -> bool {
    forall|t: Seq<char>|
        #![trigger m.contains_key(t)]
        (m.contains_key(t) <==> schemas.contains_key(t) && has_table(rs, t)) && (m.contains_key(t)
            ==> m[t] == table_stats(rs, t, schemas[t]))
}

/// Every statistic in the map is in order.
pub open spec fn stats_wf(m: NameMap<TableColumnStats>) -> bool {
    m.wf() && forall|t: Seq<char>| #[trigger] m@.contains_key(t) ==> m@[t].wf()
}

fn add_cell(stats: &mut TableColumnStats, name: &str, v: &ScalarValue)
    requires
        old(stats).wf(),
    ensures
        final(stats).wf(),
        final(stats)@ == with_cell(old(stats)@, name@, v@),
{
    let ghost before = stats@;
    if v.is_null() {
        let n: usize = match stats.null_count.get(name) {
            Some(n) => n.saturating_add(1),
            None => 1,
        };
        stats.null_count.insert(name, n);
        assert(stats@ =~= with_cell(before, name@, v@));
        return;
    }
    let smaller = match stats.min.get(name) {
        None => true,
        Some(prev) => match v.order(prev) {
            Some(KeyOrder::Less) => true,
            _ => false,
        },
    };
    let larger = match stats.max.get(name) {
        None => true,
        Some(prev) => match prev.order(v) {
            Some(KeyOrder::Less) => true,
            _ => false,
        },
    };
    if smaller {
        stats.min.insert(name, v.clone());
    }
    if larger {
        stats.max.insert(name, v.clone());
    }
    assert(stats@.min =~= with_cell(before, name@, v@).min);
    assert(stats@.max =~= with_cell(before, name@, v@).max);
}

fn add_row(stats: &mut TableColumnStats, schema: &Schema, row: &VersionedRow)
    requires
        old(stats).wf(),
    ensures
        final(stats).wf(),
        final(stats)@ == with_row(old(stats)@, schema@, row@),
{
    let payload = match &row.version.value {
        Some(p) => p,
        None => {
            return;
        },
    };
    let values = match decode_row_values(bytes_slice(payload), schema) {
        Ok(v) => v,
        Err(_) => {
            return;
        },
    };
    let ghost cells = scalar_models(values@);
    let ghost before = stats@;
    proof {
        lemma_cells_len(row@.version.value->0, types_of(schema@));
    }
    let mut c: usize = 0;
    while c < schema.fields.len()
        invariant
            stats.wf(),
            cells == scalar_models(values@),
            values@.len() == schema@.len(),
            c <= schema.fields@.len(),
            stats@ == with_cells(before, schema@, cells, c as nat),
        decreases schema.fields@.len() - c,
    {
        assert(schema@[c as int].name == schema.fields@[c as int].name@);
        assert(cells[c as int] == values@[c as int]@);
        add_cell(stats, schema.fields[c].name.as_str(), &values[c]);
        c += 1;
    }
}

/// Computes the statistics of every table that has rows in a file and a
/// schema.
pub fn compute_column_stats(rows: &[VersionedRow], schemas: &NameMap<Schema>) -> (r: NameMap<
    TableColumnStats,
>)
    requires
        schemas.wf(),
    ensures
        stats_wf(r),
        is_file_stats(stats_map(r@), row_models(rows@), schema_map(schemas@)),
{
    let ghost rs = row_models(rows@);
    let mut tables: Vec<Option<String>> = Vec::new();
    let mut i: usize = 0;
    while i < rows.len()
        invariant
            rs == row_models(rows@),
            i <= rows@.len(),
            tables@.len() == i,
            forall|j: int| 0 <= j < i ==> opt_name(#[trigger] tables@[j]) == table_of_key(rs[j].key),
        decreases rows@.len() - i,
    {
        assert(rs[i as int] == rows@[i as int]@);
        tables.push(key_table(bytes_slice(&rows[i].key)));
        i += 1;
    }
    let mut out: NameMap<TableColumnStats> = NameMap::new();
    let mut k: usize = 0;
    let ghost names = schemas.name_seq();
    while k < schemas.len()
        invariant
            schemas.wf(),
            names == schemas.name_seq(),
            rs == row_models(rows@),
            tables@.len() == rows@.len(),
            forall|j: int|
                0 <= j < tables@.len() ==> opt_name(#[trigger] tables@[j]) == table_of_key(
                    rs[j].key,
                ),
            k <= names.len(),
            stats_wf(out),
            forall|t: Seq<char>| #[trigger]
                out@.contains_key(t) <==> names.take(k as int).contains(t) && has_table(rs, t),
            forall|t: Seq<char>| #[trigger]
                out@.contains_key(t) ==> out@[t]@ == table_stats(rs, t, schemas@[t]@),
        decreases names.len() - k,
    {
        let name = schemas.name_at(k);
        let schema = schemas.value_at(k);
        let ghost before = out@;
        proof {
            schemas.lemma_entry(k as int);
        }
        let mut stats = TableColumnStats {
            min: NameMap::new(),
            max: NameMap::new(),
            null_count: NameMap::new(),
        };
        assert(stats@ =~= no_stats());
        let mut found = false;
        let mut j: usize = 0;
        while j < rows.len()
            invariant
                rs == row_models(rows@),
                tables@.len() == rows@.len(),
                forall|q: int|
                    0 <= q < tables@.len() ==> opt_name(#[trigger] tables@[q]) == table_of_key(
                        rs[q].key,
                    ),
                j <= rows@.len(),
                stats.wf(),
                found == has_table(rs.take(j as int), name@),
                stats@ == table_stats(rs.take(j as int), name@, schema@),
            decreases rows@.len() - j,
        {
            let ghost now = rs.take(j + 1);
            proof {
                assert(now.drop_last() =~= rs.take(j as int));
                assert(now.last() == rows@[j as int]@);
                assert(opt_name(tables@[j as int]) == table_of_key(rs[j as int].key));
            }
            let ghost had = found;
            let mine = match &tables[j] {
                Some(t) => *t == *name,
                None => false,
            };
            assert(mine == (table_of_key(rs[j as int].key) == Some(name@)));
            if mine {
                add_row(&mut stats, schema, &rows[j]);
                found = true;
                assert(now[j as int] == rs[j as int]);
            }
            proof {
                if had {
                    let q = choose|q: int|
                        0 <= q < rs.take(j as int).len() && table_of_key(
                            (#[trigger] rs.take(j as int)[q]).key,
                        ) == Some(name@);
                    assert(now[q] == rs.take(j as int)[q]);
                }
                if has_table(now, name@) && !mine {
                    let q = choose|q: int|
                        0 <= q < now.len() && table_of_key((#[trigger] now[q]).key) == Some(name@);
                    assert(rs.take(j as int)[q] == now[q]);
                }
            }
            j += 1;
        }
        assert(rs.take(j as int) =~= rs);
        if found {
            out.insert(name.as_str(), stats);
        }
        proof {
            let next = names.take(k + 1);
            assert(next[k as int] == name@);
            assert forall|t: Seq<char>| #[trigger] out@.contains_key(t) <==> next.contains(t)
                && has_table(rs, t) by {
                if t != name@ {
                    assert(before.contains_key(t) <==> names.take(k as int).contains(t) && has_table(
                        rs,
                        t,
                    ));
                    if next.contains(t) {
                        let q = choose|q: int| 0 <= q < next.len() && next[q] == t;
                        assert(names.take(k as int)[q] == t);
                    }
                    if names.take(k as int).contains(t) {
                        let q = choose|q: int|
                            0 <= q < names.take(k as int).len() && names.take(k as int)[q] == t;
                        assert(next[q] == t);
                    }
                } else if !found && before.contains_key(t) {
                    assert(has_table(rs, t));
                }
            }
        }
        k += 1;
    }
    proof {
        assert(names.take(k as int) =~= names);
        let m = stats_map(out@);
        assert forall|t: Seq<char>|
            #![trigger m.contains_key(t)]
            (m.contains_key(t) <==> schema_map(schemas@).contains_key(t) && has_table(rs, t)) && (
            m.contains_key(t) ==> m[t] == table_stats(rs, t, schema_map(schemas@)[t])) by {
            assert(out@.contains_key(t) <==> names.contains(t) && has_table(rs, t));
        }
    }
    out
}

// ── Skipping files ────────────────────────────────────────────────────────

/// The statistics show that no row has the wanted value: it lies below the
/// smallest or above the largest.
pub open spec fn excludes(s: StatsModel, name: Seq<char>, p: PredicateModel) -> bool {
    p matches PredicateModel::Eq(_, v) && ((s.min.contains_key(name) && scalar_lt(v, s.min[name]))
        || (s.max.contains_key(name) && scalar_lt(s.max[name], v)))
}

/// Some predicate excludes every row.
pub open spec fn skips(s: StatsModel, ps: Seq<(Seq<char>, PredicateModel)>) -> bool {
    exists|i: int|
        0 <= i < ps.len() && excludes(s, (#[trigger] ps[i]).0, ps[i].1)
}

/// Returns whether the statistics of a table in a file show that no row
/// satisfies the predicates.
pub fn skip_by_stats(stats: &TableColumnStats, named_preds: &[(String, ColumnPredicate)]) -> (r: bool)
    requires
        stats.wf(),
    ensures
        r == skips(stats@, named_models(named_preds@)),
{
    let ghost ps = named_models(named_preds@);
    let mut i: usize = 0;
    while i < named_preds.len()
        invariant
            stats.wf(),
            ps == named_models(named_preds@),
            i <= named_preds@.len(),
            forall|j: int|
                0 <= j < i ==> !excludes(stats@, (#[trigger] ps[j]).0, ps[j].1),
        decreases named_preds@.len() - i,
    {
        let field = named_preds[i].0.as_str();
        assert(ps[i as int].0 == field@ && ps[i as int].1 == named_preds@[i as int].1@);
        if let ColumnPredicate::Eq { value, .. } = &named_preds[i].1 {
            let below = match stats.min.get(field) {
                Some(min) => match value.order(min) {
                    Some(KeyOrder::Less) => true,
                    _ => false,
                },
                None => false,
            };
            let above = match stats.max.get(field) {
                Some(max) => match max.order(value) {
                    Some(KeyOrder::Less) => true,
                    _ => false,
                },
                None => false,
            };
            if below || above {
                assert(excludes(stats@, ps[i as int].0, ps[i as int].1));
                return true;
            }
        }
        i += 1;
    }
    false
}

/// Comparison is transitive for values.
pub proof fn lemma_lt_transitive(a: ScalarModel, b: ScalarModel, c: ScalarModel)
    requires
        well_typed(a),
        well_typed(b),
        well_typed(c),
        a.payload is Some,
        scalar_lt(a, b),
        scalar_lt(b, c),
    ensures
        scalar_lt(a, c),
{
    lemma_one_key_shape(a, b);
    lemma_one_key_shape(b, c);
    let x = sort_key(a.ty, a.payload->0);
    let y = sort_key(b.ty, b.payload->0);
    let z = sort_key(c.ty, c.payload->0);
    if x is Raw {
        lemma_lex_transitive(x->Raw_0, y->Raw_0, z->Raw_0);
    }
}

/// The bounds enclose the values that went in.
pub open spec fn encloses(s: StatsModel, name: Seq<char>, v: ScalarModel) -> bool {
    &&& s.min.contains_key(name)
    &&& s.max.contains_key(name)
    &&& !scalar_lt(v, s.min[name])
    &&& !scalar_lt(s.max[name], v)
}

/// Every bound is a value.
pub open spec fn bounds_typed(s: StatsModel) -> bool {
    &&& forall|n: Seq<char>| #[trigger]
        s.min.contains_key(n) ==> well_typed(s.min[n]) && s.min[n].payload is Some
    &&& forall|n: Seq<char>| #[trigger]
        s.max.contains_key(n) ==> well_typed(s.max[n]) && s.max[n].payload is Some
}

/// No value is less than itself.
pub proof fn lemma_lt_irreflexive(v: ScalarModel)
    requires
        well_typed(v),
        v.payload is Some,
    ensures
        !scalar_lt(v, v),
{
    if comparable(v, v) {
        lemma_one_key_shape(v, v);
        let k = sort_key(v.ty, v.payload->0);
        if k is Raw {
            lemma_lex_irreflexive(k->Raw_0);
        }
    }
}

/// A value that went into the statistics stays within their bounds, whatever
/// goes in afterwards; so do the values that were within before.
pub proof fn law_bounds_hold(
    s: StatsModel,
    name: Seq<char>,
    v: ScalarModel,
    other: Seq<char>,
    w: ScalarModel,
)
    requires
        bounds_typed(s),
        well_typed(v),
        well_typed(w),
        w.payload is Some,
        encloses(s, other, w),
    ensures
        bounds_typed(with_cell(s, name, v)),
        encloses(with_cell(s, name, v), other, w),
        v.payload is Some ==> encloses(with_cell(s, name, v), name, v),
{
    let t = with_cell(s, name, v);
    if v.payload is Some {
        lemma_lt_irreflexive(v);
        if name == other {
            if scalar_lt(v, s.min[name]) && scalar_lt(w, v) {
                lemma_lt_transitive(w, v, s.min[name]);
            }
            if scalar_lt(s.max[name], v) && scalar_lt(v, w) {
                lemma_lt_transitive(s.max[name], v, w);
            }
        }
    }
}

/// Skipping is sound: a value within the bounds never equals a literal that
/// the bounds exclude.
pub proof fn law_skip_is_sound(s: StatsModel, name: Seq<char>, col: usize, v: ScalarModel, w: ScalarModel)
    requires
        bounds_typed(s),
        well_typed(v),
        well_typed(w),
        w.payload is Some,
        encloses(s, name, w),
        excludes(s, name, PredicateModel::Eq(col, v)),
    ensures
        !scalar_eq(w, v),
{
    if scalar_eq(w, v) {
        lemma_one_key_shape(w, v);
        if scalar_lt(v, s.min[name]) {
            lemma_one_key_shape(v, s.min[name]);
        } else {
            lemma_one_key_shape(s.max[name], v);
        }
    }
}

} // verus!
