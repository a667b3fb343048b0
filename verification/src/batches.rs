//! Turning rows and columns into column batches.

use crate::buf::{bytes_slice, bytes_view, lemma_sorted_keys, sorted_keys, ByteMap};
use crate::error::{EngineError, Result};
use crate::merge::version_map;
use crate::row_codec::{
    cells_of, decode_row_columns, is_fault, lemma_cells_len, pick_or_null, Fault,
};
use crate::scalar::{scalar_models, ScalarModel, ScalarValue, TypeModel};
use crate::schema::{column_models, types_of, ColumnBatch, Field, FieldModel, Schema};
use crate::text::{decimal, push_decimal};
use crate::version::{VersionModel, VersionedValue};
use crate::vortex_sst::{business_column_name, column_name};
use vstd::prelude::*;
use vstd::string::StringExecFns;

verus! {

// ── Projections ───────────────────────────────────────────────────────────

/// The largest index of a projection.
pub open spec fn max_index(p: Seq<usize>) -> int
    decreases p.len(),
{
    if p.len() == 0 {
        -1
    } else {
        let m = max_index(p.drop_last());
        if p.last() > m {
            p.last() as int
        } else {
            m
        }
    }
}

/// Every index of the projection is a column of a schema of `n` columns.
pub open spec fn valid_projection(p: Seq<usize>, n: nat) -> bool {
    max_index(p) < n
}

/// The message for a projection that reaches beyond the schema.
pub open spec fn projection_text(max: nat, n: nat) -> Seq<char> {
    "projection index "@ + decimal(max) + " out of range (schema has "@ + decimal(n) + " columns)"@
}

proof fn lemma_max_index(p: Seq<usize>)
    ensures
        forall|i: int| 0 <= i < p.len() ==> p[i] <= max_index(p),
        max_index(p) >= -1,
        p.len() > 0 ==> max_index(p) >= 0,
    decreases p.len(),
{
    if p.len() > 0 {
        let init = p.drop_last();
        lemma_max_index(init);
        assert forall|i: int| 0 <= i < p.len() implies p[i] <= max_index(p) by {
            if i < init.len() {
                assert(init[i] == p[i]);
            }
        }
    }
}

/// Validates that every projection index is a column of the schema.
pub fn validate_projection(schema: &Schema, projection: &[usize]) -> (r: Result<()>)
    ensures
        r is Ok <==> valid_projection(projection@, schema@.len()),
        r matches Err(e) ==> e.is_message(
            projection_text(max_index(projection@) as nat, schema@.len()),
        ),
{
    let mut max: Option<usize> = None;
    let mut i: usize = 0;
    while i < projection.len()
        invariant
            i <= projection@.len(),
            match max {
                Some(m) => m == max_index(projection@.take(i as int)),
                None => i == 0,
            },
        decreases projection@.len() - i,
    {
        proof {
            assert(projection@.take(i + 1).drop_last() =~= projection@.take(i as int));
            lemma_max_index(projection@.take(i as int));
        }
        let p: usize = projection[i];
        max = match max {
            Some(m) => if p > m {
                Some(p)
            } else {
                Some(m)
            },
            None => Some(p),
        };
        i += 1;
    }
    assert(projection@.take(i as int) =~= projection@);
    match max {
        Some(m) => {
            if m >= schema.len() {
                let mut text: String = "projection index ".to_owned();
                push_decimal(&mut text, m as u64);
                text.append(" out of range (schema has ");
                push_decimal(&mut text, schema.len() as u64);
                text.append(" columns)");
                assert(text@ =~= projection_text(m as nat, schema@.len()));
                return Err(EngineError::CorruptMessage(text));
            }
            Ok(())
        },
        None => Ok(()),
    }
}

/// The columns that a projection selects; all of them without one.
pub open spec fn selected(projection: Option<Seq<usize>>, n: nat) -> Seq<usize> {
    match projection {
        Some(p) => p,
        None => Seq::new(n, |i: int| i as usize),
    }
}

/// What an optional projection says.
pub open spec fn projection_view(p: Option<&[usize]>) -> Option<Seq<usize>> {
    match p {
        Some(p) => Some(p@),
        None => None,
    }
}

/// The projection, if there is one, fits the schema.
pub open spec fn fits_schema(projection: Option<Seq<usize>>, n: nat) -> bool {
    projection matches Some(p) ==> valid_projection(p, n)
}

/// Selected columns are columns of the schema.
pub proof fn lemma_selected(projection: Option<Seq<usize>>, n: nat)
    requires
        fits_schema(projection, n),
        n <= usize::MAX,
    ensures
        forall|i: int| 0 <= i < selected(projection, n).len() ==> selected(projection, n)[i] < n,
{
    if let Some(p) = projection {
        lemma_max_index(p);
    }
}

/// The selected columns' declarations.
pub open spec fn project(fs: Seq<FieldModel>, cols: Seq<usize>) -> Seq<FieldModel> {
    cols.map_values(|c: usize| fs[c as int])
}

fn select_columns(projection: Option<&[usize]>, n: usize) -> (r: Vec<usize>)
    ensures
        r@ == selected(projection_view(projection), n as nat),
{
    let mut out: Vec<usize> = Vec::new();
    match projection {
        Some(p) => {
            out.extend_from_slice(p);
            assert(out@ =~= p@);
        },
        None => {
            let mut i: usize = 0;
            while i < n
                invariant
                    i <= n,
                    out@.len() == i,
                    forall|j: int| 0 <= j < i ==> out@[j] == j,
                decreases n - i,
            {
                out.push(i);
                i += 1;
            }
            assert(out@ =~= selected(None, n as nat));
        },
    }
    out
}

fn project_schema(schema: &Schema, cols: &[usize]) -> (r: Schema)
    requires
        forall|i: int| 0 <= i < cols@.len() ==> cols@[i] < schema@.len(),
    ensures
        r@ == project(schema@, cols@),
{
    let mut fields: Vec<Field> = Vec::new();
    let mut i: usize = 0;
    while i < cols.len()
        invariant
            i <= cols@.len(),
            forall|j: int| 0 <= j < cols@.len() ==> cols@[j] < schema@.len(),
            fields@.len() == i,
            forall|j: int| 0 <= j < i ==> (#[trigger] fields@[j])@ == schema@[cols@[j] as int],
        decreases cols@.len() - i,
    {
        let f = schema.fields[cols[i]].clone();
        assert(schema@[cols@[i as int] as int] == schema.fields@[cols@[i as int] as int]@);
        fields.push(f);
        i += 1;
    }
    let r = Schema { fields };
    assert(r@ =~= project(schema@, cols@));
    r
}

// ── Batches ───────────────────────────────────────────────────────────────

/// The rows `from..to` of columns.
pub open spec fn window(cells: Seq<Seq<ScalarModel>>, from: int, to: int) -> Seq<Seq<ScalarModel>> {
    cells.map_values(|c: Seq<ScalarModel>| c.subrange(from, to))
}

/// The batch holds the rows `from..to` of columns.
pub open spec fn batch_is(
    b: ColumnBatch,
    fields: Seq<FieldModel>,
    cells: Seq<Seq<ScalarModel>>,
    from: int,
    to: int,
) -> bool {
    &&& b.wf()
    &&& b.schema@ == fields
    &&& b.num_rows == to - from
    &&& b.cells() == window(cells, from, to)
}

/// The smaller of two numbers.
pub open spec fn least(a: int, b: int) -> int {
    if a <= b {
        a
    } else {
        b
    }
}

/// The batches hold the `n` rows of the columns in order, `size` in each but
/// the last.
pub open spec fn are_batches(
    bs: Seq<ColumnBatch>,
    fields: Seq<FieldModel>,
    cells: Seq<Seq<ScalarModel>>,
    n: nat,
    size: nat,
) -> bool {
    &&& bs.len() * size >= n
    &&& bs.len() > 0 ==> (bs.len() - 1) * size < n
    &&& forall|i: int|
        0 <= i < bs.len() ==> batch_is(
            #[trigger] bs[i],
            fields,
            cells,
            i * size,
            least((i + 1) * size, n as int),
        )
}

/// A batch without rows.
pub open spec fn is_empty_batch(b: ColumnBatch, fields: Seq<FieldModel>) -> bool {
    &&& b.wf()
    &&& b.schema@ == fields
    &&& b.num_rows == 0
}

fn empty_batch(schema: Schema) -> (r: ColumnBatch)
    ensures
        is_empty_batch(r, schema@),
{
    let mut columns: Vec<Vec<ScalarValue>> = Vec::new();
    let mut i: usize = 0;
    while i < schema.fields.len()
        invariant
            i <= schema.fields@.len(),
            columns@.len() == i,
            forall|c: int| 0 <= c < i ==> (#[trigger] columns@[c])@.len() == 0,
        decreases schema.fields@.len() - i,
    {
        columns.push(Vec::new());
        i += 1;
    }
    ColumnBatch { schema, columns, num_rows: 0 }
}

fn copy_window(column: &Vec<ScalarValue>, from: usize, to: usize) -> (r: Vec<ScalarValue>)
    requires
        from <= to <= column@.len(),
    ensures
        scalar_models(r@) == scalar_models(column@).subrange(from as int, to as int),
        r@.len() == to - from,
{
    let mut out: Vec<ScalarValue> = Vec::new();
    let mut i: usize = from;
    while i < to
        invariant
            from <= i <= to,
            to <= column@.len(),
            out@.len() == i - from,
            forall|j: int| 0 <= j < i - from ==> (#[trigger] out@[j])@ == column@[from + j]@,
        decreases to - i,
    {
        out.push(column[i].clone());
        i += 1;
    }
    assert(scalar_models(out@) =~= scalar_models(column@).subrange(from as int, to as int));
    out
}

/// Every column has `n` values.
pub open spec fn columns_have(columns: Seq<Vec<ScalarValue>>, n: nat) -> bool {
    forall|c: int| 0 <= c < columns.len() ==> (#[trigger] columns[c])@.len() == n
}

/// Slices columns into batches of `size` rows.
pub fn slice_batches(
    columns: &Vec<Vec<ScalarValue>>,
    schema: &Schema,
    row_count: usize,
    size: usize,
) -> (r: Vec<ColumnBatch>)
    requires
        size > 0,
        columns@.len() == schema@.len(),
        columns_have(columns@, row_count as nat),
    ensures
        are_batches(r@, schema@, column_models(columns@), row_count as nat, size as nat),
{
    let ghost cells = column_models(columns@);
    let mut batches: Vec<ColumnBatch> = Vec::new();
    let mut start: usize = 0;
    assert(batches@.len() * size == 0) by (nonlinear_arith)
        requires
            batches@.len() == 0,
    ;
    while start < row_count
        invariant
            size > 0,
            cells == column_models(columns@),
            columns@.len() == schema@.len(),
            columns_have(columns@, row_count as nat),
            start <= row_count,
            start == least(batches@.len() * size, row_count as int),
            batches@.len() > 0 ==> (batches@.len() - 1) * size < row_count,
            start == row_count || start == batches@.len() * size,
            forall|i: int|
                0 <= i < batches@.len() ==> batch_is(
                    #[trigger] batches@[i],
                    schema@,
                    cells,
                    i * size,
                    least((i + 1) * size, row_count as int),
                ),
        decreases row_count - start,
    {
        let end: usize = if size > row_count - start {
            row_count
        } else {
            start + size
        };
        let mut sliced: Vec<Vec<ScalarValue>> = Vec::new();
        let mut c: usize = 0;
        while c < columns.len()
            invariant
                c <= columns@.len(),
                start <= end <= row_count,
                columns_have(columns@, row_count as nat),
                sliced@.len() == c,
                forall|k: int|
                    0 <= k < c ==> {
                        &&& (#[trigger] sliced@[k])@.len() == end - start
                        &&& scalar_models(sliced@[k]@) == scalar_models(columns@[k]@).subrange(
                            start as int,
                            end as int,
                        )
                    },
            decreases columns@.len() - c,
        {
            assert(columns@[c as int]@.len() == row_count);
            sliced.push(copy_window(&columns[c], start, end));
            c += 1;
        }
        let ghost k = batches@.len() as int;
        let b = ColumnBatch { schema: schema.clone(), columns: sliced, num_rows: end - start };
        proof {
            assert((k + 1) * size == k * size + size) by (nonlinear_arith);
            assert(start == k * size);
            assert(end == least((k + 1) * size, row_count as int));
            let w = window(cells, start as int, end as int);
            assert forall|j: int| 0 <= j < w.len() implies #[trigger] b.cells()[j] == w[j] by {
                assert(scalar_models(sliced@[j]@) == scalar_models(columns@[j]@).subrange(
                    start as int,
                    end as int,
                ));
                assert(b.cells()[j] =~= scalar_models(sliced@[j]@));
                assert(cells[j] =~= scalar_models(columns@[j]@));
            }
            assert(b.cells() =~= w);
        }
        batches.push(b);
        proof {
            assert((batches@.len() - 1) * size == k * size);
        }
        start = end;
    }
    batches
}

// ── Rows to batches ───────────────────────────────────────────────────────

/// The versions of a map in key order.
pub open spec fn in_key_order(m: Map<Seq<u8>, VersionModel>) -> Seq<VersionModel> {
    sorted_keys(m.dom()).map_values(|k: Seq<u8>| m[k])
}

/// The payloads of the live versions.
pub open spec fn live_payloads(vs: Seq<VersionModel>) -> Seq<Seq<u8>>
    decreases vs.len(),
{
    if vs.len() == 0 {
        Seq::empty()
    } else {
        match vs.last().value {
            Some(b) => live_payloads(vs.drop_last()).push(b),
            None => live_payloads(vs.drop_last()),
        }
    }
}

/// The decoded values of a payload.
pub open spec fn row_cells(b: Seq<u8>, types: Seq<TypeModel>) -> Seq<ScalarModel> {
    match cells_of(b, types) {
        Ok((cells, _)) => cells,
        Err(_) => Seq::empty(),
    }
}

/// Why a payload cannot be decoded.
pub open spec fn payload_fault(b: Seq<u8>, types: Seq<TypeModel>) -> Option<Fault> {
    match cells_of(b, types) {
        Ok(_) => None,
        Err(f) => Some(f),
    }
}

/// Every payload can be decoded.
pub open spec fn all_decode(bs: Seq<Seq<u8>>, types: Seq<TypeModel>) -> bool {
    forall|i: int| 0 <= i < bs.len() ==> payload_fault(#[trigger] bs[i], types) is None
}

/// `e` is the error of the first payload that cannot be decoded.
pub open spec fn is_first_fault(e: EngineError, bs: Seq<Seq<u8>>, types: Seq<TypeModel>) -> bool {
    exists|i: int|
        0 <= i < bs.len() && (payload_fault(#[trigger] bs[i], types) matches Some(f) && is_fault(
            e,
            f,
        )) && all_decode(bs.take(i), types)
}

/// The selected columns of the payloads.
pub open spec fn selected_cells(
    bs: Seq<Seq<u8>>,
    types: Seq<TypeModel>,
    cols: Seq<usize>,
) -> Seq<Seq<ScalarModel>> {
    cols.map_values(
        |c: usize| bs.map_values(|b: Seq<u8>| row_cells(b, types)[c as int]),
    )
}

/// The message for a table whose schema is not known.
pub open spec fn no_schema_text(table: Seq<char>) -> Seq<char> {
    "scan_table: no schema registered for table `"@ + table
        + "` and no fallback_schema supplied"@
}

/// What an optional schema says.
pub open spec fn schema_view(s: Option<&Schema>) -> Option<Seq<FieldModel>> {
    match s {
        Some(s) => Some(s@),
        None => None,
    }
}

/// The registered schema, or else the fallback.
pub open spec fn scan_schema(
    registered: Option<Seq<FieldModel>>,
    fallback: Option<Seq<FieldModel>>,
) -> Option<Seq<FieldModel>> {
    match registered {
        Some(s) => Some(s),
        None => fallback,
    }
}

/// The batches of the live versions `vs` under a schema: one empty batch where
/// there is no row or no column is selected.
pub open spec fn is_batched(
    bs: Seq<ColumnBatch>,
    vs: Seq<VersionModel>,
    fields: Seq<FieldModel>,
    projection: Option<Seq<usize>>,
    size: nat,
) -> bool {
    let cols = selected(projection, fields.len());
    let payloads = live_payloads(vs);
    if payloads.len() == 0 || cols.len() == 0 {
        bs.len() == 1 && is_empty_batch(bs[0], project(fields, cols))
    } else {
        are_batches(
            bs,
            project(fields, cols),
            selected_cells(payloads, types_of(fields), cols),
            payloads.len(),
            size,
        )
    }
}

/// The message for a column that must not hold nulls and does.
pub open spec fn null_text(column: Seq<char>) -> Seq<char> {
    "build scan batch: Invalid argument error: Column '"@ + column
        + "' is declared as non-nullable but contains null values"@
}

/// The message for batches of no rows.
pub open spec fn no_rows_text() -> Seq<char> {
    "build scan batch: Execution error: Empty iterator passed to ScalarValue::iter_to_array"@
}

/// Among the rows from `lo` to `hi`, the column holds a null that its field
/// does not allow.
pub open spec fn stray_null(
    fields: Seq<FieldModel>,
    cells: Seq<Seq<ScalarModel>>,
    c: int,
    lo: int,
    hi: int,
) -> bool {
    &&& 0 <= c < cells.len()
    &&& !fields[c].nullable
    &&& exists|j: int| lo <= j < hi && #[trigger] cells[c][j].payload is None
}

/// No column holds a null that its field does not allow.
pub open spec fn nulls_allowed(fields: Seq<FieldModel>, cells: Seq<Seq<ScalarModel>>, n: nat) -> bool {
    forall|c: int| !(#[trigger] stray_null(fields, cells, c, 0, n as int))
}

/// `e` names the first column with a stray null, in the first batch of `size`
/// rows that has one.
pub open spec fn is_null_error(
    e: EngineError,
    fields: Seq<FieldModel>,
    cells: Seq<Seq<ScalarModel>>,
    n: nat,
    size: nat,
) -> bool {
    exists|k: int, c: int|
        0 <= k && #[trigger] stray_null(
            fields,
            cells,
            c,
            k * size,
            least((k + 1) * size, n as int),
        ) && e.is_message(null_text(fields[c].name)) && (forall|c2: int|
            0 <= c2 < c ==> !(#[trigger] stray_null(
                fields,
                cells,
                c2,
                k * size,
                least((k + 1) * size, n as int),
            ))) && (forall|c2: int| !(#[trigger] stray_null(fields, cells, c2, 0, k * size)))
}

fn null_error(column: &str) -> (r: EngineError)
    ensures
        r.is_message(null_text(column@)),
{
    let mut text: String = "build scan batch: Invalid argument error: Column '".to_owned();
    text.append(column);
    text.append("' is declared as non-nullable but contains null values");
    assert(text@ =~= null_text(column@));
    EngineError::CorruptMessage(text)
}

/// Looks for a null that its column's field does not allow, batch by batch.
fn find_stray_null(
    columns: &Vec<Vec<ScalarValue>>,
    schema: &Schema,
    row_count: usize,
    size: usize,
) -> (r: Option<EngineError>)
    requires
        size > 0,
        columns@.len() == schema@.len(),
        columns_have(columns@, row_count as nat),
    ensures
        ({
            let cells = column_models(columns@);
            match r {
                None => nulls_allowed(schema@, cells, row_count as nat),
                Some(e) => is_null_error(e, schema@, cells, row_count as nat, size as nat)
                    && !nulls_allowed(schema@, cells, row_count as nat),
            }
        }),
{
    let ghost cells = column_models(columns@);
    let ghost fields = schema@;
    let ghost mut k: int = 0;
    let mut start: usize = 0;
    assert(0 * size == 0) by (nonlinear_arith);
    while start < row_count
        invariant
            size > 0,
            cells == column_models(columns@),
            fields == schema@,
            columns@.len() == schema@.len(),
            columns_have(columns@, row_count as nat),
            start <= row_count,
            k >= 0,
            start < row_count ==> start == k * size,
            forall|c: int| !(#[trigger] stray_null(fields, cells, c, 0, start as int)),
        decreases row_count - start,
    {
        let end: usize = if row_count - start < size {
            row_count
        } else {
            start + size
        };
        assert((k + 1) * size == k * size + size) by (nonlinear_arith);
        assert(end == least((k + 1) * size, row_count as int));
        let mut c: usize = 0;
        while c < columns.len()
            invariant
                size > 0,
                cells == column_models(columns@),
                fields == schema@,
                columns@.len() == schema@.len(),
                columns_have(columns@, row_count as nat),
                start == k * size,
                k >= 0,
                end == least((k + 1) * size, row_count as int),
                start <= end <= row_count,
                c <= columns@.len(),
                forall|c2: int|
                    !(#[trigger] stray_null(fields, cells, c2, 0, start as int)),
                forall|c2: int|
                    0 <= c2 < c ==> !(#[trigger] stray_null(
                        fields,
                        cells,
                        c2,
                        start as int,
                        end as int,
                    )),
            decreases columns@.len() - c,
        {
            assert(cells[c as int] =~= scalar_models(columns@[c as int]@));
            if !schema.fields[c].nullable {
                let mut j: usize = start;
                while j < end
                    invariant
                        cells == column_models(columns@),
                        fields == schema@,
                        size > 0,
                        columns@.len() == schema@.len(),
                        columns_have(columns@, row_count as nat),
                        start == k * size,
                        k >= 0,
                        end == least((k + 1) * size, row_count as int),
                        c < columns@.len(),
                        !fields[c as int].nullable,
                        cells[c as int] == scalar_models(columns@[c as int]@),
                        start <= j <= end <= row_count,
                        forall|c2: int|
                            !(#[trigger] stray_null(fields, cells, c2, 0, start as int)),
                        forall|c2: int|
                            0 <= c2 < c ==> !(#[trigger] stray_null(
                                fields,
                                cells,
                                c2,
                                start as int,
                                end as int,
                            )),
                        forall|i: int|
                            start <= i < j ==> (#[trigger] cells[c as int][i]).payload is Some,
                    decreases end - j,
                {
                    assert(columns@[c as int]@.len() == row_count);
                    assert(cells[c as int][j as int] == columns@[c as int]@[j as int]@);
                    if columns[c][j].is_null() {
                        let e = null_error(schema.fields[c].name.as_str());
                        proof {
                            assert(cells[c as int][j as int].payload is None);
                            assert(stray_null(fields, cells, c as int, start as int, end as int));
                            assert(stray_null(fields, cells, c as int, 0, row_count as int));
                            assert(fields[c as int].name == schema.fields@[c as int].name@);
                        }
                        return Some(e);
                    }
                    j += 1;
                }
                assert(!stray_null(fields, cells, c as int, start as int, end as int));
            } else {
                assert(fields[c as int].nullable);
            }
            c += 1;
        }
        proof {
            assert forall|c2: int| !(#[trigger] stray_null(fields, cells, c2, 0, end as int)) by {
                assert(!stray_null(fields, cells, c2, 0, start as int));
                if 0 <= c2 < cells.len() {
                    assert(!stray_null(fields, cells, c2, start as int, end as int));
                }
            }
            k = k + 1;
        }
        start = end;
    }
    None
}

/// The live versions `vs` can be put into batches of `size` rows under a
/// schema: every payload can be decoded, and where there is a batch to fill it
/// takes rows, and no column holds a null that its field does not allow.
pub open spec fn can_be_batched(
    vs: Seq<VersionModel>,
    fields: Seq<FieldModel>,
    projection: Option<Seq<usize>>,
    size: nat,
) -> bool {
    let cols = selected(projection, fields.len());
    let payloads = live_payloads(vs);
    &&& all_decode(payloads, types_of(fields))
    &&& payloads.len() > 0 && cols.len() > 0 ==> size > 0 && nulls_allowed(
        project(fields, cols),
        selected_cells(payloads, types_of(fields), cols),
        payloads.len(),
    )
}

/// Why the live versions `vs` cannot be put into batches.
pub open spec fn is_batch_error(
    e: EngineError,
    vs: Seq<VersionModel>,
    fields: Seq<FieldModel>,
    projection: Option<Seq<usize>>,
    size: nat,
) -> bool {
    let cols = selected(projection, fields.len());
    let payloads = live_payloads(vs);
    if !all_decode(payloads, types_of(fields)) {
        is_first_fault(e, payloads, types_of(fields))
    } else if size == 0 {
        e.is_message(no_rows_text())
    } else {
        is_null_error(
            e,
            project(fields, cols),
            selected_cells(payloads, types_of(fields), cols),
            payloads.len(),
            size,
        )
    }
}

/// Builds batches of `batch_size` rows from the live versions of `visible`, in
/// key order, under the table's registered schema or the fallback. A
/// projection selects columns, in its order. A null under a field that allows
/// none is an error, and so are batches of no rows where there are rows.
pub fn rows_to_batches(
    table: &str,
    visible: &ByteMap<VersionedValue>,
    projection: Option<&[usize]>,
    registered: Option<&Schema>,
    fallback_schema: Option<&Schema>,
    batch_size: usize,
) -> (r: Result<Vec<ColumnBatch>>)
    requires
        visible.wf(),
    ensures
        ({
            let vs = in_key_order(version_map(visible@));
            match scan_schema(schema_view(registered), schema_view(fallback_schema)) {
                None => r matches Err(e) && e.is_message(no_schema_text(table@)),
                Some(fields) => {
                    let p = projection_view(projection);
                    if !fits_schema(p, fields.len()) {
                        r matches Err(e) && e.is_message(
                            projection_text(max_index(p->0) as nat, fields.len()),
                        )
                    } else if can_be_batched(vs, fields, p, batch_size as nat) {
                        r matches Ok(bs) && is_batched(bs@, vs, fields, p, batch_size as nat)
                    } else {
                        r matches Err(e) && is_batch_error(e, vs, fields, p, batch_size as nat)
                    }
                },
            }
        }),
{
    let ghost m = version_map(visible@);
    let ghost vs = in_key_order(m);
    let row_schema: &Schema = match registered {
        Some(s) => s,
        None => match fallback_schema {
            Some(s) => s,
            None => {
                let mut text: String = "scan_table: no schema registered for table `".to_owned();
                text.append(table);
                text.append("` and no fallback_schema supplied");
                assert(text@ =~= no_schema_text(table@));
                return Err(EngineError::CorruptMessage(text));
            },
        },
    };
    let ghost fields = row_schema@;
    let ghost types = types_of(fields);
    if let Some(p) = projection {
        match validate_projection(row_schema, p) {
            Ok(()) => {},
            Err(e) => {
                return Err(e);
            },
        }
    }
    let cols = select_columns(projection, row_schema.len());
    proof {
        lemma_selected(projection_view(projection), fields.len());
        visible.lemma_entries();
        assert(m.dom() =~= visible@.dom());
        lemma_sorted_keys(visible.key_seq(), m.dom());
        assert(vs.len() == visible.key_seq().len());
    }
    let ghost payloads = live_payloads(vs);
    let mut decoded: Vec<Vec<ScalarValue>> = Vec::new();
    let mut i: usize = 0;
    while i < visible.len()
        invariant
            visible.wf(),
            m == version_map(visible@),
            vs == in_key_order(m),
            sorted_keys(m.dom()) == visible.key_seq(),
            m.dom() == visible@.dom(),
            vs.len() == visible.key_seq().len(),
            types == types_of(row_schema@),
            scan_schema(schema_view(registered), schema_view(fallback_schema)) == Some(row_schema@),
            fits_schema(projection_view(projection), row_schema@.len()),
            payloads == live_payloads(vs),
            i <= vs.len(),
            decoded@.len() == live_payloads(vs.take(i as int)).len(),
            all_decode(live_payloads(vs.take(i as int)), types),
            forall|j: int|
                0 <= j < decoded@.len() ==> scalar_models((#[trigger] decoded@[j])@)
                    == pick_or_null(row_cells(live_payloads(vs.take(i as int))[j], types), cols@),
        decreases vs.len() - i,
    {
        let version = visible.value_at(i);
        proof {
            visible.lemma_entries();
            let k = visible.key_seq()[i as int];
            assert(visible@.contains_key(k));
            assert(visible@[k] == *version);
            assert(m[k] == version@);
            assert(vs[i as int] == version@);
            assert(vs.take(i + 1).drop_last() =~= vs.take(i as int));
            assert(vs.take(i + 1).last() == version@);
        }
        match &version.value {
            Some(payload) => {
                let ghost b = bytes_view(*payload);
                let ghost done = live_payloads(vs.take(i as int));
                match decode_row_columns(bytes_slice(payload), row_schema, cols.as_slice()) {
                    Ok(row) => {
                        decoded.push(row);
                        proof {
                            let next = live_payloads(vs.take(i + 1));
                            assert(next == done.push(b));
                            assert forall|j: int| 0 <= j < decoded@.len() implies scalar_models(
                                (#[trigger] decoded@[j])@,
                            ) == pick_or_null(row_cells(next[j], types), cols@) by {
                                if j < done.len() {
                                    assert(next[j] == done[j]);
                                }
                            }
                            assert forall|j: int| 0 <= j < next.len() implies payload_fault(
                                #[trigger] next[j],
                                types,
                            ) is None by {
                                if j < done.len() {
                                    assert(next[j] == done[j]);
                                }
                            }
                        }
                    },
                    Err(e) => {
                        proof {
                            lemma_payload_prefix(vs, i + 1);
                            let next = live_payloads(vs.take(i + 1));
                            let at = done.len() as int;
                            assert(next == done.push(b));
                            assert(payloads[at] == next[at]);
                            assert(payloads.take(at) =~= done);
                            assert(payload_fault(payloads[at], types) is Some);
                        }
                        return Err(e);
                    },
                }
            },
            None => {},
        }
        i += 1;
    }
    assert(vs.take(i as int) =~= vs);
    let projected = project_schema(row_schema, cols.as_slice());
    if decoded.len() == 0 || cols.len() == 0 {
        let mut out: Vec<ColumnBatch> = Vec::new();
        out.push(empty_batch(projected));
        return Ok(out);
    }
    if batch_size == 0 {
        let text: String =
            "build scan batch: Execution error: Empty iterator passed to ScalarValue::iter_to_array".to_owned();
        return Err(EngineError::CorruptMessage(text));
    }
    let row_count: usize = decoded.len();
    let mut columns: Vec<Vec<ScalarValue>> = Vec::new();
    let ghost cells = selected_cells(payloads, types, cols@);
    let mut c: usize = 0;
    while c < cols.len()
        invariant
            c <= cols@.len(),
            row_count == decoded@.len(),
            decoded@.len() == payloads.len(),
            types == types_of(row_schema@),
            types.len() == row_schema@.len(),
            all_decode(payloads, types),
            forall|j: int| 0 <= j < cols@.len() ==> cols@[j] < row_schema@.len(),
            forall|j: int|
                0 <= j < decoded@.len() ==> scalar_models((#[trigger] decoded@[j])@)
                    == pick_or_null(row_cells(payloads[j], types), cols@),
            cells == selected_cells(payloads, types, cols@),
            columns@.len() == c,
            forall|k: int|
                0 <= k < c ==> {
                    &&& (#[trigger] columns@[k])@.len() == row_count
                    &&& scalar_models(columns@[k]@) == cells[k]
                },
        decreases cols@.len() - c,
    {
        let mut column: Vec<ScalarValue> = Vec::new();
        let mut j: usize = 0;
        while j < decoded.len()
            invariant
                c < cols@.len(),
                j <= decoded@.len(),
                decoded@.len() == payloads.len(),
                types == types_of(row_schema@),
                types.len() == row_schema@.len(),
                all_decode(payloads, types),
                forall|k: int| 0 <= k < cols@.len() ==> cols@[k] < row_schema@.len(),
                forall|k: int|
                    0 <= k < decoded@.len() ==> scalar_models((#[trigger] decoded@[k])@)
                        == pick_or_null(row_cells(payloads[k], types), cols@),
                column@.len() == j,
                forall|k: int|
                    0 <= k < j ==> (#[trigger] column@[k])@ == row_cells(
                        payloads[k],
                        types,
                    )[cols@[c as int] as int],
            decreases decoded@.len() - j,
        {
            proof {
                let ms = scalar_models(decoded@[j as int]@);
                assert(ms.len() == cols@.len());
                assert(ms[c as int] == decoded@[j as int]@[c as int]@);
                lemma_cells_len(payloads[j as int], types);
                assert(payload_fault(payloads[j as int], types) is None);
            }
            column.push(decoded[j][c].clone());
            j += 1;
        }
        assert(scalar_models(column@) =~= cells[c as int]);
        columns.push(column);
        c += 1;
    }
    proof {
        let cm = column_models(columns@);
        assert forall|k: int| 0 <= k < cells.len() implies #[trigger] cm[k] == cells[k] by {
            assert(cm[k] =~= scalar_models(columns@[k]@));
        }
        assert(cm =~= cells);
    }
    match find_stray_null(&columns, &projected, row_count, batch_size) {
        Some(e) => {
            return Err(e);
        },
        None => {},
    }
    Ok(slice_batches(&columns, &projected, row_count, batch_size))
}

proof fn lemma_payload_prefix(vs: Seq<VersionModel>, n: int)
    requires
        0 <= n <= vs.len(),
    ensures
        live_payloads(vs.take(n)).len() <= live_payloads(vs).len(),
        forall|i: int|
            0 <= i < live_payloads(vs.take(n)).len() ==> #[trigger] live_payloads(vs)[i]
                == live_payloads(vs.take(n))[i],
    decreases vs.len(),
{
    if n == vs.len() {
        assert(vs.take(n) =~= vs);
    } else {
        lemma_payload_prefix(vs.drop_last(), n);
        assert(vs.drop_last().take(n) =~= vs.take(n));
    }
}

// ── Columns to batches ────────────────────────────────────────────────────

/// The first column of that name.
pub open spec fn column_named(
    found: Seq<(String, Vec<ScalarValue>)>,
    name: Seq<char>,
) -> Option<Seq<ScalarModel>>
    decreases found.len(),
{
    if found.len() == 0 {
        None
    } else if found[0].0@ == name {
        Some(scalar_models(found[0].1@))
    } else {
        column_named(found.drop_first(), name)
    }
}

/// The file has the business column at place `c`.
pub open spec fn has_column(found: Seq<(String, Vec<ScalarValue>)>, c: usize) -> bool {
    column_named(found, column_name(c as nat)) is Some
}

/// The message for a file without the business column at place `c`.
pub open spec fn missing_column_text(c: nat, path: Seq<char>) -> Seq<char> {
    "business column `"@ + column_name(c) + "` missing from SST `"@ + path + "`"@
}

/// The selected business columns.
pub open spec fn found_cells(
    found: Seq<(String, Vec<ScalarValue>)>,
    cols: Seq<usize>,
) -> Seq<Seq<ScalarModel>> {
    cols.map_values(|c: usize| column_named(found, column_name(c as nat))->0)
}

/// How many rows a batch takes: all of them where the size is unlimited, and
/// at least one.
pub open spec fn effective_size(batch_size: usize, row_count: usize) -> nat {
    if batch_size == usize::MAX {
        row_count as nat
    } else if batch_size == 0 {
        1
    } else {
        batch_size as nat
    }
}

/// The first column of a name is the one that is found.
pub proof fn lemma_column_named(found: Seq<(String, Vec<ScalarValue>)>, name: Seq<char>, i: int)
    requires
        0 <= i < found.len(),
        found[i].0@ == name,
        forall|j: int| 0 <= j < i ==> (#[trigger] found[j]).0@ != name,
    ensures
        column_named(found, name) == Some(scalar_models(found[i].1@)),
    decreases i,
{
    if i > 0 {
        let t = found.drop_first();
        assert(found[0].0@ != name);
        assert(t[i - 1] == found[i]);
        assert forall|j: int| 0 <= j < i - 1 implies (#[trigger] t[j]).0@ != name by {
            assert(t[j] == found[j + 1]);
        }
        lemma_column_named(t, name, i - 1);
    }
}

proof fn lemma_column_missing(found: Seq<(String, Vec<ScalarValue>)>, name: Seq<char>)
    requires
        forall|j: int| 0 <= j < found.len() ==> (#[trigger] found[j]).0@ != name,
    ensures
        column_named(found, name) is None,
    decreases found.len(),
{
    if found.len() > 0 {
        let t = found.drop_first();
        assert(found[0].0@ != name);
        assert forall|j: int| 0 <= j < t.len() implies (#[trigger] t[j]).0@ != name by {
            assert(t[j] == found[j + 1]);
        }
        lemma_column_missing(t, name);
    }
}

fn find_column(found: &[(String, Vec<ScalarValue>)], name: &String) -> (r: Option<usize>)
    ensures
        match r {
            Some(i) => i < found@.len() && column_named(found@, name@) == Some(
                scalar_models(found@[i as int].1@),
            ),
            None => column_named(found@, name@) is None,
        },
{
    let mut i: usize = 0;
    while i < found.len()
        invariant
            i <= found@.len(),
            forall|j: int| 0 <= j < i ==> (#[trigger] found@[j]).0@ != name@,
        decreases found@.len() - i,
    {
        if found[i].0 == *name {
            proof {
                lemma_column_named(found@, name@, i as int);
            }
            return Some(i);
        }
        i += 1;
    }
    proof {
        lemma_column_missing(found@, name@);
    }
    None
}

/// Builds batches from the business columns that a file gave back for
/// `row_count` rows. A projection selects columns, in its order; a selected
/// column that the file does not have is an error.
pub fn columns_to_batches(
    found: &[(String, Vec<ScalarValue>)],
    row_count: usize,
    projection: Option<&[usize]>,
    row_schema: &Schema,
    batch_size: usize,
    path: &str,
) -> (r: Result<Vec<ColumnBatch>>)
    requires
        fits_schema(projection_view(projection), row_schema@.len()),
        forall|i: int| 0 <= i < found@.len() ==> (#[trigger] found@[i]).1@.len() == row_count,
    ensures
        ({
            let cols = selected(projection_view(projection), row_schema@.len());
            let fields = project(row_schema@, cols);
            if row_count == 0 {
                r matches Ok(bs) && bs@.len() == 1 && is_empty_batch(bs@[0], fields)
            } else if forall|i: int| 0 <= i < cols.len() ==> has_column(found@, #[trigger] cols[i]) {
                r matches Ok(bs) && are_batches(
                    bs@,
                    fields,
                    found_cells(found@, cols),
                    row_count as nat,
                    effective_size(batch_size, row_count),
                )
            } else {
                r matches Err(e) && exists|i: int|
                    0 <= i < cols.len() && !has_column(found@, #[trigger] cols[i]) && e.is_message(
                        missing_column_text(cols[i] as nat, path@),
                    ) && forall|j: int| 0 <= j < i ==> has_column(found@, #[trigger] cols[j])
            }
        }),
{
    let cols = select_columns(projection, row_schema.len());
    proof {
        lemma_selected(projection_view(projection), row_schema@.len());
    }
    let projected = project_schema(row_schema, cols.as_slice());
    if row_count == 0 {
        let mut out: Vec<ColumnBatch> = Vec::new();
        out.push(empty_batch(projected));
        return Ok(out);
    }
    let ghost cells = found_cells(found@, cols@);
    let mut columns: Vec<Vec<ScalarValue>> = Vec::new();
    let mut c: usize = 0;
    while c < cols.len()
        invariant
            c <= cols@.len(),
            row_count > 0,
            cols@ == selected(projection_view(projection), row_schema@.len()),
            forall|i: int| 0 <= i < found@.len() ==> (#[trigger] found@[i]).1@.len() == row_count,
            cells == found_cells(found@, cols@),
            columns@.len() == c,
            forall|k: int|
                0 <= k < c ==> {
                    &&& (#[trigger] columns@[k])@.len() == row_count
                    &&& scalar_models(columns@[k]@) == cells[k]
                },
            forall|k: int| 0 <= k < c ==> has_column(found@, #[trigger] cols@[k]),
        decreases cols@.len() - c,
    {
        let name = business_column_name(cols[c]);
        match find_column(found, &name) {
            Some(i) => {
                let column = copy_window(&found[i].1, 0, row_count);
                proof {
                    let all = scalar_models(found@[i as int].1@);
                    assert(all.subrange(0, row_count as int) =~= all);
                }
                columns.push(column);
            },
            None => {
                let mut text: String = "business column `".to_owned();
                text.append(name.as_str());
                text.append("` missing from SST `");
                text.append(path);
                text.append("`");
                assert(text@ =~= missing_column_text(cols@[c as int] as nat, path@));
                assert(!has_column(found@, cols@[c as int]));
                return Err(EngineError::CorruptMessage(text));
            },
        }
        c += 1;
    }
    proof {
        let cm = column_models(columns@);
        assert forall|k: int| 0 <= k < cells.len() implies #[trigger] cm[k] == cells[k] by {
            assert(cm[k] =~= scalar_models(columns@[k]@));
        }
        assert(cm =~= cells);
    }
    let size: usize = if batch_size == usize::MAX {
        row_count
    } else if batch_size == 0 {
        1
    } else {
        batch_size
    };
    Ok(slice_batches(&columns, &projected, row_count, size))
}

} // verus!
