//! What the columns of a file hold, and which rows its filters let pass.

use crate::buf::{bytes_view, opt_bytes_view};
use crate::column_predicate::{predicate_models, ColumnPredicate};
use crate::key_index::untagged_rows;
use crate::memtable::{row_models, RowModel, VersionedRow};
use crate::order_laws::law_ranges_are_half_open;
use crate::partition_laws::{is_match, is_shown};
use crate::scalar::{scalar_models, DataType, Payload, ScalarValue, TypeModel};
use crate::schema::Schema;
use crate::version::Snapshot;
use crate::vortex_sst::{
    build_column_array, build_columns, business_cells, cell_satisfies, columnar_filter, rows_in,
    scan_filter, ColumnArray, Filter, SstColumns,
};
use vstd::prelude::*;
use vstd::utf8::encode_utf8;

verus! {

/// A column holds the values of its own type one by one: a number as it is, a text
/// as its bytes, an absent value as absent. There are as many as were given.
pub proof fn law_columns_hold_values_of_their_type(
    scalars: &[ScalarValue],
    data_type: &DataType,
    r: ColumnArray,
    i: int,
)
    requires
        call_ensures(build_column_array, (scalars, data_type), r),
        0 <= i < scalars@.len(),
        scalars@[i]@.ty == data_type@,
    ensures
        r@.cells.len() == scalars@.len(),
        scalars@[i]@.payload is None ==> r@.cells[i] is None,
        scalars@[i]@.payload matches Some(p) ==> match p {
            Payload::Text(t) => data_type@ is Utf8 || data_type@ is LargeUtf8 ==> r@.cells[i]
                == Some(Payload::Blob(encode_utf8(t))),
            _ => r@.cells[i] == Some(p),
        },
{
    assert(scalar_models(scalars@)[i] == scalars@[i]@);
}

/// A column of numbers or flags holds nothing in place of a value of another type.
pub proof fn law_columns_hold_nothing_of_another_type(
    scalars: &[ScalarValue],
    data_type: &DataType,
    r: ColumnArray,
    i: int,
)
    requires
        call_ensures(build_column_array, (scalars, data_type), r),
        0 <= i < scalars@.len(),
        scalars@[i]@.ty != data_type@,
        data_type@ is Int8 || data_type@ is Int16 || data_type@ is Int32 || data_type@ is Int64
            || data_type@ is UInt8 || data_type@ is UInt16 || data_type@ is UInt32
            || data_type@ is UInt64 || data_type@ is Float32 || data_type@ is Float64
            || data_type@ is Boolean || data_type@ is Date32 || data_type@ is Date64,
    ensures
        r@.cells[i] is None,
{
    assert(scalar_models(scalars@)[i] == scalars@[i]@);
}

/// The base columns of a file hold every row where it stands: its key, its value,
/// from when to when it is seen, and whether it is a tombstone.
pub proof fn law_base_columns_hold_every_row(
    rows: &[VersionedRow],
    schema: Option<&Schema>,
    r: SstColumns,
    i: int,
)
    requires
        call_ensures(build_columns, (rows, schema), r),
        0 <= i < rows@.len(),
    ensures
        r.keys@.len() == rows@.len(),
        bytes_view(r.keys@[i]) == rows@[i]@.key,
        opt_bytes_view(r.values@[i]) == rows@[i]@.version.value,
        r.begin_ts@[i] == rows@[i]@.version.begin_ts,
        r.end_ts@[i] == rows@[i]@.version.end_ts,
        r.tombstone@[i] <==> rows@[i]@.version.value is None,
{
    let rs = row_models(rows@);
    assert(rs[i] == rows@[i]@);
    let held = rows_in(
        r.keys@,
        r.values@,
        r.begin_ts@,
        r.end_ts@,
        rs.len(),
    );
    assert(held[i] == untagged_rows(rs)[i]);
}

/// The filter of a scan lets every row pass that is shown and matches the
/// predicates, and none that is not shown.
pub proof fn law_filters_lose_no_match(
    lower: &[u8],
    upper: &[u8],
    snapshot: Snapshot,
    predicates: &[ColumnPredicate],
    r: Filter,
    row: RowModel,
    types: Seq<TypeModel>,
)
    requires
        call_ensures(scan_filter, (lower, upper, snapshot, predicates), r),
    ensures
        is_shown(row, lower@, upper@, snapshot.ts) && is_match(
            row,
            types,
            predicate_models(predicates@),
        ) ==> r.passes(row, business_cells(row, types)),
        r.passes(row, business_cells(row, types)) ==> is_shown(row, lower@, upper@, snapshot.ts),
{
    let cells = business_cells(row, types);
    let ps = predicate_models(predicates@);
    law_ranges_are_half_open(row.key, lower@, upper@);
    if is_match(row, types, ps) {
        assert forall|i: int| 0 <= i < ps.len() implies cell_satisfies(cells, #[trigger] ps[i]) by {}
    }
}

/// The filter of a scan of columns lets no tombstone pass, and else what the filter
/// of a scan of rows lets pass.
pub proof fn law_column_filters_drop_tombstones(
    lower: &[u8],
    upper: &[u8],
    snapshot: Snapshot,
    predicates: &[ColumnPredicate],
    r: Filter,
    s: Filter,
    row: RowModel,
    types: Seq<TypeModel>,
)
    requires
        call_ensures(columnar_filter, (lower, upper, snapshot, predicates), r),
        call_ensures(scan_filter, (lower, upper, snapshot, predicates), s),
    ensures
        r.passes(row, business_cells(row, types)) <==> row.version.value is Some && s.passes(
            row,
            business_cells(row, types),
        ),
{
}

} // verus!
