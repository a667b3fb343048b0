//! Compact single-row codec.
//!
//! ```text
//!   per column:
//!     [1 byte marker: 0 = NULL, 1 = present]
//!     [if present: value bytes (little-endian, or u32-length-prefixed)]
//! ```
//!
//! Decoding is driven by the table's schema, so a row does not repeat its
//! types.

use crate::buf::append_bytes;
use crate::codec::{
    prefixed, push_u16, push_u32, push_u64, read_u16, read_u32, read_u64, take_prefixed, u16_at,
    u32_at, u64_at,
};
use crate::error::{EngineError, Result};
use crate::scalar::{
    bare_null, clone_text, in_width, is_supported, layout, null_of, present, scalar_models,
    typed_null, well_typed, DataType, IntervalDayTime, IntervalMonthDayNano, IntervalUnit, Layout,
    Payload, ScalarModel, ScalarValue, TimeUnit, TypeModel,
};
use crate::schema::{types_of, ColumnBatch, Schema};
use crate::text::{decimal, push_decimal};
use vstd::bytes::{
    lemma_auto_spec_u16_to_from_le_bytes, lemma_auto_spec_u32_to_from_le_bytes,
    lemma_auto_spec_u64_to_from_le_bytes, spec_u16_to_le_bytes, spec_u32_to_le_bytes,
    spec_u64_to_le_bytes,
};
use vstd::prelude::*;
use vstd::slice::slice_subrange;
use vstd::utf8::{decode_utf8, encode_utf8, valid_utf8};

verus! {

// ── Encoding ──────────────────────────────────────────────────────────────

/// The little-endian bytes of an integer in `n` bytes.
pub open spec fn fixed_bytes(n: nat, i: int) -> Seq<u8> {
    if n == 1 {
        seq![i as u8]
    } else if n == 2 {
        spec_u16_to_le_bytes(i as u16)
    } else if n == 4 {
        spec_u32_to_le_bytes(i as u32)
    } else {
        spec_u64_to_le_bytes(i as u64)
    }
}

/// The bytes of a value, by the layout of its type.
pub open spec fn payload_bytes(l: Layout, p: Payload) -> Seq<u8> {
    match l {
        Layout::Fixed(n, _) => fixed_bytes(n, p->Int_0),
        Layout::Flag => seq![
            if p->Flag_0 {
                1u8
            } else {
                0u8
            },
        ],
        Layout::Text => prefixed(encode_utf8(p->Text_0)),
        Layout::Blob => prefixed(p->Blob_0),
        Layout::DayTime => fixed_bytes(4, p->DayTime_0 as int) + fixed_bytes(
            4,
            p->DayTime_1 as int,
        ),
        Layout::MonthDayNano => fixed_bytes(4, p->MonthDayNano_0 as int) + fixed_bytes(
            4,
            p->MonthDayNano_1 as int,
        ) + fixed_bytes(8, p->MonthDayNano_2 as int),
        Layout::Unsupported => Seq::empty(),
    }
}

/// The value is short enough to be length-prefixed.
pub open spec fn payload_fits(p: Payload) -> bool {
    match p {
        Payload::Text(s) => encode_utf8(s).len() <= u32::MAX,
        Payload::Blob(b) => b.len() <= u32::MAX,
        _ => true,
    }
}

/// A row can hold the value.
pub open spec fn storable(m: ScalarModel) -> bool {
    m.payload matches Some(p) ==> is_supported(m.ty) && payload_fits(p)
}

/// Marker and bytes of one column's value.
pub open spec fn cell_bytes(m: ScalarModel) -> Seq<u8> {
    match m.payload {
        None => seq![0u8],
        Some(p) => seq![1u8] + payload_bytes(layout(m.ty), p),
    }
}

/// The bytes of a row.
pub open spec fn row_bytes(cells: Seq<ScalarModel>) -> Seq<u8>
    decreases cells.len(),
{
    if cells.len() == 0 {
        Seq::empty()
    } else {
        row_bytes(cells.drop_last()) + cell_bytes(cells.last())
    }
}

/// The name of a unit in a type's name.
pub open spec fn unit_text(u: TimeUnit) -> Seq<char> {
    match u {
        TimeUnit::Second => "s"@,
        TimeUnit::Millisecond => "ms"@,
        TimeUnit::Microsecond => "µs"@,
        TimeUnit::Nanosecond => "ns"@,
    }
}

/// The name of a type that rows cannot hold.
pub open spec fn unsupported_name(ty: TypeModel) -> Seq<char> {
    match ty {
        TypeModel::Other(n, _) => n,
        TypeModel::Time32(u) => "Time32("@ + unit_text(u) + ")"@,
        TypeModel::Time64(u) => "Time64("@ + unit_text(u) + ")"@,
        _ => "Null"@,
    }
}

/// Why a value cannot be stored.
pub open spec fn is_store_error(e: EngineError, m: ScalarModel) -> bool {
    if !is_supported(m.ty) {
        e.is_message("row codec: unsupported value type "@ + unsupported_name(m.ty))
    } else {
        e.is_out_of_range("row value > u32::MAX")
    }
}

fn put_len_prefixed(out: &mut Vec<u8>, bytes: &[u8]) -> (r: Result<()>)
    ensures
        r is Ok <==> bytes@.len() <= u32::MAX,
        r is Ok ==> final(out)@ == old(out)@ + prefixed(bytes@),
        r matches Err(e) ==> e.is_out_of_range("row value > u32::MAX"),
{
    if bytes.len() as u64 > u32::MAX as u64 {
        return Err(EngineError::OutOfRange("row value > u32::MAX"));
    }
    push_u32(out, bytes.len() as u32);
    append_bytes(out, bytes);
    assert(out@ =~= old(out)@ + prefixed(bytes@));
    Ok(())
}

/// Appends the bytes of a non-null value.
#[verifier::rlimit(40)]
#[verifier::spinoff_prover]
fn scalar_to_value_bytes(out: &mut Vec<u8>, scalar: &ScalarValue) -> (r: Result<()>)
    requires
        scalar@.payload is Some,
    ensures
        r is Ok <==> storable(scalar@),
        r is Ok ==> final(out)@ == old(out)@ + payload_bytes(
            layout(scalar@.ty),
            scalar@.payload->0,
        ),
        r matches Err(e) ==> is_store_error(e, scalar@),
{
    proof {
        reveal(layout);
    }
    match scalar {
        ScalarValue::Int8(Some(v)) => {
            out.push(*v as u8);
        },
        ScalarValue::Int16(Some(v)) => {
            push_u16(out, *v as u16);
        },
        ScalarValue::Int32(Some(v)) => {
            push_u32(out, *v as u32);
        },
        ScalarValue::Int64(Some(v)) => {
            push_u64(out, *v as u64);
        },
        ScalarValue::UInt8(Some(v)) => {
            out.push(*v);
        },
        ScalarValue::UInt16(Some(v)) => {
            push_u16(out, *v);
        },
        ScalarValue::UInt32(Some(v)) => {
            push_u32(out, *v);
        },
        ScalarValue::UInt64(Some(v)) => {
            push_u64(out, *v);
        },
        ScalarValue::Float32(Some(v)) => {
            push_u32(out, *v);
        },
        ScalarValue::Float64(Some(v)) => {
            push_u64(out, *v);
        },
        ScalarValue::Boolean(Some(v)) => {
            let b: u8 = if *v {
                1
            } else {
                0
            };
            out.push(b);
        },
        ScalarValue::Utf8(Some(v)) => {
            return put_len_prefixed(out, v.as_str().as_bytes());
        },
        ScalarValue::LargeUtf8(Some(v)) => {
            return put_len_prefixed(out, v.as_str().as_bytes());
        },
        ScalarValue::Binary(Some(v)) => {
            return put_len_prefixed(out, v.as_slice());
        },
        ScalarValue::LargeBinary(Some(v)) => {
            return put_len_prefixed(out, v.as_slice());
        },
        ScalarValue::Date32(Some(v)) => {
            push_u32(out, *v as u32);
        },
        ScalarValue::Date64(Some(v)) => {
            push_u64(out, *v as u64);
        },
        ScalarValue::TimestampSecond(Some(v), _) => {
            push_u64(out, *v as u64);
        },
        ScalarValue::TimestampMillisecond(Some(v), _) => {
            push_u64(out, *v as u64);
        },
        ScalarValue::TimestampMicrosecond(Some(v), _) => {
            push_u64(out, *v as u64);
        },
        ScalarValue::TimestampNanosecond(Some(v), _) => {
            push_u64(out, *v as u64);
        },
        ScalarValue::Time32Second(Some(v)) => {
            push_u32(out, *v as u32);
        },
        ScalarValue::Time32Millisecond(Some(v)) => {
            push_u32(out, *v as u32);
        },
        ScalarValue::Time64Microsecond(Some(v)) => {
            push_u64(out, *v as u64);
        },
        ScalarValue::Time64Nanosecond(Some(v)) => {
            push_u64(out, *v as u64);
        },
        ScalarValue::IntervalYearMonth(Some(v)) => {
            push_u32(out, *v as u32);
        },
        ScalarValue::IntervalDayTime(Some(v)) => {
            push_u32(out, v.days as u32);
            push_u32(out, v.milliseconds as u32);
        },
        ScalarValue::IntervalMonthDayNano(Some(v)) => {
            push_u32(out, v.months as u32);
            push_u32(out, v.days as u32);
            push_u64(out, v.nanoseconds as u64);
        },
        ScalarValue::DurationSecond(Some(v)) => {
            push_u64(out, *v as u64);
        },
        ScalarValue::DurationMillisecond(Some(v)) => {
            push_u64(out, *v as u64);
        },
        ScalarValue::DurationMicrosecond(Some(v)) => {
            push_u64(out, *v as u64);
        },
        ScalarValue::DurationNanosecond(Some(v)) => {
            push_u64(out, *v as u64);
        },
        ScalarValue::Other(other) => {
            let mut text: String = "row codec: unsupported value type ".to_owned();
            text.append(other.name.as_str());
            return Err(EngineError::CorruptMessage(text));
        },
        _ => {
            assert(false);
        },
    }
    assert(out@ =~= old(out)@ + payload_bytes(layout(scalar@.ty), scalar@.payload->0));
    Ok(())
}

/// Encodes the columns `cols` of row `row`, in that order: one marker byte
/// per column, followed by the value if it is not null.
pub fn encode_row_narrow(batch: &ColumnBatch, row: usize, cols: &[usize]) -> (r: Result<Vec<u8>>)
    requires
        batch.wf(),
        row < batch.num_rows,
        forall|i: int| 0 <= i < cols@.len() ==> #[trigger] cols@[i] < batch.columns@.len(),
    ensures
        ({
            let cells = pick(batch.row(row as int), cols@);
            &&& r is Ok <==> forall|i: int| 0 <= i < cells.len() ==> storable(#[trigger] cells[i])
            &&& r matches Ok(b) ==> b@ == row_bytes(cells)
            &&& r matches Err(e) ==> exists|i: int|
                0 <= i < cells.len() && !storable(#[trigger] cells[i]) && is_store_error(
                    e,
                    cells[i],
                ) && forall|j: int| 0 <= j < i ==> storable(#[trigger] cells[j])
        }),
{
    let ghost cells = pick(batch.row(row as int), cols@);
    let mut out: Vec<u8> = Vec::new();
    let mut i: usize = 0;
    assert(out@ =~= row_bytes(cells.take(0)));
    while i < cols.len()
        invariant
            batch.wf(),
            row < batch.num_rows,
            forall|i: int| 0 <= i < cols@.len() ==> #[trigger] cols@[i] < batch.columns@.len(),
            cells == pick(batch.row(row as int), cols@),
            i <= cols@.len(),
            out@ == row_bytes(cells.take(i as int)),
            forall|j: int| 0 <= j < i ==> storable(#[trigger] cells[j]),
        decreases cols@.len() - i,
    {
        let col: usize = cols[i];
        let column = &batch.columns[col];
        let scalar = &column[row];
        assert(batch.cells()[col as int][row as int] == scalar@);
        assert(cells[i as int] == scalar@);
        assert(cells.take(i + 1).drop_last() =~= cells.take(i as int));
        assert(cells.take(i + 1).last() == cells[i as int]);
        let ghost before = out@;
        if scalar.is_null() {
            out.push(0);
            assert(out@ =~= before + cell_bytes(scalar@));
        } else {
            out.push(1);
            match scalar_to_value_bytes(&mut out, scalar) {
                Ok(()) => {},
                Err(e) => {
                    return Err(e);
                },
            }
            assert(out@ =~= before + cell_bytes(scalar@));
        }
        i += 1;
    }
    assert(cells.take(i as int) =~= cells);
    Ok(out)
}

/// The values of `row` at the places `cols`.
pub open spec fn pick(row: Seq<ScalarModel>, cols: Seq<usize>) -> Seq<ScalarModel> {
    cols.map_values(|c: usize| row[c as int])
}

/// Encodes row `row` of `batch`.
pub fn encode_row(batch: &ColumnBatch, row: usize) -> (r: Result<Vec<u8>>)
    requires
        batch.wf(),
        row < batch.num_rows,
    ensures
        ({
            let cells = batch.row(row as int);
            &&& r is Ok <==> forall|i: int| 0 <= i < cells.len() ==> storable(#[trigger] cells[i])
            &&& r matches Ok(b) ==> b@ == row_bytes(cells)
            &&& r matches Err(e) ==> exists|i: int|
                0 <= i < cells.len() && !storable(#[trigger] cells[i]) && is_store_error(
                    e,
                    cells[i],
                ) && forall|j: int| 0 <= j < i ==> storable(#[trigger] cells[j])
        }),
{
    let cols = all_columns(batch.columns.len());
    assert(pick(batch.row(row as int), cols@) =~= batch.row(row as int));
    encode_row_narrow(batch, row, cols.as_slice())
}

fn all_columns(n: usize) -> (r: Vec<usize>)
    ensures
        r@.len() == n,
        forall|i: int| 0 <= i < n ==> #[trigger] r@[i] == i,
{
    let mut out: Vec<usize> = Vec::new();
    let mut i: usize = 0;
    while i < n
        invariant
            i <= n,
            out@.len() == i,
            forall|j: int| 0 <= j < i ==> #[trigger] out@[j] == j,
        decreases n - i,
    {
        out.push(i);
        i += 1;
    }
    out
}

// ── Decoding ──────────────────────────────────────────────────────────────

/// Why a row cannot be decoded.
#[verifier::ext_equal]
pub enum Fault {
    /// The row ends before a column's marker.
    NoMarker,
    /// The row ends within a fixed-width value.
    CutValue,
    /// The row ends within a length.
    CutLength,
    /// The row ends within a length-prefixed value.
    CutPayload,
    /// A text is not UTF-8.
    NotUtf8,
    /// Rows cannot hold the column's type.
    Unsupported(Seq<char>),
}

/// `e` is the error for a fault.
pub open spec fn is_fault(e: EngineError, f: Fault) -> bool {
    match f {
        Fault::NoMarker => e.is_corrupt("row codec: truncated null marker"),
        Fault::CutValue => e.is_corrupt("row codec: truncated value"),
        Fault::CutLength => e.is_corrupt("row codec: truncated length"),
        Fault::CutPayload => e.is_corrupt("row codec: truncated payload"),
        Fault::NotUtf8 => e.is_corrupt("row codec: non-UTF8 string"),
        Fault::Unsupported(n) => e.is_message("row codec: unsupported column type "@ + n),
    }
}

/// The integer of `n` bytes at `at`.
pub open spec fn fixed_int(s: Seq<u8>, at: int, n: nat, signed: bool) -> int {
    if n == 1 {
        if signed {
            (s[at] as i8) as int
        } else {
            s[at] as int
        }
    } else if n == 2 {
        if signed {
            (u16_at(s, at) as i16) as int
        } else {
            u16_at(s, at) as int
        }
    } else if n == 4 {
        if signed {
            (u32_at(s, at) as i32) as int
        } else {
            u32_at(s, at) as int
        }
    } else {
        if signed {
            (u64_at(s, at) as i64) as int
        } else {
            u64_at(s, at) as int
        }
    }
}

/// The value at `at` and where it ends, by the layout of its type.
pub open spec fn payload_at(
    s: Seq<u8>,
    at: int,
    l: Layout,
    ty: TypeModel,
) -> std::result::Result<(Payload, int), Fault> {
    match l {
        Layout::Fixed(n, signed) => if at + n > s.len() {
            Err(Fault::CutValue)
        } else {
            Ok((Payload::Int(fixed_int(s, at, n, signed)), at + n))
        },
        Layout::Flag => if at + 1 > s.len() {
            Err(Fault::CutValue)
        } else {
            Ok((Payload::Flag(s[at] != 0), at + 1))
        },
        Layout::Text => match prefixed_at(s, at) {
            Err(f) => Err(f),
            Ok((b, end)) => if valid_utf8(b) {
                Ok((Payload::Text(decode_utf8(b)), end))
            } else {
                Err(Fault::NotUtf8)
            },
        },
        Layout::Blob => match prefixed_at(s, at) {
            Err(f) => Err(f),
            Ok((b, end)) => Ok((Payload::Blob(b), end)),
        },
        Layout::DayTime => if at + 8 > s.len() {
            Err(Fault::CutValue)
        } else {
            Ok((Payload::DayTime(u32_at(s, at) as i32, u32_at(s, at + 4) as i32), at + 8))
        },
        Layout::MonthDayNano => if at + 16 > s.len() {
            Err(Fault::CutValue)
        } else {
            Ok(
                (
                    Payload::MonthDayNano(
                        u32_at(s, at) as i32,
                        u32_at(s, at + 4) as i32,
                        u64_at(s, at + 8) as i64,
                    ),
                    at + 16,
                ),
            )
        },
        Layout::Unsupported => Err(Fault::Unsupported(unsupported_name(ty))),
    }
}

/// The length-prefixed bytes at `at`, and where they end.
pub open spec fn prefixed_at(s: Seq<u8>, at: int) -> std::result::Result<(Seq<u8>, int), Fault> {
    if at + 4 > s.len() {
        Err(Fault::CutLength)
    } else {
        match take_prefixed(s, at) {
            Some(p) => Ok(p),
            None => Err(Fault::CutPayload),
        }
    }
}

/// The value of type `ty` at `at`, and where it ends.
pub open spec fn value_at(
    s: Seq<u8>,
    at: int,
    ty: TypeModel,
) -> std::result::Result<(ScalarModel, int), Fault> {
    match payload_at(s, at, layout(ty), ty) {
        Ok((p, end)) => Ok((present(ty, p), end)),
        Err(f) => Err(f),
    }
}

/// The column value at `at`, marker first, and where it ends.
pub open spec fn cell_at(
    s: Seq<u8>,
    at: int,
    ty: TypeModel,
) -> std::result::Result<(ScalarModel, int), Fault> {
    if at >= s.len() {
        Err(Fault::NoMarker)
    } else if s[at] == 0 {
        Ok((null_of(ty), at + 1))
    } else {
        value_at(s, at + 1, ty)
    }
}

/// The values of a row whose columns have the given types, and where they end.
pub open spec fn cells_of(
    s: Seq<u8>,
    types: Seq<TypeModel>,
) -> std::result::Result<(Seq<ScalarModel>, int), Fault>
    decreases types.len(),
{
    if types.len() == 0 {
        Ok((Seq::empty(), 0))
    } else {
        match cells_of(s, types.drop_last()) {
            Err(f) => Err(f),
            Ok((front, at)) => match cell_at(s, at, types.last()) {
                Err(f) => Err(f),
                Ok((m, end)) => Ok((front.push(m), end)),
            },
        }
    }
}

/// `String::from_utf8` accepts exactly valid UTF-8 and gives its characters.
#[verifier::external_body]
fn utf8_text(bytes: Vec<u8>) -> (r: Option<String>)
    ensures
        r is Some <==> valid_utf8(bytes@),
        r matches Some(s) ==> s@ == decode_utf8(bytes@),
{
    String::from_utf8(bytes).ok()
}

fn take_len_prefixed(bytes: &[u8], pos: usize) -> (r: Result<(Vec<u8>, usize)>)
    requires
        pos <= bytes@.len(),
    ensures
        match prefixed_at(bytes@, pos as int) {
            Ok((b, end)) => r matches Ok(p) && p.0@ == b && p.1 == end && end <= bytes@.len(),
            Err(f) => r matches Err(e) && is_fault(e, f),
        },
{
    if bytes.len() - pos < 4 {
        return Err(EngineError::Corrupt("row codec: truncated length"));
    }
    let n: usize = read_u32(bytes, pos) as usize;
    if n > bytes.len() - pos - 4 {
        return Err(EngineError::Corrupt("row codec: truncated payload"));
    }
    let mut out: Vec<u8> = Vec::new();
    append_bytes(&mut out, slice_subrange(bytes, pos + 4, pos + 4 + n));
    assert(out@ =~= bytes@.subrange(pos + 4, pos + 4 + n));
    Ok((out, pos + 4 + n))
}

fn take_text(bytes: &[u8], pos: usize) -> (r: Result<(String, usize)>)
    requires
        pos <= bytes@.len(),
    ensures
        match payload_at(bytes@, pos as int, Layout::Text, TypeModel::Utf8) {
            Ok((p, end)) => r matches Ok(t) && p == Payload::Text(t.0@) && t.1 == end && end
                <= bytes@.len(),
            Err(f) => r matches Err(e) && is_fault(e, f),
        },
{
    match take_len_prefixed(bytes, pos) {
        Err(e) => Err(e),
        Ok((b, end)) => match utf8_text(b) {
            Some(s) => Ok((s, end)),
            None => Err(EngineError::Corrupt("row codec: non-UTF8 string")),
        },
    }
}

fn unit_name(u: TimeUnit) -> (r: String)
    ensures
        r@ == unit_text(u),
{
    match u {
        TimeUnit::Second => "s".to_owned(),
        TimeUnit::Millisecond => "ms".to_owned(),
        TimeUnit::Microsecond => "µs".to_owned(),
        TimeUnit::Nanosecond => "ns".to_owned(),
    }
}

fn unsupported_column(data_type: &DataType) -> (r: EngineError)
    ensures
        is_fault(r, Fault::Unsupported(unsupported_name(data_type@))),
{
    let mut text: String = "row codec: unsupported column type ".to_owned();
    let ghost head = text@;
    match data_type {
        DataType::Other(n) => {
            text.append(n.as_str());
        },
        DataType::Time32(u) => {
            text.append("Time32(");
            let unit = unit_name(*u);
            text.append(unit.as_str());
            text.append(")");
        },
        DataType::Time64(u) => {
            text.append("Time64(");
            let unit = unit_name(*u);
            text.append(unit.as_str());
            text.append(")");
        },
        _ => {
            text.append("Null");
        },
    }
    assert(text@ =~= head + unsupported_name(data_type@));
    EngineError::CorruptMessage(text)
}

fn number_value(bytes: &[u8], pos: usize, data_type: &DataType) -> (r: Result<(ScalarValue, usize)>)
    requires
        pos <= bytes@.len(),
        data_type is Int8 || data_type is Int16 || data_type is Int32 || data_type is Int64 || data_type is UInt8 || data_type is UInt16 || data_type is UInt32 || data_type is UInt64 || data_type is Float32 || data_type is Float64 || data_type is Boolean,
    ensures
        match value_at(bytes@, pos as int, data_type@) {
            Ok((m, end)) => r matches Ok(p) && p.0@ == m && p.1 == end && end <= bytes@.len(),
            Err(f) => r matches Err(e) && is_fault(e, f),
        },
{
    proof {
        reveal(layout);
    }
    let left: usize = bytes.len() - pos;
    match data_type {
        DataType::Int8 => {
            if left < 1 {
                return Err(EngineError::Corrupt("row codec: truncated value"));
            }
            Ok((ScalarValue::Int8(Some(bytes[pos] as i8)), pos + 1))
        },
        DataType::Int16 => {
            if left < 2 {
                return Err(EngineError::Corrupt("row codec: truncated value"));
            }
            Ok((ScalarValue::Int16(Some(read_u16(bytes, pos) as i16)), pos + 2))
        },
        DataType::Int32 => {
            if left < 4 {
                return Err(EngineError::Corrupt("row codec: truncated value"));
            }
            Ok((ScalarValue::Int32(Some(read_u32(bytes, pos) as i32)), pos + 4))
        },
        DataType::Int64 => {
            if left < 8 {
                return Err(EngineError::Corrupt("row codec: truncated value"));
            }
            Ok((ScalarValue::Int64(Some(read_u64(bytes, pos) as i64)), pos + 8))
        },
        DataType::UInt8 => {
            if left < 1 {
                return Err(EngineError::Corrupt("row codec: truncated value"));
            }
            Ok((ScalarValue::UInt8(Some(bytes[pos])), pos + 1))
        },
        DataType::UInt16 => {
            if left < 2 {
                return Err(EngineError::Corrupt("row codec: truncated value"));
            }
            Ok((ScalarValue::UInt16(Some(read_u16(bytes, pos))), pos + 2))
        },
        DataType::UInt32 => {
            if left < 4 {
                return Err(EngineError::Corrupt("row codec: truncated value"));
            }
            Ok((ScalarValue::UInt32(Some(read_u32(bytes, pos))), pos + 4))
        },
        DataType::UInt64 => {
            if left < 8 {
                return Err(EngineError::Corrupt("row codec: truncated value"));
            }
            Ok((ScalarValue::UInt64(Some(read_u64(bytes, pos))), pos + 8))
        },
        DataType::Float32 => {
            if left < 4 {
                return Err(EngineError::Corrupt("row codec: truncated value"));
            }
            Ok((ScalarValue::Float32(Some(read_u32(bytes, pos))), pos + 4))
        },
        DataType::Float64 => {
            if left < 8 {
                return Err(EngineError::Corrupt("row codec: truncated value"));
            }
            Ok((ScalarValue::Float64(Some(read_u64(bytes, pos))), pos + 8))
        },
        DataType::Boolean => {
            if left < 1 {
                return Err(EngineError::Corrupt("row codec: truncated value"));
            }
            Ok((ScalarValue::Boolean(Some(bytes[pos] != 0)), pos + 1))
        },
        _ => Err(unsupported_column(data_type)),
    }
}

fn text_value(bytes: &[u8], pos: usize, data_type: &DataType) -> (r: Result<(ScalarValue, usize)>)
    requires
        pos <= bytes@.len(),
        data_type is Utf8 || data_type is LargeUtf8 || data_type is Binary || data_type is LargeBinary,
    ensures
        match value_at(bytes@, pos as int, data_type@) {
            Ok((m, end)) => r matches Ok(p) && p.0@ == m && p.1 == end && end <= bytes@.len(),
            Err(f) => r matches Err(e) && is_fault(e, f),
        },
{
    proof {
        reveal(layout);
    }
    match data_type {
        DataType::Utf8 => {
            match take_text(bytes, pos) {
                Ok((s, end)) => Ok((ScalarValue::Utf8(Some(s)), end)),
                Err(e) => Err(e),
            }
        },
        DataType::LargeUtf8 => {
            match take_text(bytes, pos) {
                Ok((s, end)) => Ok((ScalarValue::LargeUtf8(Some(s)), end)),
                Err(e) => Err(e),
            }
        },
        DataType::Binary => {
            match take_len_prefixed(bytes, pos) {
                Ok((b, end)) => Ok((ScalarValue::Binary(Some(b)), end)),
                Err(e) => Err(e),
            }
        },
        DataType::LargeBinary => {
            match take_len_prefixed(bytes, pos) {
                Ok((b, end)) => Ok((ScalarValue::LargeBinary(Some(b)), end)),
                Err(e) => Err(e),
            }
        },
        _ => Err(unsupported_column(data_type)),
    }
}

fn instant_value(bytes: &[u8], pos: usize, data_type: &DataType) -> (r: Result<(ScalarValue, usize)>)
    requires
        pos <= bytes@.len(),
        data_type is Date32 || data_type is Date64 || data_type is Timestamp,
    ensures
        match value_at(bytes@, pos as int, data_type@) {
            Ok((m, end)) => r matches Ok(p) && p.0@ == m && p.1 == end && end <= bytes@.len(),
            Err(f) => r matches Err(e) && is_fault(e, f),
        },
{
    proof {
        reveal(layout);
    }
    let left: usize = bytes.len() - pos;
    match data_type {
        DataType::Date32 => {
            if left < 4 {
                return Err(EngineError::Corrupt("row codec: truncated value"));
            }
            Ok((ScalarValue::Date32(Some(read_u32(bytes, pos) as i32)), pos + 4))
        },
        DataType::Date64 => {
            if left < 8 {
                return Err(EngineError::Corrupt("row codec: truncated value"));
            }
            Ok((ScalarValue::Date64(Some(read_u64(bytes, pos) as i64)), pos + 8))
        },
        DataType::Timestamp(TimeUnit::Second, tz) => {
            if left < 8 {
                return Err(EngineError::Corrupt("row codec: truncated value"));
            }
            Ok((ScalarValue::TimestampSecond(Some(read_u64(bytes, pos) as i64), clone_text(tz)), pos + 8))
        },
        DataType::Timestamp(TimeUnit::Millisecond, tz) => {
            if left < 8 {
                return Err(EngineError::Corrupt("row codec: truncated value"));
            }
            Ok((ScalarValue::TimestampMillisecond(Some(read_u64(bytes, pos) as i64), clone_text(tz)), pos + 8))
        },
        DataType::Timestamp(TimeUnit::Microsecond, tz) => {
            if left < 8 {
                return Err(EngineError::Corrupt("row codec: truncated value"));
            }
            Ok((ScalarValue::TimestampMicrosecond(Some(read_u64(bytes, pos) as i64), clone_text(tz)), pos + 8))
        },
        DataType::Timestamp(TimeUnit::Nanosecond, tz) => {
            if left < 8 {
                return Err(EngineError::Corrupt("row codec: truncated value"));
            }
            Ok((ScalarValue::TimestampNanosecond(Some(read_u64(bytes, pos) as i64), clone_text(tz)), pos + 8))
        },
        _ => Err(unsupported_column(data_type)),
    }
}

fn span_value(bytes: &[u8], pos: usize, data_type: &DataType) -> (r: Result<(ScalarValue, usize)>)
    requires
        pos <= bytes@.len(),
        data_type is Time32 || data_type is Time64 || data_type is Duration,
    ensures
        match value_at(bytes@, pos as int, data_type@) {
            Ok((m, end)) => r matches Ok(p) && p.0@ == m && p.1 == end && end <= bytes@.len(),
            Err(f) => r matches Err(e) && is_fault(e, f),
        },
{
    proof {
        reveal(layout);
    }
    let left: usize = bytes.len() - pos;
    match data_type {
        DataType::Time32(TimeUnit::Second) => {
            if left < 4 {
                return Err(EngineError::Corrupt("row codec: truncated value"));
            }
            Ok((ScalarValue::Time32Second(Some(read_u32(bytes, pos) as i32)), pos + 4))
        },
        DataType::Time32(TimeUnit::Millisecond) => {
            if left < 4 {
                return Err(EngineError::Corrupt("row codec: truncated value"));
            }
            Ok((ScalarValue::Time32Millisecond(Some(read_u32(bytes, pos) as i32)), pos + 4))
        },
        DataType::Time64(TimeUnit::Microsecond) => {
            if left < 8 {
                return Err(EngineError::Corrupt("row codec: truncated value"));
            }
            Ok((ScalarValue::Time64Microsecond(Some(read_u64(bytes, pos) as i64)), pos + 8))
        },
        DataType::Time64(TimeUnit::Nanosecond) => {
            if left < 8 {
                return Err(EngineError::Corrupt("row codec: truncated value"));
            }
            Ok((ScalarValue::Time64Nanosecond(Some(read_u64(bytes, pos) as i64)), pos + 8))
        },
        DataType::Duration(TimeUnit::Second) => {
            if left < 8 {
                return Err(EngineError::Corrupt("row codec: truncated value"));
            }
            Ok((ScalarValue::DurationSecond(Some(read_u64(bytes, pos) as i64)), pos + 8))
        },
        DataType::Duration(TimeUnit::Millisecond) => {
            if left < 8 {
                return Err(EngineError::Corrupt("row codec: truncated value"));
            }
            Ok((ScalarValue::DurationMillisecond(Some(read_u64(bytes, pos) as i64)), pos + 8))
        },
        DataType::Duration(TimeUnit::Microsecond) => {
            if left < 8 {
                return Err(EngineError::Corrupt("row codec: truncated value"));
            }
            Ok((ScalarValue::DurationMicrosecond(Some(read_u64(bytes, pos) as i64)), pos + 8))
        },
        DataType::Duration(TimeUnit::Nanosecond) => {
            if left < 8 {
                return Err(EngineError::Corrupt("row codec: truncated value"));
            }
            Ok((ScalarValue::DurationNanosecond(Some(read_u64(bytes, pos) as i64)), pos + 8))
        },
        _ => Err(unsupported_column(data_type)),
    }
}

fn interval_value(bytes: &[u8], pos: usize, data_type: &DataType) -> (r: Result<(ScalarValue, usize)>)
    requires
        pos <= bytes@.len(),
        data_type is Interval,
    ensures
        match value_at(bytes@, pos as int, data_type@) {
            Ok((m, end)) => r matches Ok(p) && p.0@ == m && p.1 == end && end <= bytes@.len(),
            Err(f) => r matches Err(e) && is_fault(e, f),
        },
{
    proof {
        reveal(layout);
    }
    let left: usize = bytes.len() - pos;
    match data_type {
        DataType::Interval(IntervalUnit::YearMonth) => {
            if left < 4 {
                return Err(EngineError::Corrupt("row codec: truncated value"));
            }
            Ok((ScalarValue::IntervalYearMonth(Some(read_u32(bytes, pos) as i32)), pos + 4))
        },
        DataType::Interval(IntervalUnit::DayTime) => {
            if left < 8 {
                return Err(EngineError::Corrupt("row codec: truncated value"));
            }
            let days: i32 = read_u32(bytes, pos) as i32;
            let milliseconds: i32 = read_u32(bytes, pos + 4) as i32;
            let v = IntervalDayTime { days, milliseconds };
            Ok((ScalarValue::IntervalDayTime(Some(v)), pos + 8))
        },
        DataType::Interval(IntervalUnit::MonthDayNano) => {
            if left < 16 {
                return Err(EngineError::Corrupt("row codec: truncated value"));
            }
            let months: i32 = read_u32(bytes, pos) as i32;
            let days: i32 = read_u32(bytes, pos + 4) as i32;
            let nanoseconds: i64 = read_u64(bytes, pos + 8) as i64;
            let v = IntervalMonthDayNano { months, days, nanoseconds };
            Ok((ScalarValue::IntervalMonthDayNano(Some(v)), pos + 16))
        },
        _ => Err(unsupported_column(data_type)),
    }
}

/// Reads a value of type `data_type` at `pos`; returns it and where it ends.
pub fn value_bytes_to_scalar(
    bytes: &[u8],
    pos: usize,
    data_type: &DataType,
) -> (r: Result<(ScalarValue, usize)>)
    requires
        pos <= bytes@.len(),
    ensures
        match value_at(bytes@, pos as int, data_type@) {
            Ok((m, end)) => r matches Ok(p) && p.0@ == m && p.1 == end && end <= bytes@.len(),
            Err(f) => r matches Err(e) && is_fault(e, f),
        },
{
    match data_type {
        DataType::Utf8 | DataType::LargeUtf8 | DataType::Binary | DataType::LargeBinary => {
            text_value(bytes, pos, data_type)
        },
        DataType::Date32 | DataType::Date64 | DataType::Timestamp(_, _) => {
            instant_value(bytes, pos, data_type)
        },
        DataType::Time32(_) | DataType::Time64(_) | DataType::Duration(_) => {
            span_value(bytes, pos, data_type)
        },
        DataType::Interval(_) => interval_value(bytes, pos, data_type),
        DataType::Null | DataType::Other(_) => {
            proof {
                reveal(layout);
            }
            Err(unsupported_column(data_type))
        },
        _ => number_value(bytes, pos, data_type),
    }
}

fn decode_cell(bytes: &[u8], pos: usize, data_type: &DataType) -> (r: Result<(ScalarValue, usize)>)
    requires
        pos <= bytes@.len(),
    ensures
        match cell_at(bytes@, pos as int, data_type@) {
            Ok((m, end)) => r matches Ok(p) && p.0@ == m && p.1 == end && end <= bytes@.len(),
            Err(f) => r matches Err(e) && is_fault(e, f),
        },
{
    if pos == bytes.len() {
        return Err(EngineError::Corrupt("row codec: truncated null marker"));
    }
    if bytes[pos] == 0 {
        Ok((typed_null(data_type), pos + 1))
    } else {
        value_bytes_to_scalar(bytes, pos + 1, data_type)
    }
}

/// Decodes a row into `out`, one value per column; null columns become typed
/// nulls. What `out` held before is gone.
pub fn decode_row_into(bytes: &[u8], schema: &Schema, out: &mut Vec<ScalarValue>) -> (r: Result<()>)
    ensures
        match cells_of(bytes@, types_of(schema@)) {
            Ok((cells, _)) => r is Ok && scalar_models(final(out)@) == cells,
            Err(f) => r matches Err(e) && is_fault(e, f),
        },
{
    out.clear();
    let ghost types = types_of(schema@);
    let mut pos: usize = 0;
    let mut col: usize = 0;
    assert(scalar_models(out@) =~= Seq::<ScalarModel>::empty());
    while col < schema.fields.len()
        invariant
            col <= schema.fields@.len(),
            types == types_of(schema@),
            pos <= bytes@.len(),
            cells_of(bytes@, types.take(col as int)) == Ok::<(Seq<ScalarModel>, int), Fault>(
                (scalar_models(out@), pos as int),
            ),
        decreases schema.fields@.len() - col,
    {
        assert(types.take(col + 1).drop_last() =~= types.take(col as int));
        assert(types.take(col + 1).last() == schema.fields@[col as int].data_type@);
        match decode_cell(bytes, pos, &schema.fields[col].data_type) {
            Ok((scalar, next)) => {
                let ghost before = out@;
                let ghost m = scalar@;
                out.push(scalar);
                assert(scalar_models(out@) =~= scalar_models(before).push(m));
                pos = next;
            },
            Err(e) => {
                proof {
                    lemma_fault_stays(bytes@, types, col + 1);
                }
                return Err(e);
            },
        }
        col += 1;
    }
    assert(types.take(col as int) =~= types);
    Ok(())
}

proof fn lemma_fault_stays(s: Seq<u8>, types: Seq<TypeModel>, n: int)
    requires
        0 <= n <= types.len(),
        cells_of(s, types.take(n)) is Err,
    ensures
        cells_of(s, types) == cells_of(s, types.take(n)),
    decreases types.len() - n,
{
    if n < types.len() {
        assert(types.take(n + 1).drop_last() =~= types.take(n));
        lemma_fault_stays(s, types, n + 1);
    } else {
        assert(types.take(n) =~= types);
    }
}

/// Decodes a row, one value per column; null columns become typed nulls.
pub fn decode_row_values(bytes: &[u8], schema: &Schema) -> (r: Result<Vec<ScalarValue>>)
    ensures
        match cells_of(bytes@, types_of(schema@)) {
            Ok((cells, _)) => r matches Ok(v) && scalar_models(v@) == cells,
            Err(f) => r matches Err(e) && is_fault(e, f),
        },
{
    let mut out: Vec<ScalarValue> = Vec::new();
    match decode_row_into(bytes, schema, &mut out) {
        Ok(()) => Ok(out),
        Err(e) => Err(e),
    }
}

/// The values at the places `cols`; a place outside the row gives a bare null.
pub open spec fn pick_or_null(cells: Seq<ScalarModel>, cols: Seq<usize>) -> Seq<ScalarModel> {
    cols.map_values(
        |c: usize|
            if c < cells.len() {
                cells[c as int]
            } else {
                bare_null()
            },
    )
}

/// Decodes the columns `cols` of a full row, one value per entry of `cols` and
/// in that order; the other columns are skipped.
pub fn decode_row_columns(bytes: &[u8], schema: &Schema, cols: &[usize]) -> (r: Result<
    Vec<ScalarValue>,
>)
    ensures
        match cells_of(bytes@, types_of(schema@)) {
            Ok((cells, _)) => r matches Ok(v) && scalar_models(v@) == pick_or_null(cells, cols@),
            Err(f) => r matches Err(e) && is_fault(e, f),
        },
{
    let all = match decode_row_values(bytes, schema) {
        Ok(v) => v,
        Err(e) => {
            return Err(e);
        },
    };
    let ghost cells = scalar_models(all@);
    let mut out: Vec<ScalarValue> = Vec::new();
    let mut i: usize = 0;
    assert(scalar_models(out@) =~= pick_or_null(cells, cols@.take(0)));
    while i < cols.len()
        invariant
            i <= cols@.len(),
            cells == scalar_models(all@),
            scalar_models(out@) == pick_or_null(cells, cols@.take(i as int)),
        decreases cols@.len() - i,
    {
        let c: usize = cols[i];
        let v = if c < all.len() {
            all[c].clone()
        } else {
            ScalarValue::Null
        };
        let ghost m = v@;
        let ghost before = out@;
        out.push(v);
        assert(scalar_models(out@) =~= scalar_models(before).push(m));
        assert(pick_or_null(cells, cols@.take(i + 1)) =~= pick_or_null(
            cells,
            cols@.take(i as int),
        ).push(m));
        i += 1;
    }
    assert(cols@.take(i as int) =~= cols@);
    Ok(out)
}

/// Every index is a column of a schema of `n` columns.
pub open spec fn in_schema(cols: Seq<usize>, n: nat) -> bool {
    forall|i: int| 0 <= i < cols.len() ==> #[trigger] cols[i] < n
}

/// The types of the columns `cols`, in that order.
pub open spec fn picked_types(types: Seq<TypeModel>, cols: Seq<usize>) -> Seq<TypeModel> {
    cols.map_values(|c: usize| types[c as int])
}

/// The message for a column that the schema does not have.
pub open spec fn stray_column_text(col: nat, n: nat) -> Seq<char> {
    "row codec: column index "@ + decimal(col) + " out of range (schema has "@ + decimal(n)
        + " columns)"@
}

/// The error names the first index that is no column.
pub open spec fn is_stray_column(e: EngineError, cols: Seq<usize>, n: nat) -> bool {
    exists|i: int|
        0 <= i < cols.len() && #[trigger] cols[i] >= n && in_schema(cols.take(i), n)
            && e.is_message(stray_column_text(cols[i] as nat, n))
}

/// Decodes a row that holds the columns `cols` alone, in that order, as
/// `encode_row_narrow` writes it: one value per entry of `cols`, null columns
/// as typed nulls. An index that is no column of the schema is an error.
pub fn decode_row_narrow(bytes: &[u8], schema: &Schema, cols: &[usize]) -> (r: Result<
    Vec<ScalarValue>,
>)
    ensures
        if !in_schema(cols@, schema@.len()) {
            r matches Err(e) && is_stray_column(e, cols@, schema@.len())
        } else {
            match cells_of(bytes@, picked_types(types_of(schema@), cols@)) {
                Ok((cells, _)) => r matches Ok(v) && scalar_models(v@) == cells,
                Err(f) => r matches Err(e) && is_fault(e, f),
            }
        },
{
    let mut k: usize = 0;
    while k < cols.len()
        invariant
            k <= cols@.len(),
            in_schema(cols@.take(k as int), schema@.len()),
        decreases cols@.len() - k,
    {
        if cols[k] >= schema.len() {
            let mut text: String = "row codec: column index ".to_owned();
            push_decimal(&mut text, cols[k] as u64);
            text.append(" out of range (schema has ");
            push_decimal(&mut text, schema.len() as u64);
            text.append(" columns)");
            assert(text@ =~= stray_column_text(cols@[k as int] as nat, schema@.len()));
            return Err(EngineError::CorruptMessage(text));
        }
        proof {
            assert forall|i: int| 0 <= i < k + 1 implies #[trigger] cols@.take(k + 1)[i]
                < schema@.len() by {
                if i < k {
                    assert(cols@.take(k as int)[i] < schema@.len());
                }
            }
        }
        k += 1;
    }
    assert(cols@.take(k as int) =~= cols@);
    let ghost types = picked_types(types_of(schema@), cols@);
    let mut out: Vec<ScalarValue> = Vec::new();
    let mut pos: usize = 0;
    let mut i: usize = 0;
    assert(scalar_models(out@) =~= Seq::<ScalarModel>::empty());
    while i < cols.len()
        invariant
            i <= cols@.len(),
            in_schema(cols@, schema@.len()),
            types == picked_types(types_of(schema@), cols@),
            pos <= bytes@.len(),
            cells_of(bytes@, types.take(i as int)) == Ok::<(Seq<ScalarModel>, int), Fault>(
                (scalar_models(out@), pos as int),
            ),
        decreases cols@.len() - i,
    {
        let c: usize = cols[i];
        assert(types.take(i + 1).drop_last() =~= types.take(i as int));
        assert(types.take(i + 1).last() == schema.fields@[c as int].data_type@);
        match decode_cell(bytes, pos, &schema.fields[c].data_type) {
            Ok((scalar, next)) => {
                let ghost before = out@;
                let ghost m = scalar@;
                out.push(scalar);
                assert(scalar_models(out@) =~= scalar_models(before).push(m));
                pos = next;
            },
            Err(e) => {
                proof {
                    lemma_fault_stays(bytes@, types, i + 1);
                }
                return Err(e);
            },
        }
        i += 1;
    }
    assert(types.take(i as int) =~= types);
    Ok(out)
}

/// Decodes a row into a batch of one row.
pub fn decode_row(bytes: &[u8], schema: &Schema) -> (r: Result<ColumnBatch>)
    ensures
        match cells_of(bytes@, types_of(schema@)) {
            Ok((cells, _)) => {
                &&& r matches Ok(b)
                &&& b.wf()
                &&& b.num_rows == 1
                &&& b.schema@ == schema@
                &&& b.row(0) == cells
            },
            Err(f) => r matches Err(e) && is_fault(e, f),
        },
{
    let values = match decode_row_values(bytes, schema) {
        Ok(v) => v,
        Err(e) => {
            return Err(e);
        },
    };
    let ghost cells = scalar_models(values@);
    proof {
        lemma_cells_len(bytes@, types_of(schema@));
    }
    let mut columns: Vec<Vec<ScalarValue>> = Vec::new();
    let mut i: usize = 0;
    while i < values.len()
        invariant
            i <= values@.len(),
            cells == scalar_models(values@),
            columns@.len() == i,
            forall|c: int|
                0 <= c < i ==> (#[trigger] columns@[c])@.len() == 1 && columns@[c]@[0]@ == cells[c],
        decreases values@.len() - i,
    {
        let mut column: Vec<ScalarValue> = Vec::new();
        column.push(values[i].clone());
        columns.push(column);
        i += 1;
    }
    let b = ColumnBatch { schema: schema.clone(), columns, num_rows: 1 };
    assert(b.row(0) =~= cells);
    Ok(b)
}

/// A decoded row has one value per type.
pub proof fn lemma_cells_len(s: Seq<u8>, types: Seq<TypeModel>)
    ensures
        cells_of(s, types) matches Ok(p) ==> p.0.len() == types.len(),
    decreases types.len(),
{
    if types.len() > 0 {
        lemma_cells_len(s, types.drop_last());
    }
}

/// Makes `len` copies of a value for a column of type `target_type`; a bare
/// null becomes the typed null of the column.
pub fn scalar_to_array(sv: &ScalarValue, len: usize, target_type: &DataType) -> (r: Result<
    Vec<ScalarValue>,
>)
    ensures
        sv@.ty is Other ==> (r matches Err(e) && e.is_message(
            "scalar_to_array: unsupported ScalarValue variant "@ + unsupported_name(sv@.ty),
        )),
        sv@.ty !is Other ==> {
            &&& r matches Ok(v)
            &&& v@.len() == len
            &&& forall|i: int|
                0 <= i < len ==> (#[trigger] v@[i])@ == (if sv@ == bare_null() {
                    null_of(target_type@)
                } else {
                    sv@
                })
        },
{
    let item = match sv {
        ScalarValue::Null => typed_null(target_type),
        ScalarValue::Other(other) => {
            let mut text: String = "scalar_to_array: unsupported ScalarValue variant ".to_owned();
            text.append(other.name.as_str());
            return Err(EngineError::CorruptMessage(text));
        },
        _ => sv.clone(),
    };
    let mut out: Vec<ScalarValue> = Vec::new();
    let mut i: usize = 0;
    while i < len
        invariant
            i <= len,
            out@.len() == i,
            forall|j: int| 0 <= j < i ==> (#[trigger] out@[j])@ == item@,
        decreases len - i,
    {
        out.push(item.clone());
        i += 1;
    }
    Ok(out)
}

// ── Laws ──────────────────────────────────────────────────────────────────

proof fn lemma_i8(x: i8)
    ensures
        (x as u8) as i8 == x,
{
    assert((x as u8) as i8 == x) by (bit_vector);
}

proof fn lemma_i16(x: i16)
    ensures
        (x as u16) as i16 == x,
{
    assert((x as u16) as i16 == x) by (bit_vector);
}

proof fn lemma_i32(x: i32)
    ensures
        (x as u32) as i32 == x,
{
    assert((x as u32) as i32 == x) by (bit_vector);
}

proof fn lemma_i64(x: i64)
    ensures
        (x as u64) as i64 == x,
{
    assert((x as u64) as i64 == x) by (bit_vector);
}

proof fn lemma_fixed_reads_back(s: Seq<u8>, at: int, n: nat, signed: bool, i: int)
    requires
        n == 1 || n == 2 || n == 4 || n == 8,
        in_width(i, n, signed),
        0 <= at,
        at + n <= s.len(),
        s.subrange(at, at + n) == fixed_bytes(n, i),
    ensures
        fixed_int(s, at, n, signed) == i,
        fixed_bytes(n, i).len() == n,
{
    lemma_auto_spec_u16_to_from_le_bytes();
    lemma_auto_spec_u32_to_from_le_bytes();
    lemma_auto_spec_u64_to_from_le_bytes();
    let w = s.subrange(at, at + n);
    assert(w == fixed_bytes(n, i));
    if n == 1 {
        assert(w[0] == s[at]);
        assert(s[at] == i as u8);
        if signed {
            lemma_i8(i as i8);
        }
    } else if n == 2 {
        assert(spec_u16_to_le_bytes(i as u16).len() == 2);
        assert(u16_at(s, at) == i as u16);
        if signed {
            lemma_i16(i as i16);
        }
    } else if n == 4 {
        assert(spec_u32_to_le_bytes(i as u32).len() == 4);
        assert(u32_at(s, at) == i as u32);
        if signed {
            lemma_i32(i as i32);
        }
    } else {
        assert(spec_u64_to_le_bytes(i as u64).len() == 8);
        assert(u64_at(s, at) == i as u64);
        if signed {
            lemma_i64(i as i64);
        }
    }
}

proof fn lemma_fixed_len(n: nat, i: int)
    requires
        n == 1 || n == 2 || n == 4 || n == 8,
    ensures
        fixed_bytes(n, i).len() == n,
{
    lemma_auto_spec_u16_to_from_le_bytes();
    lemma_auto_spec_u32_to_from_le_bytes();
    lemma_auto_spec_u64_to_from_le_bytes();
}

proof fn lemma_prefixed_reads_back(s: Seq<u8>, at: int, b: Seq<u8>)
    requires
        b.len() <= u32::MAX,
        0 <= at,
        at + 4 + b.len() <= s.len(),
        s.subrange(at, at + 4 + b.len()) == prefixed(b),
    ensures
        prefixed_at(s, at) == Ok::<(Seq<u8>, int), Fault>((b, at + 4 + b.len())),
{
    lemma_auto_spec_u32_to_from_le_bytes();
    let w = s.subrange(at, at + 4 + b.len());
    assert(s.subrange(at, at + 4) =~= w.subrange(0, 4));
    assert(prefixed(b).subrange(0, 4) =~= spec_u32_to_le_bytes(b.len() as u32));
    assert(s.subrange(at + 4, at + 4 + b.len()) =~= w.subrange(4, w.len() as int));
    assert(prefixed(b).subrange(4, prefixed(b).len() as int) =~= b);
}

/// A stored value is read back, wherever it stands.
proof fn lemma_payload_reads_back(s: Seq<u8>, at: int, ty: TypeModel, p: Payload)
    requires
        well_typed(present(ty, p)),
        storable(present(ty, p)),
        0 <= at,
        at + payload_bytes(layout(ty), p).len() <= s.len(),
        s.subrange(at, at + payload_bytes(layout(ty), p).len()) == payload_bytes(layout(ty), p),
    ensures
        payload_at(s, at, layout(ty), ty) == Ok::<(Payload, int), Fault>(
            (p, at + payload_bytes(layout(ty), p).len()),
        ),
{
    let l = layout(ty);
    let b = payload_bytes(l, p);
    let w = s.subrange(at, at + b.len());
    match l {
        Layout::Fixed(n, signed) => {
            lemma_layout_widths(ty);
            lemma_fixed_len(n, p->Int_0);
            lemma_fixed_reads_back(s, at, n, signed, p->Int_0);
        },
        Layout::Flag => {
            assert(w[0] == s[at]);
        },
        Layout::Text => {
            lemma_auto_spec_u32_to_from_le_bytes();
            let t = p->Text_0;
            lemma_prefixed_reads_back(s, at, encode_utf8(t));
            vstd::utf8::encode_utf8_valid_utf8(t);
            vstd::utf8::encode_utf8_decode_utf8(t);
        },
        Layout::Blob => {
            lemma_auto_spec_u32_to_from_le_bytes();
            lemma_prefixed_reads_back(s, at, p->Blob_0);
        },
        Layout::DayTime => {
            let (d, m) = (p->DayTime_0, p->DayTime_1);
            lemma_fixed_len(4, d as int);
            lemma_fixed_len(4, m as int);
            assert(s.subrange(at, at + 4) =~= w.subrange(0, 4));
            assert(b.subrange(0, 4) =~= fixed_bytes(4, d as int));
            assert(s.subrange(at + 4, at + 8) =~= w.subrange(4, 8));
            assert(b.subrange(4, 8) =~= fixed_bytes(4, m as int));
            lemma_fixed_reads_back(s, at, 4, true, d as int);
            lemma_fixed_reads_back(s, at + 4, 4, true, m as int);
        },
        Layout::MonthDayNano => {
            let (m, d, n) = (p->MonthDayNano_0, p->MonthDayNano_1, p->MonthDayNano_2);
            lemma_fixed_len(4, m as int);
            lemma_fixed_len(4, d as int);
            lemma_fixed_len(8, n as int);
            assert(s.subrange(at, at + 4) =~= w.subrange(0, 4));
            assert(b.subrange(0, 4) =~= fixed_bytes(4, m as int));
            assert(s.subrange(at + 4, at + 8) =~= w.subrange(4, 8));
            assert(b.subrange(4, 8) =~= fixed_bytes(4, d as int));
            assert(s.subrange(at + 8, at + 16) =~= w.subrange(8, 16));
            assert(b.subrange(8, 16) =~= fixed_bytes(8, n as int));
            lemma_fixed_reads_back(s, at, 4, true, m as int);
            lemma_fixed_reads_back(s, at + 4, 4, true, d as int);
            lemma_fixed_reads_back(s, at + 8, 8, true, n as int);
        },
        Layout::Unsupported => {
            lemma_layout_widths(ty);
        },
    }
}

proof fn lemma_layout_widths(ty: TypeModel)
    ensures
        layout(ty) matches Layout::Fixed(n, _) ==> n == 1 || n == 2 || n == 4 || n == 8,
        is_supported(ty) <==> layout(ty) !is Unsupported,
{
    reveal(layout);
}

/// The value that decoding gives back: the value itself, or the typed null of
/// its column.
pub open spec fn restored(m: ScalarModel, ty: TypeModel) -> ScalarModel {
    if m.payload is None {
        null_of(ty)
    } else {
        m
    }
}

/// The row's values can be stored, and each non-null one has the type of its
/// column.
pub open spec fn row_matches_types(cells: Seq<ScalarModel>, types: Seq<TypeModel>) -> bool {
    &&& cells.len() == types.len()
    &&& forall|i: int|
        0 <= i < cells.len() ==> {
            &&& well_typed(#[trigger] cells[i])
            &&& storable(cells[i])
            &&& cells[i].payload is Some ==> cells[i].ty == types[i]
        }
}

/// Decoding an encoded row gives the row back, with each null as the typed
/// null of its column, and stops where the encoded row ends.
pub proof fn law_row_round_trip(s: Seq<u8>, cells: Seq<ScalarModel>, types: Seq<TypeModel>)
    requires
        row_matches_types(cells, types),
        row_bytes(cells).len() <= s.len(),
        s.take(row_bytes(cells).len() as int) == row_bytes(cells),
    ensures
        cells_of(s, types) == Ok::<(Seq<ScalarModel>, int), Fault>(
            (
                Seq::new(cells.len(), |i: int| restored(cells[i], types[i])),
                row_bytes(cells).len() as int,
            ),
        ),
    decreases cells.len(),
{
    let want = Seq::new(cells.len(), |i: int| restored(cells[i], types[i]));
    if cells.len() == 0 {
        assert(want =~= Seq::<ScalarModel>::empty());
    } else {
        let init = cells.drop_last();
        let m = cells.last();
        let tys = types.drop_last();
        let ty = types.last();
        let front = row_bytes(init);
        let all = row_bytes(cells);
        let at = front.len() as int;
        assert(s.take(at) =~= all.take(at));
        assert(all.take(at) =~= front);
        assert forall|i: int| 0 <= i < init.len() implies {
            &&& well_typed(#[trigger] init[i])
            &&& storable(init[i])
            &&& init[i].payload is Some ==> init[i].ty == tys[i]
        } by {
            assert(init[i] == cells[i]);
        }
        law_row_round_trip(s, init, tys);
        assert(cells[cells.len() - 1] == m);
        let b = cell_bytes(m);
        assert(s.subrange(at, at + b.len()) =~= s.take(all.len() as int).subrange(
            at,
            at + b.len(),
        ));
        assert(all.subrange(at, at + b.len()) =~= b);
        assert(s[at] == s.subrange(at, at + b.len())[0]);
        if m.payload is Some {
            let p = m.payload->0;
            let v = payload_bytes(layout(ty), p);
            assert(s.subrange(at + 1, at + 1 + v.len()) =~= s.subrange(at, at + b.len()).subrange(
                1,
                b.len() as int,
            ));
            assert(b.subrange(1, b.len() as int) =~= v);
            lemma_payload_reads_back(s, at + 1, ty, p);
            assert(m == present(ty, p));
        }
        assert(want =~= Seq::new(init.len(), |i: int| restored(init[i], tys[i])).push(
            restored(m, ty),
        ));
    }
}

/// Decoding with `cols` what was encoded with `cols` gives back the cells of
/// those columns, in that order, with each null as the typed null of its
/// column, and uses every byte.
pub proof fn law_narrow_round_trip(row: Seq<ScalarModel>, types: Seq<TypeModel>, cols: Seq<usize>)
    requires
        row.len() == types.len(),
        in_schema(cols, types.len()),
        row_matches_types(pick(row, cols), picked_types(types, cols)),
    ensures
        cells_of(row_bytes(pick(row, cols)), picked_types(types, cols)) == Ok::<
            (Seq<ScalarModel>, int),
            Fault,
        >(
            (
                Seq::new(
                    cols.len(),
                    |i: int| restored(row[cols[i] as int], types[cols[i] as int]),
                ),
                row_bytes(pick(row, cols)).len() as int,
            ),
        ),
{
    let cells = pick(row, cols);
    let tys = picked_types(types, cols);
    let s = row_bytes(cells);
    assert(s.take(s.len() as int) =~= s);
    law_row_round_trip(s, cells, tys);
    assert(Seq::new(cells.len(), |i: int| restored(cells[i], tys[i])) =~= Seq::new(
        cols.len(),
        |i: int| restored(row[cols[i] as int], types[cols[i] as int]),
    ));
}

} // verus!
