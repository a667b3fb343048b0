//! The columnar layout of an SST.
//!
//! Every file has five base columns: `key`, `value` (null is a tombstone),
//! `begin_ts`, `end_ts` and `tombstone`. Where the table's schema is known at
//! write time, the row payloads are decoded as well and stored as business
//! columns named `col_0`, `col_1`, ... in schema order, so that a scan can
//! filter on them without decoding rows. This module builds the columns, reads
//! rows back from them, and builds the filters of lookups and scans; the file
//! format underneath stores columns and evaluates filters.

use crate::buf::{
    append_bytes, bytes_empty, bytes_slice, bytes_view, in_range, key_less, key_less_or_equal,
    keys_equal, lex_le, lex_lt, opt_bytes_clone, opt_bytes_view,
};
use crate::column_predicate::{
    column_of, predicate_models, row_satisfies, row_stays, satisfies, ColumnPredicate,
    PredicateModel,
};
use crate::error::{EngineError, Result};
use crate::key_index::untagged_rows;
use crate::memtable::{row_models, RowModel, VersionedRow};
use crate::row_codec::{cells_of, decode_row_values, lemma_cells_len};
use crate::scalar::{
    null_of, scalar_models, typed_null, DataType, Payload, ScalarModel, ScalarValue, TypeModel,
};
use crate::schema::{types_of, Schema};
use crate::text::{decimal, lemma_decimal_injective, push_decimal};
use crate::version::{Snapshot, VersionModel, VersionedValue};
use bytes::Bytes;
use vstd::prelude::*;
use vstd::utf8::encode_utf8;

verus! {

// ── Handles ───────────────────────────────────────────────────────────────

/// What is known of an SST once it is durably written.
#[derive(Debug, PartialEq, Eq)]
pub struct SstHandle {
    /// Logical file id assigned by the manifest.
    pub file_id: u64,
    /// Smallest key in the SST.
    pub min_key: Bytes,
    /// Largest key in the SST.
    pub max_key: Bytes,
    /// Number of rows written.
    pub rows: usize,
    /// Bytes on disk after encoding.
    pub bytes: u64,
}

impl Clone for SstHandle {
    fn clone(&self) -> (r: Self)
        ensures
            r.file_id == self.file_id,
            bytes_view(r.min_key) == bytes_view(self.min_key),
            bytes_view(r.max_key) == bytes_view(self.max_key),
            r.rows == self.rows,
            r.bytes == self.bytes,
    {
        SstHandle {
            file_id: self.file_id,
            min_key: self.min_key.clone(),
            max_key: self.max_key.clone(),
            rows: self.rows,
            bytes: self.bytes,
        }
    }
}

/// The key of the first row; empty where there is none.
pub open spec fn first_key(rs: Seq<RowModel>) -> Seq<u8> {
    if rs.len() == 0 {
        Seq::empty()
    } else {
        rs[0].key
    }
}

/// The key of the last row; empty where there is none.
pub open spec fn last_key(rs: Seq<RowModel>) -> Seq<u8> {
    if rs.len() == 0 {
        Seq::empty()
    } else {
        rs.last().key
    }
}

/// The handle describes a file of these rows.
pub open spec fn describes(h: SstHandle, rs: Seq<RowModel>, file_id: u64) -> bool {
    &&& h.file_id == file_id
    &&& bytes_view(h.min_key) == first_key(rs)
    &&& bytes_view(h.max_key) == last_key(rs)
    &&& h.rows == rs.len()
}

/// Makes the handle of a file of `bytes` bytes that holds the rows.
pub fn handle_for(rows: &[VersionedRow], file_id: u64, bytes: u64) -> (r: SstHandle)
    ensures
        describes(r, row_models(rows@), file_id),
        r.bytes == bytes,
{
    let n: usize = rows.len();
    let min_key = if n == 0 {
        bytes_empty()
    } else {
        rows[0].key.clone()
    };
    let max_key = if n == 0 {
        bytes_empty()
    } else {
        rows[n - 1].key.clone()
    };
    SstHandle { file_id, min_key, max_key, rows: n, bytes }
}

// ── Business columns ──────────────────────────────────────────────────────

/// What a stored column is made of.
#[derive(Debug, Clone, Copy, PartialEq, Eq, Structural)]
pub enum ArrayKind {
    /// Signed 8-bit integers.
    Int8,
    /// Signed 16-bit integers.
    Int16,
    /// Signed 32-bit integers.
    Int32,
    /// Signed 64-bit integers.
    Int64,
    /// Unsigned 8-bit integers.
    UInt8,
    /// Unsigned 16-bit integers.
    UInt16,
    /// Unsigned 32-bit integers.
    UInt32,
    /// Unsigned 64-bit integers.
    UInt64,
    /// Single-precision numbers, held as their bits.
    Float32,
    /// Double-precision numbers, held as their bits.
    Float64,
    /// Truth values.
    Flags,
    /// Byte strings.
    Blobs,
    /// Values stored by a description.
    Described,
}

/// One stored column. Beside the values of the fixed-width kinds stands which
/// of them are present; an absent one is held as zero.
#[derive(Debug)]
pub enum ColumnArray {
    /// Signed 8-bit integers.
    Int8(Vec<i8>, Vec<bool>),
    /// Signed 16-bit integers.
    Int16(Vec<i16>, Vec<bool>),
    /// Signed 32-bit integers.
    Int32(Vec<i32>, Vec<bool>),
    /// Signed 64-bit integers.
    Int64(Vec<i64>, Vec<bool>),
    /// Unsigned 8-bit integers.
    UInt8(Vec<u8>, Vec<bool>),
    /// Unsigned 16-bit integers.
    UInt16(Vec<u16>, Vec<bool>),
    /// Unsigned 32-bit integers.
    UInt32(Vec<u32>, Vec<bool>),
    /// Unsigned 64-bit integers.
    UInt64(Vec<u64>, Vec<bool>),
    /// Single-precision numbers, held as their bits.
    Float32(Vec<u32>, Vec<bool>),
    /// Double-precision numbers, held as their bits.
    Float64(Vec<u64>, Vec<bool>),
    /// Truth values.
    Flags(Vec<bool>, Vec<bool>),
    /// Byte strings.
    Blobs(Vec<Option<Vec<u8>>>),
    /// Values of the types without a column kind of their own: the file holds
    /// a description of each. The row payload stays authoritative.
    Described(Vec<Option<ScalarValue>>),
}

/// What a stored column says.
#[verifier::ext_equal]
pub struct ArrayModel {
    /// What it is made of.
    pub kind: ArrayKind,
    /// The values that are stored by a description, with their types.
    pub described: Seq<Option<ScalarModel>>,
    /// The values; none is null.
    pub cells: Seq<Option<Payload>>,
}

impl View for ColumnArray {
    type V = ArrayModel;

    open spec fn view(&self) -> ArrayModel {
        match *self {
            ColumnArray::Int8(values, valid) => ArrayModel {
                kind: ArrayKind::Int8,
                described: Seq::empty(),
                cells: Seq::new(
                    values@.len(),
                    |i: int|
                        if valid@[i] {
                            Some(Payload::Int(values@[i] as int))
                        } else {
                            None
                        },
                ),
            },
            ColumnArray::Int16(values, valid) => ArrayModel {
                kind: ArrayKind::Int16,
                described: Seq::empty(),
                cells: Seq::new(
                    values@.len(),
                    |i: int|
                        if valid@[i] {
                            Some(Payload::Int(values@[i] as int))
                        } else {
                            None
                        },
                ),
            },
            ColumnArray::Int32(values, valid) => ArrayModel {
                kind: ArrayKind::Int32,
                described: Seq::empty(),
                cells: Seq::new(
                    values@.len(),
                    |i: int|
                        if valid@[i] {
                            Some(Payload::Int(values@[i] as int))
                        } else {
                            None
                        },
                ),
            },
            ColumnArray::Int64(values, valid) => ArrayModel {
                kind: ArrayKind::Int64,
                described: Seq::empty(),
                cells: Seq::new(
                    values@.len(),
                    |i: int|
                        if valid@[i] {
                            Some(Payload::Int(values@[i] as int))
                        } else {
                            None
                        },
                ),
            },
            ColumnArray::UInt8(values, valid) => ArrayModel {
                kind: ArrayKind::UInt8,
                described: Seq::empty(),
                cells: Seq::new(
                    values@.len(),
                    |i: int|
                        if valid@[i] {
                            Some(Payload::Int(values@[i] as int))
                        } else {
                            None
                        },
                ),
            },
            ColumnArray::UInt16(values, valid) => ArrayModel {
                kind: ArrayKind::UInt16,
                described: Seq::empty(),
                cells: Seq::new(
                    values@.len(),
                    |i: int|
                        if valid@[i] {
                            Some(Payload::Int(values@[i] as int))
                        } else {
                            None
                        },
                ),
            },
            ColumnArray::UInt32(values, valid) => ArrayModel {
                kind: ArrayKind::UInt32,
                described: Seq::empty(),
                cells: Seq::new(
                    values@.len(),
                    |i: int|
                        if valid@[i] {
                            Some(Payload::Int(values@[i] as int))
                        } else {
                            None
                        },
                ),
            },
            ColumnArray::UInt64(values, valid) => ArrayModel {
                kind: ArrayKind::UInt64,
                described: Seq::empty(),
                cells: Seq::new(
                    values@.len(),
                    |i: int|
                        if valid@[i] {
                            Some(Payload::Int(values@[i] as int))
                        } else {
                            None
                        },
                ),
            },
            ColumnArray::Float32(values, valid) => ArrayModel {
                kind: ArrayKind::Float32,
                described: Seq::empty(),
                cells: Seq::new(
                    values@.len(),
                    |i: int|
                        if valid@[i] {
                            Some(Payload::Int(values@[i] as int))
                        } else {
                            None
                        },
                ),
            },
            ColumnArray::Float64(values, valid) => ArrayModel {
                kind: ArrayKind::Float64,
                described: Seq::empty(),
                cells: Seq::new(
                    values@.len(),
                    |i: int|
                        if valid@[i] {
                            Some(Payload::Int(values@[i] as int))
                        } else {
                            None
                        },
                ),
            },
            ColumnArray::Flags(values, valid) => ArrayModel {
                kind: ArrayKind::Flags,
                described: Seq::empty(),
                cells: Seq::new(
                    values@.len(),
                    |i: int|
                        if valid@[i] {
                            Some(Payload::Flag(values@[i]))
                        } else {
                            None
                        },
                ),
            },
            ColumnArray::Blobs(values) => ArrayModel {
                kind: ArrayKind::Blobs,
                described: Seq::empty(),
                cells: values@.map_values(
                    |v: Option<Vec<u8>>|
                        match v {
                            Some(b) => Some(Payload::Blob(b@)),
                            None => None,
                        },
                ),
            },
            ColumnArray::Described(values) => ArrayModel {
                kind: ArrayKind::Described,
                described: values@.map_values(
                    |v: Option<ScalarValue>|
                        match v {
                            Some(s) => Some(s@),
                            None => None,
                        },
                ),
                cells: values@.map_values(
                    |v: Option<ScalarValue>|
                        match v {
                            Some(s) => s@.payload,
                            None => None,
                        },
                ),
            },
        }
    }
}

impl ColumnArray {
    /// As many marks as values, and zero where a value is absent.
    pub open spec fn padded(&self) -> bool {
        match *self {
            ColumnArray::Int8(values, valid) => valid@.len() == values@.len() && forall|i: int|
                0 <= i < values@.len() && !valid@[i] ==> #[trigger] values@[i] == 0,
            ColumnArray::Int16(values, valid) => valid@.len() == values@.len() && forall|i: int|
                0 <= i < values@.len() && !valid@[i] ==> #[trigger] values@[i] == 0,
            ColumnArray::Int32(values, valid) => valid@.len() == values@.len() && forall|i: int|
                0 <= i < values@.len() && !valid@[i] ==> #[trigger] values@[i] == 0,
            ColumnArray::Int64(values, valid) => valid@.len() == values@.len() && forall|i: int|
                0 <= i < values@.len() && !valid@[i] ==> #[trigger] values@[i] == 0,
            ColumnArray::UInt8(values, valid) => valid@.len() == values@.len() && forall|i: int|
                0 <= i < values@.len() && !valid@[i] ==> #[trigger] values@[i] == 0,
            ColumnArray::UInt16(values, valid) => valid@.len() == values@.len() && forall|i: int|
                0 <= i < values@.len() && !valid@[i] ==> #[trigger] values@[i] == 0,
            ColumnArray::UInt32(values, valid) => valid@.len() == values@.len() && forall|i: int|
                0 <= i < values@.len() && !valid@[i] ==> #[trigger] values@[i] == 0,
            ColumnArray::UInt64(values, valid) => valid@.len() == values@.len() && forall|i: int|
                0 <= i < values@.len() && !valid@[i] ==> #[trigger] values@[i] == 0,
            ColumnArray::Float32(values, valid) => valid@.len() == values@.len() && forall|i: int|
                0 <= i < values@.len() && !valid@[i] ==> #[trigger] values@[i] == 0,
            ColumnArray::Float64(values, valid) => valid@.len() == values@.len() && forall|i: int|
                0 <= i < values@.len() && !valid@[i] ==> #[trigger] values@[i] == 0,
            ColumnArray::Flags(values, valid) => valid@.len() == values@.len() && forall|i: int|
                0 <= i < values@.len() && !valid@[i] ==> !#[trigger] values@[i],
            ColumnArray::Blobs(_) => true,
            ColumnArray::Described(_) => true,
        }
    }
}

/// The kind of column that a type is stored in.
pub open spec fn kind_of(ty: TypeModel) -> ArrayKind {
    match ty {
        TypeModel::Int8 => ArrayKind::Int8,
        TypeModel::Int16 => ArrayKind::Int16,
        TypeModel::Int32 => ArrayKind::Int32,
        TypeModel::Int64 => ArrayKind::Int64,
        TypeModel::UInt8 => ArrayKind::UInt8,
        TypeModel::UInt16 => ArrayKind::UInt16,
        TypeModel::UInt32 => ArrayKind::UInt32,
        TypeModel::UInt64 => ArrayKind::UInt64,
        TypeModel::Float32 => ArrayKind::Float32,
        TypeModel::Float64 => ArrayKind::Float64,
        TypeModel::Date32 => ArrayKind::Int32,
        TypeModel::Date64 => ArrayKind::Int64,
        TypeModel::Timestamp(_, _) => ArrayKind::Int64,
        TypeModel::Boolean => ArrayKind::Flags,
        TypeModel::Utf8 => ArrayKind::Blobs,
        TypeModel::LargeUtf8 => ArrayKind::Blobs,
        TypeModel::Binary => ArrayKind::Blobs,
        TypeModel::LargeBinary => ArrayKind::Blobs,
        _ => ArrayKind::Described,
    }
}

/// A column of type `ty` takes values of type `of`.
pub open spec fn takes(ty: TypeModel, of: TypeModel) -> bool {
    match ty {
        TypeModel::Timestamp(_, _) => of is Timestamp,
        TypeModel::Utf8 => of is Utf8 || of is LargeUtf8,
        TypeModel::LargeUtf8 => of is Utf8 || of is LargeUtf8,
        TypeModel::Binary => of is Binary || of is LargeBinary,
        TypeModel::LargeBinary => of is Binary || of is LargeBinary,
        _ => kind_of(ty) == ArrayKind::Described || of == ty,
    }
}

/// What a column of type `ty` stores of a scalar: its value, texts as bytes,
/// and null for a value of another type.
pub open spec fn stored_cell(ty: TypeModel, s: ScalarModel) -> Option<Payload> {
    if !takes(ty, s.ty) {
        None
    } else {
        match s.payload {
            Some(Payload::Text(t)) => Some(Payload::Blob(encode_utf8(t))),
            p => p,
        }
    }
}

/// The column that stores the scalars.
pub open spec fn stored_column(ty: TypeModel, ss: Seq<ScalarModel>) -> ArrayModel {
    ArrayModel {
        kind: kind_of(ty),
        described: Seq::empty(),
        cells: ss.map_values(|s: ScalarModel| stored_cell(ty, s)),
    }
}

fn int8_column(scalars: &[ScalarValue]) -> (r: ColumnArray)
    ensures
        r.padded(),
        r@ == stored_column(TypeModel::Int8, scalar_models(scalars@)),
{
    let ghost ss = scalar_models(scalars@);
    let ghost ty = TypeModel::Int8;
    let mut values: Vec<i8> = Vec::new();
    let mut valid: Vec<bool> = Vec::new();
    let mut i: usize = 0;
    while i < scalars.len()
        invariant
            ss == scalar_models(scalars@),
            ty == TypeModel::Int8,
            i <= scalars@.len(),
            values@.len() == i,
            valid@.len() == i,
            forall|j: int|
                0 <= j < i ==> stored_cell(ty, #[trigger] ss[j]) == (if valid@[j] {
                    Some(Payload::Int(values@[j] as int))
                } else {
                    None
                }),
            forall|j: int| 0 <= j < i && !valid@[j] ==> #[trigger] values@[j] == 0,
        decreases scalars@.len() - i,
    {
        assert(ss[i as int] == scalars@[i as int]@);
        match &scalars[i] {
            ScalarValue::Int8(Some(v)) => {
                values.push(*v);
                valid.push(true);
            },
            _ => {
                values.push(0);
                valid.push(false);
            },
        }
        i += 1;
    }
    let r = ColumnArray::Int8(values, valid);
    assert(r@ =~= stored_column(ty, ss));
    r
}

fn int16_column(scalars: &[ScalarValue]) -> (r: ColumnArray)
    ensures
        r.padded(),
        r@ == stored_column(TypeModel::Int16, scalar_models(scalars@)),
{
    let ghost ss = scalar_models(scalars@);
    let ghost ty = TypeModel::Int16;
    let mut values: Vec<i16> = Vec::new();
    let mut valid: Vec<bool> = Vec::new();
    let mut i: usize = 0;
    while i < scalars.len()
        invariant
            ss == scalar_models(scalars@),
            ty == TypeModel::Int16,
            i <= scalars@.len(),
            values@.len() == i,
            valid@.len() == i,
            forall|j: int|
                0 <= j < i ==> stored_cell(ty, #[trigger] ss[j]) == (if valid@[j] {
                    Some(Payload::Int(values@[j] as int))
                } else {
                    None
                }),
            forall|j: int| 0 <= j < i && !valid@[j] ==> #[trigger] values@[j] == 0,
        decreases scalars@.len() - i,
    {
        assert(ss[i as int] == scalars@[i as int]@);
        match &scalars[i] {
            ScalarValue::Int16(Some(v)) => {
                values.push(*v);
                valid.push(true);
            },
            _ => {
                values.push(0);
                valid.push(false);
            },
        }
        i += 1;
    }
    let r = ColumnArray::Int16(values, valid);
    assert(r@ =~= stored_column(ty, ss));
    r
}

fn int32_column(scalars: &[ScalarValue]) -> (r: ColumnArray)
    ensures
        r.padded(),
        r@ == stored_column(TypeModel::Int32, scalar_models(scalars@)),
{
    let ghost ss = scalar_models(scalars@);
    let ghost ty = TypeModel::Int32;
    let mut values: Vec<i32> = Vec::new();
    let mut valid: Vec<bool> = Vec::new();
    let mut i: usize = 0;
    while i < scalars.len()
        invariant
            ss == scalar_models(scalars@),
            ty == TypeModel::Int32,
            i <= scalars@.len(),
            values@.len() == i,
            valid@.len() == i,
            forall|j: int|
                0 <= j < i ==> stored_cell(ty, #[trigger] ss[j]) == (if valid@[j] {
                    Some(Payload::Int(values@[j] as int))
                } else {
                    None
                }),
            forall|j: int| 0 <= j < i && !valid@[j] ==> #[trigger] values@[j] == 0,
        decreases scalars@.len() - i,
    {
        assert(ss[i as int] == scalars@[i as int]@);
        match &scalars[i] {
            ScalarValue::Int32(Some(v)) => {
                values.push(*v);
                valid.push(true);
            },
            _ => {
                values.push(0);
                valid.push(false);
            },
        }
        i += 1;
    }
    let r = ColumnArray::Int32(values, valid);
    assert(r@ =~= stored_column(ty, ss));
    r
}

fn int64_column(scalars: &[ScalarValue]) -> (r: ColumnArray)
    ensures
        r.padded(),
        r@ == stored_column(TypeModel::Int64, scalar_models(scalars@)),
{
    let ghost ss = scalar_models(scalars@);
    let ghost ty = TypeModel::Int64;
    let mut values: Vec<i64> = Vec::new();
    let mut valid: Vec<bool> = Vec::new();
    let mut i: usize = 0;
    while i < scalars.len()
        invariant
            ss == scalar_models(scalars@),
            ty == TypeModel::Int64,
            i <= scalars@.len(),
            values@.len() == i,
            valid@.len() == i,
            forall|j: int|
                0 <= j < i ==> stored_cell(ty, #[trigger] ss[j]) == (if valid@[j] {
                    Some(Payload::Int(values@[j] as int))
                } else {
                    None
                }),
            forall|j: int| 0 <= j < i && !valid@[j] ==> #[trigger] values@[j] == 0,
        decreases scalars@.len() - i,
    {
        assert(ss[i as int] == scalars@[i as int]@);
        match &scalars[i] {
            ScalarValue::Int64(Some(v)) => {
                values.push(*v);
                valid.push(true);
            },
            _ => {
                values.push(0);
                valid.push(false);
            },
        }
        i += 1;
    }
    let r = ColumnArray::Int64(values, valid);
    assert(r@ =~= stored_column(ty, ss));
    r
}

fn uint8_column(scalars: &[ScalarValue]) -> (r: ColumnArray)
    ensures
        r.padded(),
        r@ == stored_column(TypeModel::UInt8, scalar_models(scalars@)),
{
    let ghost ss = scalar_models(scalars@);
    let ghost ty = TypeModel::UInt8;
    let mut values: Vec<u8> = Vec::new();
    let mut valid: Vec<bool> = Vec::new();
    let mut i: usize = 0;
    while i < scalars.len()
        invariant
            ss == scalar_models(scalars@),
            ty == TypeModel::UInt8,
            i <= scalars@.len(),
            values@.len() == i,
            valid@.len() == i,
            forall|j: int|
                0 <= j < i ==> stored_cell(ty, #[trigger] ss[j]) == (if valid@[j] {
                    Some(Payload::Int(values@[j] as int))
                } else {
                    None
                }),
            forall|j: int| 0 <= j < i && !valid@[j] ==> #[trigger] values@[j] == 0,
        decreases scalars@.len() - i,
    {
        assert(ss[i as int] == scalars@[i as int]@);
        match &scalars[i] {
            ScalarValue::UInt8(Some(v)) => {
                values.push(*v);
                valid.push(true);
            },
            _ => {
                values.push(0);
                valid.push(false);
            },
        }
        i += 1;
    }
    let r = ColumnArray::UInt8(values, valid);
    assert(r@ =~= stored_column(ty, ss));
    r
}

fn uint16_column(scalars: &[ScalarValue]) -> (r: ColumnArray)
    ensures
        r.padded(),
        r@ == stored_column(TypeModel::UInt16, scalar_models(scalars@)),
{
    let ghost ss = scalar_models(scalars@);
    let ghost ty = TypeModel::UInt16;
    let mut values: Vec<u16> = Vec::new();
    let mut valid: Vec<bool> = Vec::new();
    let mut i: usize = 0;
    while i < scalars.len()
        invariant
            ss == scalar_models(scalars@),
            ty == TypeModel::UInt16,
            i <= scalars@.len(),
            values@.len() == i,
            valid@.len() == i,
            forall|j: int|
                0 <= j < i ==> stored_cell(ty, #[trigger] ss[j]) == (if valid@[j] {
                    Some(Payload::Int(values@[j] as int))
                } else {
                    None
                }),
            forall|j: int| 0 <= j < i && !valid@[j] ==> #[trigger] values@[j] == 0,
        decreases scalars@.len() - i,
    {
        assert(ss[i as int] == scalars@[i as int]@);
        match &scalars[i] {
            ScalarValue::UInt16(Some(v)) => {
                values.push(*v);
                valid.push(true);
            },
            _ => {
                values.push(0);
                valid.push(false);
            },
        }
        i += 1;
    }
    let r = ColumnArray::UInt16(values, valid);
    assert(r@ =~= stored_column(ty, ss));
    r
}

fn uint32_column(scalars: &[ScalarValue]) -> (r: ColumnArray)
    ensures
        r.padded(),
        r@ == stored_column(TypeModel::UInt32, scalar_models(scalars@)),
{
    let ghost ss = scalar_models(scalars@);
    let ghost ty = TypeModel::UInt32;
    let mut values: Vec<u32> = Vec::new();
    let mut valid: Vec<bool> = Vec::new();
    let mut i: usize = 0;
    while i < scalars.len()
        invariant
            ss == scalar_models(scalars@),
            ty == TypeModel::UInt32,
            i <= scalars@.len(),
            values@.len() == i,
            valid@.len() == i,
            forall|j: int|
                0 <= j < i ==> stored_cell(ty, #[trigger] ss[j]) == (if valid@[j] {
                    Some(Payload::Int(values@[j] as int))
                } else {
                    None
                }),
            forall|j: int| 0 <= j < i && !valid@[j] ==> #[trigger] values@[j] == 0,
        decreases scalars@.len() - i,
    {
        assert(ss[i as int] == scalars@[i as int]@);
        match &scalars[i] {
            ScalarValue::UInt32(Some(v)) => {
                values.push(*v);
                valid.push(true);
            },
            _ => {
                values.push(0);
                valid.push(false);
            },
        }
        i += 1;
    }
    let r = ColumnArray::UInt32(values, valid);
    assert(r@ =~= stored_column(ty, ss));
    r
}

fn uint64_column(scalars: &[ScalarValue]) -> (r: ColumnArray)
    ensures
        r.padded(),
        r@ == stored_column(TypeModel::UInt64, scalar_models(scalars@)),
{
    let ghost ss = scalar_models(scalars@);
    let ghost ty = TypeModel::UInt64;
    let mut values: Vec<u64> = Vec::new();
    let mut valid: Vec<bool> = Vec::new();
    let mut i: usize = 0;
    while i < scalars.len()
        invariant
            ss == scalar_models(scalars@),
            ty == TypeModel::UInt64,
            i <= scalars@.len(),
            values@.len() == i,
            valid@.len() == i,
            forall|j: int|
                0 <= j < i ==> stored_cell(ty, #[trigger] ss[j]) == (if valid@[j] {
                    Some(Payload::Int(values@[j] as int))
                } else {
                    None
                }),
            forall|j: int| 0 <= j < i && !valid@[j] ==> #[trigger] values@[j] == 0,
        decreases scalars@.len() - i,
    {
        assert(ss[i as int] == scalars@[i as int]@);
        match &scalars[i] {
            ScalarValue::UInt64(Some(v)) => {
                values.push(*v);
                valid.push(true);
            },
            _ => {
                values.push(0);
                valid.push(false);
            },
        }
        i += 1;
    }
    let r = ColumnArray::UInt64(values, valid);
    assert(r@ =~= stored_column(ty, ss));
    r
}

fn float32_column(scalars: &[ScalarValue]) -> (r: ColumnArray)
    ensures
        r.padded(),
        r@ == stored_column(TypeModel::Float32, scalar_models(scalars@)),
{
    let ghost ss = scalar_models(scalars@);
    let ghost ty = TypeModel::Float32;
    let mut values: Vec<u32> = Vec::new();
    let mut valid: Vec<bool> = Vec::new();
    let mut i: usize = 0;
    while i < scalars.len()
        invariant
            ss == scalar_models(scalars@),
            ty == TypeModel::Float32,
            i <= scalars@.len(),
            values@.len() == i,
            valid@.len() == i,
            forall|j: int|
                0 <= j < i ==> stored_cell(ty, #[trigger] ss[j]) == (if valid@[j] {
                    Some(Payload::Int(values@[j] as int))
                } else {
                    None
                }),
            forall|j: int| 0 <= j < i && !valid@[j] ==> #[trigger] values@[j] == 0,
        decreases scalars@.len() - i,
    {
        assert(ss[i as int] == scalars@[i as int]@);
        match &scalars[i] {
            ScalarValue::Float32(Some(v)) => {
                values.push(*v);
                valid.push(true);
            },
            _ => {
                values.push(0);
                valid.push(false);
            },
        }
        i += 1;
    }
    let r = ColumnArray::Float32(values, valid);
    assert(r@ =~= stored_column(ty, ss));
    r
}

fn float64_column(scalars: &[ScalarValue]) -> (r: ColumnArray)
    ensures
        r.padded(),
        r@ == stored_column(TypeModel::Float64, scalar_models(scalars@)),
{
    let ghost ss = scalar_models(scalars@);
    let ghost ty = TypeModel::Float64;
    let mut values: Vec<u64> = Vec::new();
    let mut valid: Vec<bool> = Vec::new();
    let mut i: usize = 0;
    while i < scalars.len()
        invariant
            ss == scalar_models(scalars@),
            ty == TypeModel::Float64,
            i <= scalars@.len(),
            values@.len() == i,
            valid@.len() == i,
            forall|j: int|
                0 <= j < i ==> stored_cell(ty, #[trigger] ss[j]) == (if valid@[j] {
                    Some(Payload::Int(values@[j] as int))
                } else {
                    None
                }),
            forall|j: int| 0 <= j < i && !valid@[j] ==> #[trigger] values@[j] == 0,
        decreases scalars@.len() - i,
    {
        assert(ss[i as int] == scalars@[i as int]@);
        match &scalars[i] {
            ScalarValue::Float64(Some(v)) => {
                values.push(*v);
                valid.push(true);
            },
            _ => {
                values.push(0);
                valid.push(false);
            },
        }
        i += 1;
    }
    let r = ColumnArray::Float64(values, valid);
    assert(r@ =~= stored_column(ty, ss));
    r
}

fn date32_column(scalars: &[ScalarValue]) -> (r: ColumnArray)
    ensures
        r.padded(),
        r@ == stored_column(TypeModel::Date32, scalar_models(scalars@)),
{
    let ghost ss = scalar_models(scalars@);
    let ghost ty = TypeModel::Date32;
    let mut values: Vec<i32> = Vec::new();
    let mut valid: Vec<bool> = Vec::new();
    let mut i: usize = 0;
    while i < scalars.len()
        invariant
            ss == scalar_models(scalars@),
            ty == TypeModel::Date32,
            i <= scalars@.len(),
            values@.len() == i,
            valid@.len() == i,
            forall|j: int|
                0 <= j < i ==> stored_cell(ty, #[trigger] ss[j]) == (if valid@[j] {
                    Some(Payload::Int(values@[j] as int))
                } else {
                    None
                }),
            forall|j: int| 0 <= j < i && !valid@[j] ==> #[trigger] values@[j] == 0,
        decreases scalars@.len() - i,
    {
        assert(ss[i as int] == scalars@[i as int]@);
        match &scalars[i] {
            ScalarValue::Date32(Some(v)) => {
                values.push(*v);
                valid.push(true);
            },
            _ => {
                values.push(0);
                valid.push(false);
            },
        }
        i += 1;
    }
    let r = ColumnArray::Int32(values, valid);
    assert(r@ =~= stored_column(ty, ss));
    r
}

fn date64_column(scalars: &[ScalarValue]) -> (r: ColumnArray)
    ensures
        r.padded(),
        r@ == stored_column(TypeModel::Date64, scalar_models(scalars@)),
{
    let ghost ss = scalar_models(scalars@);
    let ghost ty = TypeModel::Date64;
    let mut values: Vec<i64> = Vec::new();
    let mut valid: Vec<bool> = Vec::new();
    let mut i: usize = 0;
    while i < scalars.len()
        invariant
            ss == scalar_models(scalars@),
            ty == TypeModel::Date64,
            i <= scalars@.len(),
            values@.len() == i,
            valid@.len() == i,
            forall|j: int|
                0 <= j < i ==> stored_cell(ty, #[trigger] ss[j]) == (if valid@[j] {
                    Some(Payload::Int(values@[j] as int))
                } else {
                    None
                }),
            forall|j: int| 0 <= j < i && !valid@[j] ==> #[trigger] values@[j] == 0,
        decreases scalars@.len() - i,
    {
        assert(ss[i as int] == scalars@[i as int]@);
        match &scalars[i] {
            ScalarValue::Date64(Some(v)) => {
                values.push(*v);
                valid.push(true);
            },
            _ => {
                values.push(0);
                valid.push(false);
            },
        }
        i += 1;
    }
    let r = ColumnArray::Int64(values, valid);
    assert(r@ =~= stored_column(ty, ss));
    r
}

fn timestamp_column(scalars: &[ScalarValue], data_type: &DataType) -> (r: ColumnArray)
    requires
        data_type@ is Timestamp,
    ensures
        r.padded(),
        r@ == stored_column(data_type@, scalar_models(scalars@)),
{
    let ghost ss = scalar_models(scalars@);
    let ghost ty = data_type@;
    let mut values: Vec<i64> = Vec::new();
    let mut valid: Vec<bool> = Vec::new();
    let mut i: usize = 0;
    while i < scalars.len()
        invariant
            ss == scalar_models(scalars@),
            ty == data_type@,
            ty is Timestamp,
            i <= scalars@.len(),
            values@.len() == i,
            valid@.len() == i,
            forall|j: int|
                0 <= j < i ==> stored_cell(ty, #[trigger] ss[j]) == (if valid@[j] {
                    Some(Payload::Int(values@[j] as int))
                } else {
                    None
                }),
            forall|j: int| 0 <= j < i && !valid@[j] ==> #[trigger] values@[j] == 0,
        decreases scalars@.len() - i,
    {
        assert(ss[i as int] == scalars@[i as int]@);
        match &scalars[i] {
            ScalarValue::TimestampSecond(Some(v), _) => {
                values.push(*v);
                valid.push(true);
            },
            ScalarValue::TimestampMillisecond(Some(v), _) => {
                values.push(*v);
                valid.push(true);
            },
            ScalarValue::TimestampMicrosecond(Some(v), _) => {
                values.push(*v);
                valid.push(true);
            },
            ScalarValue::TimestampNanosecond(Some(v), _) => {
                values.push(*v);
                valid.push(true);
            },
            _ => {
                values.push(0);
                valid.push(false);
            },
        }
        i += 1;
    }
    let r = ColumnArray::Int64(values, valid);
    assert(r@ =~= stored_column(ty, ss));
    r
}

fn flag_column(scalars: &[ScalarValue]) -> (r: ColumnArray)
    ensures
        r.padded(),
        r@ == stored_column(TypeModel::Boolean, scalar_models(scalars@)),
{
    let ghost ss = scalar_models(scalars@);
    let mut values: Vec<bool> = Vec::new();
    let mut valid: Vec<bool> = Vec::new();
    let mut i: usize = 0;
    while i < scalars.len()
        invariant
            ss == scalar_models(scalars@),
            i <= scalars@.len(),
            values@.len() == i,
            valid@.len() == i,
            forall|j: int|
                0 <= j < i ==> stored_cell(TypeModel::Boolean, #[trigger] ss[j]) == (if valid@[j] {
                    Some(Payload::Flag(values@[j]))
                } else {
                    None
                }),
            forall|j: int| 0 <= j < i && !valid@[j] ==> !#[trigger] values@[j],
        decreases scalars@.len() - i,
    {
        assert(ss[i as int] == scalars@[i as int]@);
        match &scalars[i] {
            ScalarValue::Boolean(Some(v)) => {
                values.push(*v);
                valid.push(true);
            },
            _ => {
                values.push(false);
                valid.push(false);
            },
        }
        i += 1;
    }
    let r = ColumnArray::Flags(values, valid);
    assert(r@ =~= stored_column(TypeModel::Boolean, ss));
    r
}

/// The bytes of an optional blob.
spec fn blob_payload(v: Option<Vec<u8>>) -> Option<Payload> {
    match v {
        Some(b) => Some(Payload::Blob(b@)),
        None => None,
    }
}

fn copy_blob(s: &[u8]) -> (r: Vec<u8>)
    ensures
        r@ == s@,
{
    let mut out: Vec<u8> = Vec::new();
    append_bytes(&mut out, s);
    assert(out@ =~= s@);
    out
}

fn text_column(scalars: &[ScalarValue], data_type: &DataType) -> (r: ColumnArray)
    requires
        data_type@ is Utf8 || data_type@ is LargeUtf8,
    ensures
        r.padded(),
        r@ == stored_column(data_type@, scalar_models(scalars@)),
{
    let ghost ss = scalar_models(scalars@);
    let ghost ty = data_type@;
    let mut values: Vec<Option<Vec<u8>>> = Vec::new();
    let mut i: usize = 0;
    while i < scalars.len()
        invariant
            ss == scalar_models(scalars@),
            ty is Utf8 || ty is LargeUtf8,
            i <= scalars@.len(),
            values@.len() == i,
            forall|j: int|
                0 <= j < i ==> stored_cell(ty, #[trigger] ss[j]) == blob_payload(values@[j]),
        decreases scalars@.len() - i,
    {
        assert(ss[i as int] == scalars@[i as int]@);
        match &scalars[i] {
            ScalarValue::Utf8(Some(v)) => {
                values.push(Some(copy_blob(v.as_str().as_bytes())));
            },
            ScalarValue::LargeUtf8(Some(v)) => {
                values.push(Some(copy_blob(v.as_str().as_bytes())));
            },
            _ => {
                values.push(None);
            },
        }
        i += 1;
    }
    let r = ColumnArray::Blobs(values);
    assert(r@.cells =~= stored_column(ty, ss).cells) by {
        assert forall|j: int| 0 <= j < values@.len() implies r@.cells[j] == stored_cell(
            ty,
            #[trigger] ss[j],
        ) by {
            assert(r@.cells[j] == blob_payload(values@[j]));
        }
    }
    r
}

fn blob_column(scalars: &[ScalarValue], data_type: &DataType) -> (r: ColumnArray)
    requires
        data_type@ is Binary || data_type@ is LargeBinary,
    ensures
        r.padded(),
        r@ == stored_column(data_type@, scalar_models(scalars@)),
{
    let ghost ss = scalar_models(scalars@);
    let ghost ty = data_type@;
    let mut values: Vec<Option<Vec<u8>>> = Vec::new();
    let mut i: usize = 0;
    while i < scalars.len()
        invariant
            ss == scalar_models(scalars@),
            ty is Binary || ty is LargeBinary,
            i <= scalars@.len(),
            values@.len() == i,
            forall|j: int|
                0 <= j < i ==> stored_cell(ty, #[trigger] ss[j]) == blob_payload(values@[j]),
        decreases scalars@.len() - i,
    {
        assert(ss[i as int] == scalars@[i as int]@);
        match &scalars[i] {
            ScalarValue::Binary(Some(v)) => {
                values.push(Some(copy_blob(v.as_slice())));
            },
            ScalarValue::LargeBinary(Some(v)) => {
                values.push(Some(copy_blob(v.as_slice())));
            },
            _ => {
                values.push(None);
            },
        }
        i += 1;
    }
    let r = ColumnArray::Blobs(values);
    assert(r@.cells =~= stored_column(ty, ss).cells) by {
        assert forall|j: int| 0 <= j < values@.len() implies r@.cells[j] == stored_cell(
            ty,
            #[trigger] ss[j],
        ) by {
            assert(r@.cells[j] == blob_payload(values@[j]));
        }
    }
    r
}

/// What is described of a scalar: itself, unless it is null.
pub open spec fn described_value(s: ScalarModel) -> Option<ScalarModel> {
    if s.payload is None {
        None
    } else {
        Some(s)
    }
}

/// The value of an optional scalar.
spec fn described_payload(v: Option<ScalarValue>) -> Option<Payload> {
    match v {
        Some(s) => s@.payload,
        None => None,
    }
}

fn described_column(scalars: &[ScalarValue], data_type: &DataType) -> (r: ColumnArray)
    requires
        kind_of(data_type@) == ArrayKind::Described,
    ensures
        r.padded(),
        is_column(r@, data_type@, scalar_models(scalars@)),
{
    let mut values: Vec<Option<ScalarValue>> = Vec::new();
    let mut i: usize = 0;
    while i < scalars.len()
        invariant
            i <= scalars@.len(),
            values@.len() == i,
            forall|j: int|
                0 <= j < i ==> described_payload(#[trigger] values@[j]) == scalars@[j]@.payload,
            forall|j: int|
                0 <= j < i ==> (match #[trigger] values@[j] {
                    Some(s) => Some(s@),
                    None => None,
                }) == described_value(scalars@[j]@),
        decreases scalars@.len() - i,
    {
        if scalars[i].is_null() {
            values.push(None);
        } else {
            values.push(Some(scalars[i].clone()));
        }
        i += 1;
    }
    let r = ColumnArray::Described(values);
    proof {
        let wanted = scalar_models(scalars@).map_values(|s: ScalarModel| s.payload);
        assert forall|j: int| 0 <= j < scalars@.len() implies #[trigger] r@.cells[j]
            == wanted[j] by {
            assert(r@.cells[j] == described_payload(values@[j]));
        }
        assert(r@.cells =~= wanted);
        let whole = scalar_models(scalars@).map_values(|s: ScalarModel| described_value(s));
        assert forall|j: int| 0 <= j < scalars@.len() implies #[trigger] r@.described[j]
            == whole[j] by {
            assert(values@[j] is Some || values@[j] is None);
        }
        assert(r@.described =~= whole);
    }
    r
}

/// `a` is the stored column of the scalars: value by value, and by description
/// for types without a column kind of their own.
pub open spec fn is_column(a: ArrayModel, ty: TypeModel, ss: Seq<ScalarModel>) -> bool {
    if kind_of(ty) == ArrayKind::Described {
        &&& a.kind == ArrayKind::Described
        &&& a.described == ss.map_values(|s: ScalarModel| described_value(s))
        &&& a.cells == ss.map_values(|s: ScalarModel| s.payload)
    } else {
        a == stored_column(ty, ss)
    }
}

/// Builds the stored column of a type from its scalars. Types without a
/// column kind of their own are stored by description.
pub fn build_column_array(scalars: &[ScalarValue], data_type: &DataType) -> (r: ColumnArray)
    ensures
        r.padded(),
        is_column(r@, data_type@, scalar_models(scalars@)),
{
    match data_type {
        DataType::Int8 => int8_column(scalars),
        DataType::Int16 => int16_column(scalars),
        DataType::Int32 => int32_column(scalars),
        DataType::Int64 => int64_column(scalars),
        DataType::UInt8 => uint8_column(scalars),
        DataType::UInt16 => uint16_column(scalars),
        DataType::UInt32 => uint32_column(scalars),
        DataType::UInt64 => uint64_column(scalars),
        DataType::Float32 => float32_column(scalars),
        DataType::Float64 => float64_column(scalars),
        DataType::Date32 => date32_column(scalars),
        DataType::Date64 => date64_column(scalars),
        DataType::Boolean => flag_column(scalars),
        DataType::Utf8 => text_column(scalars, data_type),
        DataType::LargeUtf8 => text_column(scalars, data_type),
        DataType::Binary => blob_column(scalars, data_type),
        DataType::LargeBinary => blob_column(scalars, data_type),
        DataType::Timestamp(_, _) => timestamp_column(scalars, data_type),
        _ => described_column(scalars, data_type),
    }
}

// ── Writing ───────────────────────────────────────────────────────────────

/// The name of the business column at place `c`: `col_` and its number.
pub open spec fn column_name(c: nat) -> Seq<char> {
    "col_"@ + decimal(c)
}

/// Makes the name of the business column at place `c`.
pub fn business_column_name(c: usize) -> (r: String)
    ensures
        r@ == column_name(c as nat),
{
    let mut name: String = "col_".to_owned();
    push_decimal(&mut name, c as u64);
    name
}

/// Business columns at different places have different names.
pub proof fn lemma_column_names_differ(a: nat, b: nat)
    requires
        a != b,
    ensures
        column_name(a) != column_name(b),
{
    if column_name(a) == column_name(b) {
        let n = "col_"@.len() as int;
        assert(column_name(a).skip(n) =~= decimal(a));
        assert(column_name(b).skip(n) =~= decimal(b));
        lemma_decimal_injective(a, b);
    }
}

/// A typed null for every column.
pub open spec fn null_row(types: Seq<TypeModel>) -> Seq<ScalarModel> {
    types.map_values(|ty: TypeModel| null_of(ty))
}

/// What the business columns hold of a row: its decoded values, and nulls for
/// a tombstone or a payload that cannot be decoded.
pub open spec fn business_cells(r: RowModel, types: Seq<TypeModel>) -> Seq<ScalarModel> {
    match r.version.value {
        Some(b) => match cells_of(b, types) {
            Ok((cells, _)) => cells,
            Err(_) => null_row(types),
        },
        None => null_row(types),
    }
}

/// The scalars of one business column.
pub open spec fn column_scalars(rs: Seq<RowModel>, types: Seq<TypeModel>, c: int) -> Seq<ScalarModel> {
    rs.map_values(|r: RowModel| business_cells(r, types)[c])
}

fn null_cells(schema: &Schema) -> (r: Vec<ScalarValue>)
    ensures
        scalar_models(r@) == null_row(types_of(schema@)),
{
    let ghost types = types_of(schema@);
    let mut out: Vec<ScalarValue> = Vec::new();
    let mut c: usize = 0;
    while c < schema.fields.len()
        invariant
            types == types_of(schema@),
            c <= schema.fields@.len(),
            out@.len() == c,
            forall|j: int| 0 <= j < c ==> (#[trigger] out@[j])@ == null_of(types[j]),
        decreases schema.fields@.len() - c,
    {
        assert(types[c as int] == schema.fields@[c as int].data_type@);
        out.push(typed_null(&schema.fields[c].data_type));
        c += 1;
    }
    assert(scalar_models(out@) =~= null_row(types));
    out
}

/// Decodes what the business columns hold of a row.
pub fn decode_business_cells(row: &VersionedRow, schema: &Schema) -> (r: Vec<ScalarValue>)
    ensures
        scalar_models(r@) == business_cells(row@, types_of(schema@)),
        r@.len() == schema@.len(),
{
    proof {
        if let Some(b) = row@.version.value {
            lemma_cells_len(b, types_of(schema@));
        }
    }
    let decoded = match &row.version.value {
        Some(payload) => match decode_row_values(bytes_slice(payload), schema) {
            Ok(v) => v,
            Err(_) => null_cells(schema),
        },
        None => null_cells(schema),
    };
    assert(scalar_models(decoded@).len() == types_of(schema@).len());
    decoded
}

/// The columns of one SST.
#[derive(Debug)]
pub struct SstColumns {
    /// Keys.
    pub keys: Vec<Bytes>,
    /// Values; none is a tombstone.
    pub values: Vec<Option<Bytes>>,
    /// Commit timestamps.
    pub begin_ts: Vec<u64>,
    /// Timestamps at which the versions were superseded.
    pub end_ts: Vec<u64>,
    /// Whether a row is a tombstone.
    pub tombstone: Vec<bool>,
    /// Business columns with their names.
    pub business: Vec<(String, ColumnArray)>,
}

/// The rows that base columns hold.
pub open spec fn rows_in(
    keys: Seq<Bytes>,
    values: Seq<Option<Bytes>>,
    begin_ts: Seq<u64>,
    end_ts: Seq<u64>,
    n: nat,
) -> Seq<RowModel> {
    Seq::new(
        n,
        |i: int|
            RowModel {
                key: bytes_view(keys[i]),
                version: VersionModel {
                    value: opt_bytes_view(values[i]),
                    begin_ts: begin_ts[i],
                    end_ts: end_ts[i],
                    tx_id: 0,
                },
            },
    )
}

impl SstColumns {
    /// The base columns hold the rows, without their transactions.
    pub open spec fn holds(&self, rs: Seq<RowModel>) -> bool {
        &&& self.keys@.len() == rs.len()
        &&& self.values@.len() == rs.len()
        &&& self.begin_ts@.len() == rs.len()
        &&& self.end_ts@.len() == rs.len()
        &&& self.tombstone@.len() == rs.len()
        &&& rows_in(self.keys@, self.values@, self.begin_ts@, self.end_ts@, rs.len())
            == untagged_rows(rs)
        &&& forall|i: int|
            0 <= i < rs.len() ==> #[trigger] self.tombstone@[i] == (rs[i].version.value is None)
    }

    /// The business columns are those of the rows under a schema.
    pub open spec fn decodes(&self, rs: Seq<RowModel>, types: Seq<TypeModel>) -> bool {
        &&& self.business@.len() == types.len()
        &&& forall|c: int|
            0 <= c < types.len() ==> {
                &&& (#[trigger] self.business@[c]).0@ == column_name(c as nat)
                &&& self.business@[c].1.padded()
                &&& is_column(self.business@[c].1@, types[c], column_scalars(rs, types, c))
            }
    }
}

/// Builds the columns of an SST: the base columns, and with a schema the
/// business columns too.
pub fn build_columns(rows: &[VersionedRow], row_schema: Option<&Schema>) -> (r: SstColumns)
    ensures
        r.holds(row_models(rows@)),
        row_schema matches Some(schema) ==> r.decodes(row_models(rows@), types_of(schema@)),
        row_schema is None ==> r.business@.len() == 0,
{
    let ghost rs = row_models(rows@);
    let mut keys: Vec<Bytes> = Vec::new();
    let mut values: Vec<Option<Bytes>> = Vec::new();
    let mut begin_ts: Vec<u64> = Vec::new();
    let mut end_ts: Vec<u64> = Vec::new();
    let mut tombstone: Vec<bool> = Vec::new();
    let mut i: usize = 0;
    while i < rows.len()
        invariant
            rs == row_models(rows@),
            i <= rows@.len(),
            keys@.len() == i,
            values@.len() == i,
            begin_ts@.len() == i,
            end_ts@.len() == i,
            tombstone@.len() == i,
            forall|j: int|
                0 <= j < i ==> {
                    &&& bytes_view(#[trigger] keys@[j]) == rs[j].key
                    &&& opt_bytes_view(values@[j]) == rs[j].version.value
                    &&& begin_ts@[j] == rs[j].version.begin_ts
                    &&& end_ts@[j] == rs[j].version.end_ts
                },
            forall|j: int|
                0 <= j < i ==> #[trigger] tombstone@[j] == (rs[j].version.value is None),
        decreases rows@.len() - i,
    {
        let row = &rows[i];
        assert(rs[i as int] == row@);
        keys.push(row.key.clone());
        values.push(opt_bytes_clone(&row.version.value));
        begin_ts.push(row.version.begin_ts);
        end_ts.push(row.version.end_ts);
        tombstone.push(row.version.value.is_none());
        i += 1;
    }
    assert(rows_in(keys@, values@, begin_ts@, end_ts@, rs.len()) =~= untagged_rows(rs)) by {
        assert forall|j: int| 0 <= j < rs.len() implies rows_in(
            keys@,
            values@,
            begin_ts@,
            end_ts@,
            rs.len(),
        )[j] == untagged_rows(rs)[j] by {
            assert(bytes_view(keys@[j]) == rs[j].key);
        }
    }
    let business = match row_schema {
        Some(schema) => build_business(rows, schema),
        None => Vec::new(),
    };
    SstColumns { keys, values, begin_ts, end_ts, tombstone, business }
}

fn build_business(rows: &[VersionedRow], schema: &Schema) -> (r: Vec<(String, ColumnArray)>)
    ensures
        r@.len() == schema@.len(),
        forall|c: int|
            0 <= c < r@.len() ==> {
                &&& (#[trigger] r@[c]).0@ == column_name(c as nat)
                &&& r@[c].1.padded()
                &&& is_column(
                    r@[c].1@,
                    types_of(schema@)[c],
                    column_scalars(row_models(rows@), types_of(schema@), c),
                )
            },
{
    let ghost rs = row_models(rows@);
    let ghost types = types_of(schema@);
    let mut decoded: Vec<Vec<ScalarValue>> = Vec::new();
    let mut i: usize = 0;
    while i < rows.len()
        invariant
            rs == row_models(rows@),
            types == types_of(schema@),
            i <= rows@.len(),
            decoded@.len() == i,
            forall|j: int|
                0 <= j < i ==> {
                    &&& scalar_models((#[trigger] decoded@[j])@) == business_cells(rs[j], types)
                    &&& decoded@[j]@.len() == schema@.len()
                },
        decreases rows@.len() - i,
    {
        assert(rs[i as int] == rows@[i as int]@);
        decoded.push(decode_business_cells(&rows[i], schema));
        i += 1;
    }
    let mut out: Vec<(String, ColumnArray)> = Vec::new();
    let mut c: usize = 0;
    while c < schema.fields.len()
        invariant
            rs == row_models(rows@),
            types == types_of(schema@),
            c <= schema.fields@.len(),
            decoded@.len() == rows@.len(),
            forall|j: int|
                0 <= j < decoded@.len() ==> {
                    &&& scalar_models((#[trigger] decoded@[j])@) == business_cells(rs[j], types)
                    &&& decoded@[j]@.len() == schema@.len()
                },
            out@.len() == c,
            forall|k: int|
                0 <= k < c ==> {
                    &&& (#[trigger] out@[k]).0@ == column_name(k as nat)
                    &&& out@[k].1.padded()
                    &&& is_column(out@[k].1@, types[k], column_scalars(rs, types, k))
                },
        decreases schema.fields@.len() - c,
    {
        let mut scalars: Vec<ScalarValue> = Vec::new();
        let mut j: usize = 0;
        while j < decoded.len()
            invariant
                rs == row_models(rows@),
                types == types_of(schema@),
                c < schema.fields@.len(),
                j <= decoded@.len(),
                decoded@.len() == rows@.len(),
                forall|k: int|
                    0 <= k < decoded@.len() ==> {
                        &&& scalar_models((#[trigger] decoded@[k])@) == business_cells(rs[k], types)
                        &&& decoded@[k]@.len() == schema@.len()
                    },
                scalars@.len() == j,
                forall|k: int|
                    0 <= k < j ==> (#[trigger] scalars@[k])@ == business_cells(
                        rs[k],
                        types,
                    )[c as int],
            decreases decoded@.len() - j,
        {
            let cell = decoded[j][c].clone();
            proof {
                let ms = scalar_models(decoded@[j as int]@);
                assert(ms[c as int] == decoded@[j as int]@[c as int]@);
            }
            scalars.push(cell);
            j += 1;
        }
        assert(scalar_models(scalars@) =~= column_scalars(rs, types, c as int));
        assert(types[c as int] == schema.fields@[c as int].data_type@);
        let array = build_column_array(scalars.as_slice(), &schema.fields[c].data_type);
        out.push((business_column_name(c), array));
        c += 1;
    }
    out
}

// ── Reading ───────────────────────────────────────────────────────────────

/// Base columns as a file gave them back; a missing one is none.
#[derive(Debug)]
pub struct ReadColumns {
    /// Keys.
    pub key: Option<Vec<Bytes>>,
    /// Values; none is a tombstone.
    pub value: Option<Vec<Option<Bytes>>>,
    /// Commit timestamps.
    pub begin_ts: Option<Vec<u64>>,
    /// Timestamps at which the versions were superseded.
    pub end_ts: Option<Vec<u64>>,
    /// Whether a row is a tombstone.
    pub tombstone: Option<Vec<bool>>,
    /// Number of rows.
    pub row_count: usize,
}

/// Why rows cannot be read from columns: the first column missing, in the
/// order in which they are looked up, or a timestamp column that is too short.
pub open spec fn read_fault(c: ReadColumns) -> Option<&'static str> {
    if c.key is None {
        Some("missing key column")
    } else if c.begin_ts is None {
        Some("missing begin_ts column")
    } else if c.end_ts is None {
        Some("missing end_ts column")
    } else if c.tombstone is None {
        Some("missing tombstone column")
    } else if c.value is None {
        Some("missing value column")
    } else if c.begin_ts->0@.len() < c.row_count && c.begin_ts->0@.len() <= c.end_ts->0@.len() {
        Some("missing begin_ts row")
    } else if c.end_ts->0@.len() < c.row_count {
        Some("missing end_ts row")
    } else {
        None
    }
}

/// Reads rows back from base columns.
pub fn collect_rows(columns: ReadColumns) -> (r: Result<Vec<VersionedRow>>)
    requires
        columns.key matches Some(k) ==> k@.len() >= columns.row_count,
        columns.value matches Some(v) ==> v@.len() >= columns.row_count,
    ensures
        match read_fault(columns) {
            Some(msg) => r matches Err(e) && e.is_corrupt(msg),
            None => r matches Ok(rows) && row_models(rows@) == rows_in(
                columns.key->0@,
                columns.value->0@,
                columns.begin_ts->0@,
                columns.end_ts->0@,
                columns.row_count as nat,
            ),
        },
{
    let row_count: usize = columns.row_count;
    let keys = match columns.key {
        Some(k) => k,
        None => {
            return Err(EngineError::Corrupt("missing key column"));
        },
    };
    let begin_ts = match columns.begin_ts {
        Some(b) => b,
        None => {
            return Err(EngineError::Corrupt("missing begin_ts column"));
        },
    };
    let end_ts = match columns.end_ts {
        Some(e) => e,
        None => {
            return Err(EngineError::Corrupt("missing end_ts column"));
        },
    };
    if columns.tombstone.is_none() {
        return Err(EngineError::Corrupt("missing tombstone column"));
    }
    let values = match columns.value {
        Some(v) => v,
        None => {
            return Err(EngineError::Corrupt("missing value column"));
        },
    };
    let ghost all = rows_in(keys@, values@, begin_ts@, end_ts@, row_count as nat);
    let mut out: Vec<VersionedRow> = Vec::new();
    let mut row: usize = 0;
    while row < row_count
        invariant
            row <= row_count,
            keys@.len() >= row_count,
            values@.len() >= row_count,
            row <= begin_ts@.len(),
            row <= end_ts@.len(),
            all == rows_in(keys@, values@, begin_ts@, end_ts@, row_count as nat),
            row_models(out@) == all.take(row as int),
            columns.key is Some,
            columns.value is Some,
            columns.tombstone is Some,
            columns.begin_ts == Some(begin_ts),
            columns.end_ts == Some(end_ts),
            columns.row_count == row_count,
        decreases row_count - row,
    {
        if row >= begin_ts.len() {
            return Err(EngineError::Corrupt("missing begin_ts row"));
        }
        if row >= end_ts.len() {
            return Err(EngineError::Corrupt("missing end_ts row"));
        }
        let ghost before = row_models(out@);
        let version = VersionedValue {
            value: opt_bytes_clone(&values[row]),
            begin_ts: begin_ts[row],
            end_ts: end_ts[row],
            tx_id: 0,
        };
        out.push(VersionedRow { key: keys[row].clone(), version });
        proof {
            assert(row_models(out@) =~= before.push(all[row as int]));
            assert(all.take(row + 1) =~= all.take(row as int).push(all[row as int]));
        }
        row += 1;
    }
    assert(all.take(row as int) =~= all);
    Ok(out)
}

/// A file gives back the rows that were written to it, without their
/// transactions.
pub proof fn law_columns_read_back(w: SstColumns, rs: Seq<RowModel>, c: ReadColumns)
    requires
        w.holds(rs),
        c.key == Some(w.keys),
        c.value == Some(w.values),
        c.begin_ts == Some(w.begin_ts),
        c.end_ts == Some(w.end_ts),
        c.tombstone == Some(w.tombstone),
        c.row_count == rs.len(),
    ensures
        read_fault(c) is None,
        rows_in(c.key->0@, c.value->0@, c.begin_ts->0@, c.end_ts->0@, c.row_count as nat)
            == untagged_rows(rs),
{
}

// ── Filters ───────────────────────────────────────────────────────────────

/// A filter over the columns of a file.
#[derive(Debug)]
pub enum Filter {
    /// Both filters.
    Both(Box<Filter>, Box<Filter>),
    /// `key = k`.
    KeyIs(Vec<u8>),
    /// `key >= k`.
    KeyAtLeast(Vec<u8>),
    /// `key < k`.
    KeyBelow(Vec<u8>),
    /// `begin_ts <= ts`.
    BegunBy(u64),
    /// `end_ts > ts`.
    EndsAfter(u64),
    /// `tombstone = false`.
    Live,
    /// A comparison of the business column of that name with a literal.
    Column(String, ColumnPredicate),
}

/// The row has the column that the predicate addresses, and its value
/// satisfies it.
pub open spec fn cell_satisfies(cells: Seq<ScalarModel>, p: PredicateModel) -> bool {
    column_of(p) < cells.len() && satisfies(cells[column_of(p) as int], p)
}

impl Filter {
    /// The row, whose business columns hold `cells`, passes the filter.
    pub open spec fn passes(self, row: RowModel, cells: Seq<ScalarModel>) -> bool
        decreases self,
    {
        match self {
            Filter::Both(a, b) => (*a).passes(row, cells) && (*b).passes(row, cells),
            Filter::KeyIs(k) => row.key == k@,
            Filter::KeyAtLeast(k) => lex_le(k@, row.key),
            Filter::KeyBelow(k) => lex_lt(row.key, k@),
            Filter::BegunBy(ts) => row.version.begin_ts <= ts,
            Filter::EndsAfter(ts) => row.version.end_ts > ts,
            Filter::Live => row.version.value is Some,
            Filter::Column(_, p) => cell_satisfies(cells, p@),
        }
    }
}

/// The type can stand in an equality that a file evaluates.
pub open spec fn literal_for_eq(ty: TypeModel) -> bool {
    match ty {
        TypeModel::Int8 | TypeModel::Int16 | TypeModel::Int32 | TypeModel::Int64 => true,
        TypeModel::UInt8 | TypeModel::UInt16 | TypeModel::UInt32 | TypeModel::UInt64 => true,
        TypeModel::Float32 | TypeModel::Float64 => true,
        TypeModel::Utf8 | TypeModel::LargeUtf8 | TypeModel::Boolean => true,
        _ => false,
    }
}

/// The type can stand in an inequality that a file evaluates.
pub open spec fn literal_for_order(ty: TypeModel) -> bool {
    match ty {
        TypeModel::Int8 | TypeModel::Int16 | TypeModel::Int32 | TypeModel::Int64 => true,
        TypeModel::Float32 | TypeModel::Float64 => true,
        _ => false,
    }
}

/// A file can evaluate the predicate on its business columns: an equality, or
/// one of `<`, `>` and `>=`, with a literal of a simple type.
pub open spec fn pushable(p: PredicateModel) -> bool {
    match p {
        PredicateModel::Eq(_, v) => v.payload is Some && literal_for_eq(v.ty),
        PredicateModel::LessThan(_, v) => v.payload is Some && literal_for_order(v.ty),
        PredicateModel::GreaterThan(_, v) => v.payload is Some && literal_for_order(v.ty),
        PredicateModel::GreaterThanOrEqual(_, v) => v.payload is Some && literal_for_order(v.ty),
        PredicateModel::LessThanOrEqual(_, _) => false,
        PredicateModel::Range(_, _, _) => false,
    }
}

fn is_order_literal(v: &ScalarValue) -> (r: bool)
    ensures
        r == (v@.payload is Some && literal_for_order(v@.ty)),
{
    match v {
        ScalarValue::Int8(Some(_)) => true,
        ScalarValue::Int16(Some(_)) => true,
        ScalarValue::Int32(Some(_)) => true,
        ScalarValue::Int64(Some(_)) => true,
        ScalarValue::Float32(Some(_)) => true,
        ScalarValue::Float64(Some(_)) => true,
        _ => false,
    }
}

fn is_eq_literal(v: &ScalarValue) -> (r: bool)
    ensures
        r == (v@.payload is Some && literal_for_eq(v@.ty)),
{
    match v {
        ScalarValue::UInt8(Some(_)) => true,
        ScalarValue::UInt16(Some(_)) => true,
        ScalarValue::UInt32(Some(_)) => true,
        ScalarValue::UInt64(Some(_)) => true,
        ScalarValue::Utf8(Some(_)) => true,
        ScalarValue::LargeUtf8(Some(_)) => true,
        ScalarValue::Boolean(Some(_)) => true,
        _ => is_order_literal(v),
    }
}

/// Translates a predicate into a filter on its business column; none where a
/// file cannot evaluate it.
pub fn column_pred_to_vortex(pred: &ColumnPredicate) -> (r: Option<Filter>)
    ensures
        r is Some <==> pushable(pred@),
        r matches Some(f) ==> (f matches Filter::Column(name, p) && name@ == column_name(
            column_of(pred@) as nat,
        ) && p@ == pred@),
        r matches Some(f) ==> forall|row: RowModel, cells: Seq<ScalarModel>| #[trigger]
            f.passes(row, cells) == cell_satisfies(cells, pred@),
{
    let translatable = match pred {
        ColumnPredicate::Eq { value, .. } => is_eq_literal(value),
        ColumnPredicate::LessThan { value, .. } => is_order_literal(value),
        ColumnPredicate::GreaterThan { value, .. } => is_order_literal(value),
        ColumnPredicate::GreaterThanOrEqual { value, .. } => is_order_literal(value),
        ColumnPredicate::LessThanOrEqual { .. } => false,
        ColumnPredicate::Range { .. } => false,
    };
    if translatable {
        Some(Filter::Column(business_column_name(pred.column()), pred.clone()))
    } else {
        None
    }
}

fn copy_key(s: &[u8]) -> (r: Vec<u8>)
    ensures
        r@ == s@,
{
    copy_blob(s)
}

/// The filter of a point lookup: the key, and visibility to the snapshot.
/// Tombstones pass, so that a delete hides older versions.
pub fn get_filter(key: &[u8], snapshot: Snapshot) -> (r: Filter)
    ensures
        forall|row: RowModel, cells: Seq<ScalarModel>| #[trigger]
            r.passes(row, cells) == (row.key == key@ && row.version.visible_at(snapshot.ts)),
{
    let seen = Filter::Both(
        Box::new(Filter::BegunBy(snapshot.ts)),
        Box::new(Filter::EndsAfter(snapshot.ts)),
    );
    proof {
        reveal_with_fuel(Filter::passes, 4);
    }
    Filter::Both(Box::new(Filter::KeyIs(copy_key(key))), Box::new(seen))
}

/// The predicates that a file evaluates hold.
pub open spec fn pushed_satisfied(cells: Seq<ScalarModel>, ps: Seq<PredicateModel>) -> bool {
    forall|i: int| 0 <= i < ps.len() && pushable(#[trigger] ps[i]) ==> cell_satisfies(cells, ps[i])
}

/// The filter of a scan: the key range, visibility to the snapshot, and every
/// predicate that a file can evaluate.
pub fn scan_filter(
    lower: &[u8],
    upper: &[u8],
    snapshot: Snapshot,
    predicates: &[ColumnPredicate],
) -> (r: Filter)
    ensures
        forall|row: RowModel, cells: Seq<ScalarModel>| #[trigger]
            r.passes(row, cells) == (in_range(row.key, lower@, upper@) && row.version.visible_at(
                snapshot.ts,
            ) && pushed_satisfied(cells, predicate_models(predicates@))),
{
    let ghost ps = predicate_models(predicates@);
    let range = Filter::Both(
        Box::new(Filter::KeyAtLeast(copy_key(lower))),
        Box::new(Filter::KeyBelow(copy_key(upper))),
    );
    let seen = Filter::Both(
        Box::new(Filter::BegunBy(snapshot.ts)),
        Box::new(Filter::EndsAfter(snapshot.ts)),
    );
    let mut filter = Filter::Both(Box::new(range), Box::new(seen));
    proof {
        reveal_with_fuel(Filter::passes, 4);
    }
    let mut i: usize = 0;
    while i < predicates.len()
        invariant
            ps == predicate_models(predicates@),
            i <= predicates@.len(),
            forall|row: RowModel, cells: Seq<ScalarModel>| #[trigger]
                filter.passes(row, cells) == (in_range(row.key, lower@, upper@)
                    && row.version.visible_at(snapshot.ts) && pushed_satisfied(
                    cells,
                    ps.take(i as int),
                )),
        decreases predicates@.len() - i,
    {
        let ghost before = filter;
        assert(ps[i as int] == predicates@[i as int]@);
        match column_pred_to_vortex(&predicates[i]) {
            Some(expr) => {
                let ghost e = expr;
                filter = Filter::Both(Box::new(filter), Box::new(expr));
                assert forall|row: RowModel, cells: Seq<ScalarModel>| #[trigger]
                    filter.passes(row, cells) == (in_range(row.key, lower@, upper@)
                        && row.version.visible_at(snapshot.ts) && pushed_satisfied(
                        cells,
                        ps.take(i + 1),
                    )) by {
                    assert(filter.passes(row, cells) == (before.passes(row, cells) && e.passes(
                        row,
                        cells,
                    )));
                    lemma_one_more_pushed(cells, ps, i as int);
                }
            },
            None => {
                assert forall|row: RowModel, cells: Seq<ScalarModel>| #[trigger]
                    filter.passes(row, cells) == (in_range(row.key, lower@, upper@)
                        && row.version.visible_at(snapshot.ts) && pushed_satisfied(
                        cells,
                        ps.take(i + 1),
                    )) by {
                    lemma_one_more_pushed(cells, ps, i as int);
                }
            },
        }
        i += 1;
    }
    assert(ps.take(i as int) =~= ps);
    filter
}

proof fn lemma_one_more_pushed(cells: Seq<ScalarModel>, ps: Seq<PredicateModel>, i: int)
    requires
        0 <= i < ps.len(),
    ensures
        pushed_satisfied(cells, ps.take(i + 1)) == (pushed_satisfied(cells, ps.take(i)) && (
        pushable(ps[i]) ==> cell_satisfies(cells, ps[i]))),
{
    let a = ps.take(i);
    let b = ps.take(i + 1);
    if pushed_satisfied(cells, b) {
        assert forall|k: int| 0 <= k < a.len() && pushable(#[trigger] a[k]) implies cell_satisfies(
            cells,
            a[k],
        ) by {
            assert(b[k] == a[k]);
        }
        assert(b[i] == ps[i]);
    }
    if pushed_satisfied(cells, a) && (pushable(ps[i]) ==> cell_satisfies(cells, ps[i])) {
        assert forall|k: int| 0 <= k < b.len() && pushable(#[trigger] b[k]) implies cell_satisfies(
            cells,
            b[k],
        ) by {
            if k < i {
                assert(a[k] == b[k]);
            }
        }
    }
}

/// The filter of a scan of business columns: as [`scan_filter`], and without
/// tombstones, whose business columns hold nothing.
pub fn columnar_filter(
    lower: &[u8],
    upper: &[u8],
    snapshot: Snapshot,
    predicates: &[ColumnPredicate],
) -> (r: Filter)
    ensures
        forall|row: RowModel, cells: Seq<ScalarModel>| #[trigger]
            r.passes(row, cells) == (in_range(row.key, lower@, upper@) && row.version.visible_at(
                snapshot.ts,
            ) && pushed_satisfied(cells, predicate_models(predicates@)) && row.version.value is Some),
{
    let scanned = scan_filter(lower, upper, snapshot, predicates);
    let ghost s = scanned;
    let r = Filter::Both(Box::new(scanned), Box::new(Filter::Live));
    assert forall|row: RowModel, cells: Seq<ScalarModel>| #[trigger] r.passes(row, cells) == (
    in_range(row.key, lower@, upper@) && row.version.visible_at(snapshot.ts) && pushed_satisfied(
        cells,
        predicate_models(predicates@),
    ) && row.version.value is Some) by {
        assert(Filter::Live.passes(row, cells) == (row.version.value is Some));
        assert(r.passes(row, cells) == (s.passes(row, cells) && Filter::Live.passes(row, cells)));
    }
    r
}

impl Filter {
    /// Evaluates the filter on a row whose business columns hold `cells`.
    pub fn evaluate(&self, row: &VersionedRow, cells: &[ScalarValue]) -> (r: bool)
        ensures
            r == self.passes(row@, scalar_models(cells@)),
        decreases self,
    {
        match self {
            Filter::Both(a, b) => (&**a).evaluate(row, cells) && (&**b).evaluate(row, cells),
            Filter::KeyIs(k) => keys_equal(bytes_slice(&row.key), k.as_slice()),
            Filter::KeyAtLeast(k) => key_less_or_equal(k.as_slice(), bytes_slice(&row.key)),
            Filter::KeyBelow(k) => key_less(bytes_slice(&row.key), k.as_slice()),
            Filter::BegunBy(ts) => row.version.begin_ts <= *ts,
            Filter::EndsAfter(ts) => row.version.end_ts > *ts,
            Filter::Live => row.version.value.is_some(),
            Filter::Column(_, p) => {
                let c: usize = p.column();
                if c < cells.len() {
                    assert(scalar_models(cells@)[c as int] == cells@[c as int]@);
                    p.evaluate(&cells[c])
                } else {
                    false
                }
            },
        }
    }
}

/// Filtering on business columns is filtering rows: where every predicate can
/// be evaluated by a file, a row in range and visible passes exactly if its
/// decoded values satisfy the predicates. Tombstones and rows that cannot be
/// decoded satisfy none.
pub proof fn law_pushdown_is_row_filter(
    row: RowModel,
    types: Seq<TypeModel>,
    ps: Seq<PredicateModel>,
)
    requires
        ps.len() > 0,
        forall|i: int| 0 <= i < ps.len() ==> pushable(#[trigger] ps[i]),
    ensures
        pushed_satisfied(business_cells(row, types), ps) == row_stays(row, types, ps),
{
    let cells = business_cells(row, types);
    if row_stays(row, types, ps) {
        assert(row_satisfies(cells, ps));
        assert forall|i: int| 0 <= i < ps.len() && pushable(#[trigger] ps[i]) implies cell_satisfies(
            cells,
            ps[i],
        ) by {
            assert(satisfies(cells[column_of(ps[i]) as int], ps[i]));
        }
    }
    if pushed_satisfied(cells, ps) {
        assert(cell_satisfies(cells, ps[0]));
        assert forall|i: int| 0 <= i < ps.len() implies {
            let c = column_of(#[trigger] ps[i]) as int;
            c < cells.len() && satisfies(cells[c], ps[i])
        } by {
            assert(pushable(ps[i]));
            assert(cell_satisfies(cells, ps[i]));
        }
        assert(row_satisfies(cells, ps));
    }
}

} // verus!
