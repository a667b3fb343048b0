//! Column types and single column values.
//!
//! Floating-point values are held as their bits; they are never computed with.

use crate::buf::{append_bytes, compare_keys, lex_lt, KeyOrder};
use vstd::prelude::*;
use vstd::utf8::encode_utf8;

verus! {

/// Unit of a time or timestamp.
#[derive(Debug, Clone, Copy, PartialEq, Eq, Structural)]
pub enum TimeUnit {
    /// Seconds.
    Second,
    /// Milliseconds.
    Millisecond,
    /// Microseconds.
    Microsecond,
    /// Nanoseconds.
    Nanosecond,
}

/// Unit of an interval.
#[derive(Debug, Clone, Copy, PartialEq, Eq, Structural)]
pub enum IntervalUnit {
    /// Months.
    YearMonth,
    /// Days and milliseconds.
    DayTime,
    /// Months, days and nanoseconds.
    MonthDayNano,
}

/// Days and milliseconds.
#[derive(Debug, Clone, Copy, PartialEq, Eq, Structural)]
pub struct IntervalDayTime {
    /// Days.
    pub days: i32,
    /// Milliseconds.
    pub milliseconds: i32,
}

/// Months, days and nanoseconds.
#[derive(Debug, Clone, Copy, PartialEq, Eq, Structural)]
pub struct IntervalMonthDayNano {
    /// Months.
    pub months: i32,
    /// Days.
    pub days: i32,
    /// Nanoseconds.
    pub nanoseconds: i64,
}

/// Type of a column.
#[derive(Debug, PartialEq, Eq)]
pub enum DataType {
    /// The type of an untyped null.
    Null,
    /// Signed 8-bit integer.
    Int8,
    /// Signed 16-bit integer.
    Int16,
    /// Signed 32-bit integer.
    Int32,
    /// Signed 64-bit integer.
    Int64,
    /// Unsigned 8-bit integer.
    UInt8,
    /// Unsigned 16-bit integer.
    UInt16,
    /// Unsigned 32-bit integer.
    UInt32,
    /// Unsigned 64-bit integer.
    UInt64,
    /// Single-precision number.
    Float32,
    /// Double-precision number.
    Float64,
    /// Truth value.
    Boolean,
    /// Text.
    Utf8,
    /// Text with long offsets.
    LargeUtf8,
    /// Bytes.
    Binary,
    /// Bytes with long offsets.
    LargeBinary,
    /// Days since the epoch.
    Date32,
    /// Milliseconds since the epoch.
    Date64,
    /// Instant, with a unit and a time zone.
    Timestamp(TimeUnit, Option<String>),
    /// Time of day in seconds or milliseconds.
    Time32(TimeUnit),
    /// Time of day in microseconds or nanoseconds.
    Time64(TimeUnit),
    /// Calendar interval.
    Interval(IntervalUnit),
    /// Span of time.
    Duration(TimeUnit),
    /// A type that rows cannot hold, by its name.
    Other(String),
}

/// What a column type says.
#[verifier::ext_equal]
pub enum TypeModel {
    /// Untyped null.
    Null,
    /// Signed 8-bit integer.
    Int8,
    /// Signed 16-bit integer.
    Int16,
    /// Signed 32-bit integer.
    Int32,
    /// Signed 64-bit integer.
    Int64,
    /// Unsigned 8-bit integer.
    UInt8,
    /// Unsigned 16-bit integer.
    UInt16,
    /// Unsigned 32-bit integer.
    UInt32,
    /// Unsigned 64-bit integer.
    UInt64,
    /// Single-precision number.
    Float32,
    /// Double-precision number.
    Float64,
    /// Truth value.
    Boolean,
    /// Text.
    Utf8,
    /// Text with long offsets.
    LargeUtf8,
    /// Bytes.
    Binary,
    /// Bytes with long offsets.
    LargeBinary,
    /// Days since the epoch.
    Date32,
    /// Milliseconds since the epoch.
    Date64,
    /// Instant.
    Timestamp(TimeUnit, Option<Seq<char>>),
    /// Time of day.
    Time32(TimeUnit),
    /// Time of day.
    Time64(TimeUnit),
    /// Calendar interval.
    Interval(IntervalUnit),
    /// Span of time.
    Duration(TimeUnit),
    /// A type that rows cannot hold: its name, and the family of types whose
    /// values are compared with one another.
    Other(Seq<char>, Seq<char>),
}

/// The characters of an optional text.
pub open spec fn opt_text(s: Option<String>) -> Option<Seq<char>> {
    match s {
        Some(s) => Some(s@),
        None => None,
    }
}

pub(crate) fn clone_text(s: &Option<String>) -> (r: Option<String>)
    ensures
        opt_text(r) == opt_text(*s),
{
    match s {
        Some(t) => Some(t.clone()),
        None => None,
    }
}

fn clone_blob(v: &Vec<u8>) -> (r: Vec<u8>)
    ensures
        r@ == v@,
{
    let mut out: Vec<u8> = Vec::new();
    append_bytes(&mut out, v.as_slice());
    assert(out@ =~= v@);
    out
}

impl View for DataType {
    type V = TypeModel;

    open spec fn view(&self) -> TypeModel {
        match *self {
            DataType::Null => TypeModel::Null,
            DataType::Int8 => TypeModel::Int8,
            DataType::Int16 => TypeModel::Int16,
            DataType::Int32 => TypeModel::Int32,
            DataType::Int64 => TypeModel::Int64,
            DataType::UInt8 => TypeModel::UInt8,
            DataType::UInt16 => TypeModel::UInt16,
            DataType::UInt32 => TypeModel::UInt32,
            DataType::UInt64 => TypeModel::UInt64,
            DataType::Float32 => TypeModel::Float32,
            DataType::Float64 => TypeModel::Float64,
            DataType::Boolean => TypeModel::Boolean,
            DataType::Utf8 => TypeModel::Utf8,
            DataType::LargeUtf8 => TypeModel::LargeUtf8,
            DataType::Binary => TypeModel::Binary,
            DataType::LargeBinary => TypeModel::LargeBinary,
            DataType::Date32 => TypeModel::Date32,
            DataType::Date64 => TypeModel::Date64,
            DataType::Timestamp(u, tz) => TypeModel::Timestamp(u, opt_text(tz)),
            DataType::Time32(u) => TypeModel::Time32(u),
            DataType::Time64(u) => TypeModel::Time64(u),
            DataType::Interval(u) => TypeModel::Interval(u),
            DataType::Duration(u) => TypeModel::Duration(u),
            DataType::Other(n) => TypeModel::Other(n@, n@),
        }
    }
}

impl Clone for DataType {
    fn clone(&self) -> (r: Self)
        ensures
            r@ == self@,
    {
        match self {
            DataType::Null => DataType::Null,
            DataType::Int8 => DataType::Int8,
            DataType::Int16 => DataType::Int16,
            DataType::Int32 => DataType::Int32,
            DataType::Int64 => DataType::Int64,
            DataType::UInt8 => DataType::UInt8,
            DataType::UInt16 => DataType::UInt16,
            DataType::UInt32 => DataType::UInt32,
            DataType::UInt64 => DataType::UInt64,
            DataType::Float32 => DataType::Float32,
            DataType::Float64 => DataType::Float64,
            DataType::Boolean => DataType::Boolean,
            DataType::Utf8 => DataType::Utf8,
            DataType::LargeUtf8 => DataType::LargeUtf8,
            DataType::Binary => DataType::Binary,
            DataType::LargeBinary => DataType::LargeBinary,
            DataType::Date32 => DataType::Date32,
            DataType::Date64 => DataType::Date64,
            DataType::Timestamp(u, tz) => DataType::Timestamp(*u, clone_text(tz)),
            DataType::Time32(u) => DataType::Time32(*u),
            DataType::Time64(u) => DataType::Time64(*u),
            DataType::Interval(u) => DataType::Interval(*u),
            DataType::Duration(u) => DataType::Duration(*u),
            DataType::Other(n) => DataType::Other(n.clone()),
        }
    }
}

/// One column value; `None` inside a variant is a null of that type.
#[derive(Debug, PartialEq, Eq)]
pub enum ScalarValue {
    /// Null without a type.
    Null,
    /// Signed 8-bit integer.
    Int8(Option<i8>),
    /// Signed 16-bit integer.
    Int16(Option<i16>),
    /// Signed 32-bit integer.
    Int32(Option<i32>),
    /// Signed 64-bit integer.
    Int64(Option<i64>),
    /// Unsigned 8-bit integer.
    UInt8(Option<u8>),
    /// Unsigned 16-bit integer.
    UInt16(Option<u16>),
    /// Unsigned 32-bit integer.
    UInt32(Option<u32>),
    /// Unsigned 64-bit integer.
    UInt64(Option<u64>),
    /// Single-precision number, held as its bits.
    Float32(Option<u32>),
    /// Double-precision number, held as its bits.
    Float64(Option<u64>),
    /// Truth value.
    Boolean(Option<bool>),
    /// Text.
    Utf8(Option<String>),
    /// Text with long offsets.
    LargeUtf8(Option<String>),
    /// Bytes.
    Binary(Option<Vec<u8>>),
    /// Bytes with long offsets.
    LargeBinary(Option<Vec<u8>>),
    /// Days since the epoch.
    Date32(Option<i32>),
    /// Milliseconds since the epoch.
    Date64(Option<i64>),
    /// Instant in seconds, with a time zone.
    TimestampSecond(Option<i64>, Option<String>),
    /// Instant in milliseconds, with a time zone.
    TimestampMillisecond(Option<i64>, Option<String>),
    /// Instant in microseconds, with a time zone.
    TimestampMicrosecond(Option<i64>, Option<String>),
    /// Instant in nanoseconds, with a time zone.
    TimestampNanosecond(Option<i64>, Option<String>),
    /// Time of day in seconds.
    Time32Second(Option<i32>),
    /// Time of day in milliseconds.
    Time32Millisecond(Option<i32>),
    /// Time of day in microseconds.
    Time64Microsecond(Option<i64>),
    /// Time of day in nanoseconds.
    Time64Nanosecond(Option<i64>),
    /// Months.
    IntervalYearMonth(Option<i32>),
    /// Days and milliseconds.
    IntervalDayTime(Option<IntervalDayTime>),
    /// Months, days and nanoseconds.
    IntervalMonthDayNano(Option<IntervalMonthDayNano>),
    /// Span in seconds.
    DurationSecond(Option<i64>),
    /// Span in milliseconds.
    DurationMillisecond(Option<i64>),
    /// Span in microseconds.
    DurationMicrosecond(Option<i64>),
    /// Span in nanoseconds.
    DurationNanosecond(Option<i64>),
    /// A value that rows cannot hold.
    Other(OtherValue),
}

/// A value of a type that rows cannot hold.
#[derive(Debug, PartialEq, Eq)]
pub struct OtherValue {
    /// Name of the type.
    pub name: String,
    /// The types whose values are compared with this one share it. Decimals are
    /// compared where their widths, precisions and scales agree; bytes of a
    /// fixed size whatever the size is.
    pub family: String,
    /// What the value is compared by.
    pub rank: OtherRank,
}

/// What a value of a type that rows cannot hold is compared by.
#[derive(Debug, PartialEq, Eq)]
pub enum OtherRank {
    /// Null.
    Null,
    /// The bits of a half-precision number.
    Half(u16),
    /// A number, such as a decimal without its scale.
    Num(i128),
    /// A number of four words: the upper two, and each of the lower two.
    Wide(i128, u64, u64),
    /// Bytes, or the bytes of a text.
    Raw(Vec<u8>),
    /// Bytes that stand for a list, a map or another nested value: equal values
    /// of one family have equal bytes. Nested values that differ are in no order.
    Nested(Vec<u8>),
}

/// What values of one type are compared by.
#[verifier::ext_equal]
pub enum KeyModel {
    /// A number.
    Num(int),
    /// Bytes in dictionary order.
    Raw(Seq<u8>),
    /// Three numbers, the first of which counts most.
    Fields(int, int, int),
    /// Bytes that are in no order.
    Token(Seq<u8>),
}

/// The place of a floating-point number, given by its bits, in the total
/// order: negative numbers by falling magnitude, then the others.
pub open spec fn float_place(bits: int, sign: int) -> int {
    if bits >= sign {
        sign - bits - 1
    } else {
        bits
    }
}

/// The value inside a scalar.
#[verifier::ext_equal]
pub enum Payload {
    /// Truth value.
    Flag(bool),
    /// Integer, or the bits of a floating-point number.
    Int(int),
    /// Text.
    Text(Seq<char>),
    /// Bytes.
    Blob(Seq<u8>),
    /// Days and milliseconds.
    DayTime(i32, i32),
    /// Months, days and nanoseconds.
    MonthDayNano(i32, i32, i64),
    /// A value that rows cannot hold, by what it is compared by.
    Other(KeyModel),
}

/// The value inside a scalar of a type that rows cannot hold.
pub open spec fn rank_model(rank: OtherRank) -> Option<Payload> {
    match rank {
        OtherRank::Null => None,
        OtherRank::Half(b) => Some(Payload::Other(KeyModel::Num(float_place(b as int, 0x8000)))),
        OtherRank::Num(n) => Some(Payload::Other(KeyModel::Num(n as int))),
        OtherRank::Wide(x, y, z) => Some(
            Payload::Other(KeyModel::Fields(x as int, y as int, z as int)),
        ),
        OtherRank::Raw(b) => Some(Payload::Other(KeyModel::Raw(b@))),
        OtherRank::Nested(b) => Some(Payload::Other(KeyModel::Token(b@))),
    }
}

/// What a scalar says: its type, and its value unless it is null.
#[verifier::ext_equal]
pub struct ScalarModel {
    /// Type.
    pub ty: TypeModel,
    /// Value; none is null.
    pub payload: Option<Payload>,
}

/// The null without a type.
pub open spec fn bare_null() -> ScalarModel {
    ScalarModel { ty: TypeModel::Null, payload: None }
}

/// A value of type `ty`.
pub open spec fn present(ty: TypeModel, p: Payload) -> ScalarModel {
    ScalarModel { ty, payload: Some(p) }
}

impl View for ScalarValue {
    type V = ScalarModel;

    open spec fn view(&self) -> ScalarModel {
        match *self {
            ScalarValue::Null => bare_null(),
            ScalarValue::Int8(v) => ScalarModel {
                ty: TypeModel::Int8,
                payload: match v {
                    Some(x) => Some(Payload::Int(x as int)),
                    None => None,
                },
            },
            ScalarValue::Int16(v) => ScalarModel {
                ty: TypeModel::Int16,
                payload: match v {
                    Some(x) => Some(Payload::Int(x as int)),
                    None => None,
                },
            },
            ScalarValue::Int32(v) => ScalarModel {
                ty: TypeModel::Int32,
                payload: match v {
                    Some(x) => Some(Payload::Int(x as int)),
                    None => None,
                },
            },
            ScalarValue::Int64(v) => ScalarModel {
                ty: TypeModel::Int64,
                payload: match v {
                    Some(x) => Some(Payload::Int(x as int)),
                    None => None,
                },
            },
            ScalarValue::UInt8(v) => ScalarModel {
                ty: TypeModel::UInt8,
                payload: match v {
                    Some(x) => Some(Payload::Int(x as int)),
                    None => None,
                },
            },
            ScalarValue::UInt16(v) => ScalarModel {
                ty: TypeModel::UInt16,
                payload: match v {
                    Some(x) => Some(Payload::Int(x as int)),
                    None => None,
                },
            },
            ScalarValue::UInt32(v) => ScalarModel {
                ty: TypeModel::UInt32,
                payload: match v {
                    Some(x) => Some(Payload::Int(x as int)),
                    None => None,
                },
            },
            ScalarValue::UInt64(v) => ScalarModel {
                ty: TypeModel::UInt64,
                payload: match v {
                    Some(x) => Some(Payload::Int(x as int)),
                    None => None,
                },
            },
            ScalarValue::Float32(v) => ScalarModel {
                ty: TypeModel::Float32,
                payload: match v {
                    Some(x) => Some(Payload::Int(x as int)),
                    None => None,
                },
            },
            ScalarValue::Float64(v) => ScalarModel {
                ty: TypeModel::Float64,
                payload: match v {
                    Some(x) => Some(Payload::Int(x as int)),
                    None => None,
                },
            },
            ScalarValue::Boolean(v) => ScalarModel {
                ty: TypeModel::Boolean,
                payload: match v {
                    Some(x) => Some(Payload::Flag(x)),
                    None => None,
                },
            },
            ScalarValue::Utf8(v) => ScalarModel {
                ty: TypeModel::Utf8,
                payload: match v {
                    Some(x) => Some(Payload::Text(x@)),
                    None => None,
                },
            },
            ScalarValue::LargeUtf8(v) => ScalarModel {
                ty: TypeModel::LargeUtf8,
                payload: match v {
                    Some(x) => Some(Payload::Text(x@)),
                    None => None,
                },
            },
            ScalarValue::Binary(v) => ScalarModel {
                ty: TypeModel::Binary,
                payload: match v {
                    Some(x) => Some(Payload::Blob(x@)),
                    None => None,
                },
            },
            ScalarValue::LargeBinary(v) => ScalarModel {
                ty: TypeModel::LargeBinary,
                payload: match v {
                    Some(x) => Some(Payload::Blob(x@)),
                    None => None,
                },
            },
            ScalarValue::Date32(v) => ScalarModel {
                ty: TypeModel::Date32,
                payload: match v {
                    Some(x) => Some(Payload::Int(x as int)),
                    None => None,
                },
            },
            ScalarValue::Date64(v) => ScalarModel {
                ty: TypeModel::Date64,
                payload: match v {
                    Some(x) => Some(Payload::Int(x as int)),
                    None => None,
                },
            },
            ScalarValue::TimestampSecond(v, tz) => ScalarModel {
                ty: TypeModel::Timestamp(TimeUnit::Second, opt_text(tz)),
                payload: match v {
                    Some(x) => Some(Payload::Int(x as int)),
                    None => None,
                },
            },
            ScalarValue::TimestampMillisecond(v, tz) => ScalarModel {
                ty: TypeModel::Timestamp(TimeUnit::Millisecond, opt_text(tz)),
                payload: match v {
                    Some(x) => Some(Payload::Int(x as int)),
                    None => None,
                },
            },
            ScalarValue::TimestampMicrosecond(v, tz) => ScalarModel {
                ty: TypeModel::Timestamp(TimeUnit::Microsecond, opt_text(tz)),
                payload: match v {
                    Some(x) => Some(Payload::Int(x as int)),
                    None => None,
                },
            },
            ScalarValue::TimestampNanosecond(v, tz) => ScalarModel {
                ty: TypeModel::Timestamp(TimeUnit::Nanosecond, opt_text(tz)),
                payload: match v {
                    Some(x) => Some(Payload::Int(x as int)),
                    None => None,
                },
            },
            ScalarValue::Time32Second(v) => ScalarModel {
                ty: TypeModel::Time32(TimeUnit::Second),
                payload: match v {
                    Some(x) => Some(Payload::Int(x as int)),
                    None => None,
                },
            },
            ScalarValue::Time32Millisecond(v) => ScalarModel {
                ty: TypeModel::Time32(TimeUnit::Millisecond),
                payload: match v {
                    Some(x) => Some(Payload::Int(x as int)),
                    None => None,
                },
            },
            ScalarValue::Time64Microsecond(v) => ScalarModel {
                ty: TypeModel::Time64(TimeUnit::Microsecond),
                payload: match v {
                    Some(x) => Some(Payload::Int(x as int)),
                    None => None,
                },
            },
            ScalarValue::Time64Nanosecond(v) => ScalarModel {
                ty: TypeModel::Time64(TimeUnit::Nanosecond),
                payload: match v {
                    Some(x) => Some(Payload::Int(x as int)),
                    None => None,
                },
            },
            ScalarValue::IntervalYearMonth(v) => ScalarModel {
                ty: TypeModel::Interval(IntervalUnit::YearMonth),
                payload: match v {
                    Some(x) => Some(Payload::Int(x as int)),
                    None => None,
                },
            },
            ScalarValue::IntervalDayTime(v) => ScalarModel {
                ty: TypeModel::Interval(IntervalUnit::DayTime),
                payload: match v {
                    Some(x) => Some(Payload::DayTime(x.days, x.milliseconds)),
                    None => None,
                },
            },
            ScalarValue::IntervalMonthDayNano(v) => ScalarModel {
                ty: TypeModel::Interval(IntervalUnit::MonthDayNano),
                payload: match v {
                    Some(x) => Some(Payload::MonthDayNano(x.months, x.days, x.nanoseconds)),
                    None => None,
                },
            },
            ScalarValue::DurationSecond(v) => ScalarModel {
                ty: TypeModel::Duration(TimeUnit::Second),
                payload: match v {
                    Some(x) => Some(Payload::Int(x as int)),
                    None => None,
                },
            },
            ScalarValue::DurationMillisecond(v) => ScalarModel {
                ty: TypeModel::Duration(TimeUnit::Millisecond),
                payload: match v {
                    Some(x) => Some(Payload::Int(x as int)),
                    None => None,
                },
            },
            ScalarValue::DurationMicrosecond(v) => ScalarModel {
                ty: TypeModel::Duration(TimeUnit::Microsecond),
                payload: match v {
                    Some(x) => Some(Payload::Int(x as int)),
                    None => None,
                },
            },
            ScalarValue::DurationNanosecond(v) => ScalarModel {
                ty: TypeModel::Duration(TimeUnit::Nanosecond),
                payload: match v {
                    Some(x) => Some(Payload::Int(x as int)),
                    None => None,
                },
            },
            ScalarValue::Other(o) => ScalarModel {
                ty: TypeModel::Other(o.name@, o.family@),
                payload: rank_model(o.rank),
            },
        }
    }
}

/// What a list of scalars says.
pub open spec fn scalar_models(vs: Seq<ScalarValue>) -> Seq<ScalarModel> {
    vs.map_values(|v: ScalarValue| v@)
}

impl Clone for OtherValue {
    fn clone(&self) -> (r: Self)
        ensures
            r.name@ == self.name@,
            r.family@ == self.family@,
            rank_model(r.rank) == rank_model(self.rank),
    {
        let rank = match &self.rank {
            OtherRank::Null => OtherRank::Null,
            OtherRank::Half(b) => OtherRank::Half(*b),
            OtherRank::Num(n) => OtherRank::Num(*n),
            OtherRank::Wide(x, y, z) => OtherRank::Wide(*x, *y, *z),
            OtherRank::Raw(b) => OtherRank::Raw(clone_blob(b)),
            OtherRank::Nested(b) => OtherRank::Nested(clone_blob(b)),
        };
        OtherValue { name: self.name.clone(), family: self.family.clone(), rank }
    }
}

impl Clone for ScalarValue {
    fn clone(&self) -> (r: Self)
        ensures
            r@ == self@,
    {
        match self {
            ScalarValue::Null => ScalarValue::Null,
            ScalarValue::Int8(v) => ScalarValue::Int8(*v),
            ScalarValue::Int16(v) => ScalarValue::Int16(*v),
            ScalarValue::Int32(v) => ScalarValue::Int32(*v),
            ScalarValue::Int64(v) => ScalarValue::Int64(*v),
            ScalarValue::UInt8(v) => ScalarValue::UInt8(*v),
            ScalarValue::UInt16(v) => ScalarValue::UInt16(*v),
            ScalarValue::UInt32(v) => ScalarValue::UInt32(*v),
            ScalarValue::UInt64(v) => ScalarValue::UInt64(*v),
            ScalarValue::Float32(v) => ScalarValue::Float32(*v),
            ScalarValue::Float64(v) => ScalarValue::Float64(*v),
            ScalarValue::Boolean(v) => ScalarValue::Boolean(*v),
            ScalarValue::Utf8(v) => ScalarValue::Utf8(clone_text(v)),
            ScalarValue::LargeUtf8(v) => ScalarValue::LargeUtf8(clone_text(v)),
            ScalarValue::Binary(v) => match v {
                Some(b) => ScalarValue::Binary(Some(clone_blob(b))),
                None => ScalarValue::Binary(None),
            },
            ScalarValue::LargeBinary(v) => match v {
                Some(b) => ScalarValue::LargeBinary(Some(clone_blob(b))),
                None => ScalarValue::LargeBinary(None),
            },
            ScalarValue::Date32(v) => ScalarValue::Date32(*v),
            ScalarValue::Date64(v) => ScalarValue::Date64(*v),
            ScalarValue::TimestampSecond(v, tz) => ScalarValue::TimestampSecond(*v, clone_text(tz)),
            ScalarValue::TimestampMillisecond(v, tz) => ScalarValue::TimestampMillisecond(*v, clone_text(tz)),
            ScalarValue::TimestampMicrosecond(v, tz) => ScalarValue::TimestampMicrosecond(*v, clone_text(tz)),
            ScalarValue::TimestampNanosecond(v, tz) => ScalarValue::TimestampNanosecond(*v, clone_text(tz)),
            ScalarValue::Time32Second(v) => ScalarValue::Time32Second(*v),
            ScalarValue::Time32Millisecond(v) => ScalarValue::Time32Millisecond(*v),
            ScalarValue::Time64Microsecond(v) => ScalarValue::Time64Microsecond(*v),
            ScalarValue::Time64Nanosecond(v) => ScalarValue::Time64Nanosecond(*v),
            ScalarValue::IntervalYearMonth(v) => ScalarValue::IntervalYearMonth(*v),
            ScalarValue::IntervalDayTime(v) => ScalarValue::IntervalDayTime(*v),
            ScalarValue::IntervalMonthDayNano(v) => ScalarValue::IntervalMonthDayNano(*v),
            ScalarValue::DurationSecond(v) => ScalarValue::DurationSecond(*v),
            ScalarValue::DurationMillisecond(v) => ScalarValue::DurationMillisecond(*v),
            ScalarValue::DurationMicrosecond(v) => ScalarValue::DurationMicrosecond(*v),
            ScalarValue::DurationNanosecond(v) => ScalarValue::DurationNanosecond(*v),
            ScalarValue::Other(o) => ScalarValue::Other(o.clone()),
        }
    }
}

/// The typed null of a column type; a bare null for types that rows cannot
/// hold.
pub open spec fn null_of(ty: TypeModel) -> ScalarModel {
    if is_supported(ty) {
        ScalarModel { ty, payload: None }
    } else {
        bare_null()
    }
}

/// Rows can hold values of this type.
pub open spec fn is_supported(ty: TypeModel) -> bool {
    match ty {
        TypeModel::Null => false,
        TypeModel::Other(_, _) => false,
        TypeModel::Time32(u) => u == TimeUnit::Second || u == TimeUnit::Millisecond,
        TypeModel::Time64(u) => u == TimeUnit::Microsecond || u == TimeUnit::Nanosecond,
        _ => true,
    }
}

/// Returns the typed null of `data_type`, so that a column can be built
/// without looking its type up again.
pub fn typed_null(data_type: &DataType) -> (r: ScalarValue)
    ensures
        r@ == null_of(data_type@),
{
    match data_type {
        DataType::Int8 => ScalarValue::Int8(None),
        DataType::Int16 => ScalarValue::Int16(None),
        DataType::Int32 => ScalarValue::Int32(None),
        DataType::Int64 => ScalarValue::Int64(None),
        DataType::UInt8 => ScalarValue::UInt8(None),
        DataType::UInt16 => ScalarValue::UInt16(None),
        DataType::UInt32 => ScalarValue::UInt32(None),
        DataType::UInt64 => ScalarValue::UInt64(None),
        DataType::Float32 => ScalarValue::Float32(None),
        DataType::Float64 => ScalarValue::Float64(None),
        DataType::Boolean => ScalarValue::Boolean(None),
        DataType::Utf8 => ScalarValue::Utf8(None),
        DataType::LargeUtf8 => ScalarValue::LargeUtf8(None),
        DataType::Binary => ScalarValue::Binary(None),
        DataType::LargeBinary => ScalarValue::LargeBinary(None),
        DataType::Date32 => ScalarValue::Date32(None),
        DataType::Date64 => ScalarValue::Date64(None),
        DataType::Timestamp(TimeUnit::Second, tz) => ScalarValue::TimestampSecond(None, clone_text(tz)),
        DataType::Timestamp(TimeUnit::Millisecond, tz) => ScalarValue::TimestampMillisecond(None, clone_text(tz)),
        DataType::Timestamp(TimeUnit::Microsecond, tz) => ScalarValue::TimestampMicrosecond(None, clone_text(tz)),
        DataType::Timestamp(TimeUnit::Nanosecond, tz) => ScalarValue::TimestampNanosecond(None, clone_text(tz)),
        DataType::Time32(TimeUnit::Second) => ScalarValue::Time32Second(None),
        DataType::Time32(TimeUnit::Millisecond) => ScalarValue::Time32Millisecond(None),
        DataType::Time64(TimeUnit::Microsecond) => ScalarValue::Time64Microsecond(None),
        DataType::Time64(TimeUnit::Nanosecond) => ScalarValue::Time64Nanosecond(None),
        DataType::Interval(IntervalUnit::YearMonth) => ScalarValue::IntervalYearMonth(None),
        DataType::Interval(IntervalUnit::DayTime) => ScalarValue::IntervalDayTime(None),
        DataType::Interval(IntervalUnit::MonthDayNano) => ScalarValue::IntervalMonthDayNano(None),
        DataType::Duration(TimeUnit::Second) => ScalarValue::DurationSecond(None),
        DataType::Duration(TimeUnit::Millisecond) => ScalarValue::DurationMillisecond(None),
        DataType::Duration(TimeUnit::Microsecond) => ScalarValue::DurationMicrosecond(None),
        DataType::Duration(TimeUnit::Nanosecond) => ScalarValue::DurationNanosecond(None),
        _ => ScalarValue::Null,
    }
}

impl ScalarValue {
    /// Returns whether the value is null.
    pub fn is_null(&self) -> (r: bool)
        ensures
            r == (self@.payload is None),
    {
        match self {
            ScalarValue::Null => true,
            ScalarValue::Int8(v) => v.is_none(),
            ScalarValue::Int16(v) => v.is_none(),
            ScalarValue::Int32(v) => v.is_none(),
            ScalarValue::Int64(v) => v.is_none(),
            ScalarValue::UInt8(v) => v.is_none(),
            ScalarValue::UInt16(v) => v.is_none(),
            ScalarValue::UInt32(v) => v.is_none(),
            ScalarValue::UInt64(v) => v.is_none(),
            ScalarValue::Float32(v) => v.is_none(),
            ScalarValue::Float64(v) => v.is_none(),
            ScalarValue::Boolean(v) => v.is_none(),
            ScalarValue::Utf8(v) => v.is_none(),
            ScalarValue::LargeUtf8(v) => v.is_none(),
            ScalarValue::Binary(v) => v.is_none(),
            ScalarValue::LargeBinary(v) => v.is_none(),
            ScalarValue::Date32(v) => v.is_none(),
            ScalarValue::Date64(v) => v.is_none(),
            ScalarValue::TimestampSecond(v, _) => v.is_none(),
            ScalarValue::TimestampMillisecond(v, _) => v.is_none(),
            ScalarValue::TimestampMicrosecond(v, _) => v.is_none(),
            ScalarValue::TimestampNanosecond(v, _) => v.is_none(),
            ScalarValue::Time32Second(v) => v.is_none(),
            ScalarValue::Time32Millisecond(v) => v.is_none(),
            ScalarValue::Time64Microsecond(v) => v.is_none(),
            ScalarValue::Time64Nanosecond(v) => v.is_none(),
            ScalarValue::IntervalYearMonth(v) => v.is_none(),
            ScalarValue::IntervalDayTime(v) => v.is_none(),
            ScalarValue::IntervalMonthDayNano(v) => v.is_none(),
            ScalarValue::DurationSecond(v) => v.is_none(),
            ScalarValue::DurationMillisecond(v) => v.is_none(),
            ScalarValue::DurationMicrosecond(v) => v.is_none(),
            ScalarValue::DurationNanosecond(v) => v.is_none(),
            ScalarValue::Other(o) => match o.rank {
                OtherRank::Null => true,
                _ => false,
            },
        }
    }
}

// ── Equality and order ────────────────────────────────────────────────────

/// A number for each type; time zones do not count.
#[verifier::opaque]
pub open spec fn type_code(ty: TypeModel) -> u8 {
    match ty {
        TypeModel::Null => 0,
        TypeModel::Int8 => 1,
        TypeModel::Int16 => 2,
        TypeModel::Int32 => 3,
        TypeModel::Int64 => 4,
        TypeModel::UInt8 => 5,
        TypeModel::UInt16 => 6,
        TypeModel::UInt32 => 7,
        TypeModel::UInt64 => 8,
        TypeModel::Float32 => 9,
        TypeModel::Float64 => 10,
        TypeModel::Boolean => 11,
        TypeModel::Utf8 => 12,
        TypeModel::LargeUtf8 => 13,
        TypeModel::Binary => 14,
        TypeModel::LargeBinary => 15,
        TypeModel::Date32 => 16,
        TypeModel::Date64 => 17,
        TypeModel::Timestamp(TimeUnit::Second, _) => 18,
        TypeModel::Timestamp(TimeUnit::Millisecond, _) => 19,
        TypeModel::Timestamp(TimeUnit::Microsecond, _) => 20,
        TypeModel::Timestamp(TimeUnit::Nanosecond, _) => 21,
        TypeModel::Time32(TimeUnit::Second) => 22,
        TypeModel::Time32(TimeUnit::Millisecond) => 23,
        TypeModel::Time64(TimeUnit::Microsecond) => 24,
        TypeModel::Time64(TimeUnit::Nanosecond) => 25,
        TypeModel::Interval(IntervalUnit::YearMonth) => 26,
        TypeModel::Interval(IntervalUnit::DayTime) => 27,
        TypeModel::Interval(IntervalUnit::MonthDayNano) => 28,
        TypeModel::Duration(TimeUnit::Second) => 29,
        TypeModel::Duration(TimeUnit::Millisecond) => 30,
        TypeModel::Duration(TimeUnit::Microsecond) => 31,
        TypeModel::Duration(TimeUnit::Nanosecond) => 32,
        _ => 255,
    }
}

/// What a value is compared by.
#[verifier::opaque]
pub open spec fn sort_key(ty: TypeModel, p: Payload) -> KeyModel {
    match p {
        Payload::Flag(b) => KeyModel::Num(if b {
            1
        } else {
            0
        }),
        Payload::Int(i) => KeyModel::Num(
            match ty {
                TypeModel::Float32 => float_place(i, 0x8000_0000),
                TypeModel::Float64 => float_place(i, 0x8000_0000_0000_0000),
                _ => i,
            },
        ),
        Payload::Text(s) => KeyModel::Raw(encode_utf8(s)),
        Payload::Blob(b) => KeyModel::Raw(b),
        Payload::DayTime(d, m) => KeyModel::Fields(d as int, m as int, 0),
        Payload::MonthDayNano(m, d, n) => KeyModel::Fields(m as int, d as int, n as int),
        Payload::Other(k) => k,
    }
}

/// `a` comes before `b`.
pub open spec fn key_lt(a: KeyModel, b: KeyModel) -> bool {
    match (a, b) {
        (KeyModel::Num(x), KeyModel::Num(y)) => x < y,
        (KeyModel::Raw(x), KeyModel::Raw(y)) => lex_lt(x, y),
        (KeyModel::Fields(x0, x1, x2), KeyModel::Fields(y0, y1, y2)) => x0 < y0 || (x0 == y0 && (x1
            < y1 || (x1 == y1 && x2 < y2))),
        _ => false,
    }
}

/// The scalars are of one family of types that rows cannot hold; nested ones
/// are equal.
pub open spec fn kindred(a: ScalarModel, b: ScalarModel) -> bool {
    &&& match (a.ty, b.ty) {
        (TypeModel::Other(_, x), TypeModel::Other(_, y)) => x == y,
        _ => false,
    }
    &&& match (a.payload, b.payload) {
        (Some(Payload::Other(x)), Some(Payload::Other(y))) => same_shape(x, y),
        (Some(_), Some(_)) => false,
        _ => true,
    }
}

/// Two scalars can be compared: they are of one type that rows can hold or of
/// one family of others, or both are untyped nulls.
pub open spec fn comparable(a: ScalarModel, b: ScalarModel) -> bool {
    type_code(a.ty) == type_code(b.ty) && (type_code(a.ty) != 255 || kindred(a, b))
}

/// The scalars are equal.
pub open spec fn scalar_eq(a: ScalarModel, b: ScalarModel) -> bool {
    comparable(a, b) && match (a.payload, b.payload) {
        (None, None) => true,
        (Some(p), Some(q)) => sort_key(a.ty, p) == sort_key(b.ty, q),
        _ => false,
    }
}

/// `a` is less than `b`; null is less than every value of its type.
pub open spec fn scalar_lt(a: ScalarModel, b: ScalarModel) -> bool {
    comparable(a, b) && match (a.payload, b.payload) {
        (None, Some(_)) => true,
        (Some(p), Some(q)) => key_lt(sort_key(a.ty, p), sort_key(b.ty, q)),
        _ => false,
    }
}

/// What a value is compared by.
pub enum SortKey<'a> {
    /// A number.
    Num(i128),
    /// Bytes in dictionary order.
    Raw(&'a [u8]),
    /// Three numbers, the first of which counts most.
    Fields(i128, i128, i128),
    /// Bytes that are in no order.
    Token(&'a [u8]),
}

/// What a comparison key says.
pub open spec fn key_model(k: SortKey) -> KeyModel {
    match k {
        SortKey::Num(n) => KeyModel::Num(n as int),
        SortKey::Raw(b) => KeyModel::Raw(b@),
        SortKey::Fields(x, y, z) => KeyModel::Fields(x as int, y as int, z as int),
        SortKey::Token(b) => KeyModel::Token(b@),
    }
}

fn float32_place(bits: u32) -> (r: i128)
    ensures
        r == float_place(bits as int, 0x8000_0000),
{
    if bits >= 0x8000_0000u32 {
        0x8000_0000i128 - (bits as i128) - 1
    } else {
        bits as i128
    }
}

fn float64_place(bits: u64) -> (r: i128)
    ensures
        r == float_place(bits as int, 0x8000_0000_0000_0000),
{
    if bits >= 0x8000_0000_0000_0000u64 {
        0x8000_0000_0000_0000i128 - (bits as i128) - 1
    } else {
        bits as i128
    }
}

fn float16_place(bits: u16) -> (r: i128)
    ensures
        r == float_place(bits as int, 0x8000),
{
    if bits >= 0x8000u16 {
        0x8000i128 - (bits as i128) - 1
    } else {
        bits as i128
    }
}

impl OtherValue {
    fn key(&self) -> (r: Option<SortKey<'_>>)
        ensures
            r is Some <==> rank_model(self.rank) is Some,
            r matches Some(k) ==> key_model(k) == (match rank_model(self.rank) {
                Some(Payload::Other(key)) => key,
                _ => KeyModel::Num(0),
            }),
    {
        match &self.rank {
            OtherRank::Null => None,
            OtherRank::Half(b) => Some(SortKey::Num(float16_place(*b))),
            OtherRank::Num(n) => Some(SortKey::Num(*n)),
            OtherRank::Wide(x, y, z) => Some(SortKey::Fields(*x, *y as i128, *z as i128)),
            OtherRank::Raw(b) => Some(SortKey::Raw(b.as_slice())),
            OtherRank::Nested(b) => Some(SortKey::Token(b.as_slice())),
        }
    }

    fn is_kindred(&self, other: &OtherValue) -> (r: bool)
        ensures
            r == kindred(
                ScalarModel {
                    ty: TypeModel::Other(self.name@, self.family@),
                    payload: rank_model(self.rank),
                },
                ScalarModel {
                    ty: TypeModel::Other(other.name@, other.family@),
                    payload: rank_model(other.rank),
                },
            ),
    {
        if self.family != other.family {
            return false;
        }
        match (&self.rank, &other.rank) {
            (OtherRank::Null, _) => true,
            (_, OtherRank::Null) => true,
            (OtherRank::Nested(a), OtherRank::Nested(b)) => matches!(
                compare_keys(a.as_slice(), b.as_slice()),
                KeyOrder::Equal
            ),
            (OtherRank::Raw(_), OtherRank::Raw(_)) => true,
            (OtherRank::Wide(_, _, _), OtherRank::Wide(_, _, _)) => true,
            (OtherRank::Half(_) | OtherRank::Num(_), OtherRank::Half(_) | OtherRank::Num(_)) => true,
            _ => false,
        }
    }
}

impl ScalarValue {
    fn code(&self) -> (r: u8)
        ensures
            r == type_code(self@.ty),
    {
        proof {
            reveal(type_code);
        }
        match self {
            ScalarValue::Null => 0,
            ScalarValue::Int8(_) => 1,
            ScalarValue::Int16(_) => 2,
            ScalarValue::Int32(_) => 3,
            ScalarValue::Int64(_) => 4,
            ScalarValue::UInt8(_) => 5,
            ScalarValue::UInt16(_) => 6,
            ScalarValue::UInt32(_) => 7,
            ScalarValue::UInt64(_) => 8,
            ScalarValue::Float32(_) => 9,
            ScalarValue::Float64(_) => 10,
            ScalarValue::Boolean(_) => 11,
            ScalarValue::Utf8(_) => 12,
            ScalarValue::LargeUtf8(_) => 13,
            ScalarValue::Binary(_) => 14,
            ScalarValue::LargeBinary(_) => 15,
            ScalarValue::Date32(_) => 16,
            ScalarValue::Date64(_) => 17,
            ScalarValue::TimestampSecond(_, _) => 18,
            ScalarValue::TimestampMillisecond(_, _) => 19,
            ScalarValue::TimestampMicrosecond(_, _) => 20,
            ScalarValue::TimestampNanosecond(_, _) => 21,
            ScalarValue::Time32Second(_) => 22,
            ScalarValue::Time32Millisecond(_) => 23,
            ScalarValue::Time64Microsecond(_) => 24,
            ScalarValue::Time64Nanosecond(_) => 25,
            ScalarValue::IntervalYearMonth(_) => 26,
            ScalarValue::IntervalDayTime(_) => 27,
            ScalarValue::IntervalMonthDayNano(_) => 28,
            ScalarValue::DurationSecond(_) => 29,
            ScalarValue::DurationMillisecond(_) => 30,
            ScalarValue::DurationMicrosecond(_) => 31,
            ScalarValue::DurationNanosecond(_) => 32,
            ScalarValue::Other(_) => 255,
        }
    }

    /// Returns what the value is compared by, unless it is null.
    pub fn key(&self) -> (r: Option<SortKey<'_>>)
        ensures
            r is Some <==> self@.payload is Some,
            r matches Some(k) ==> key_model(k) == sort_key(self@.ty, self@.payload->0),
    {
        proof {
            reveal(sort_key);
        }
        match self {
            ScalarValue::Null => None,
            ScalarValue::Int8(v) => match v {
                Some(x) => Some(SortKey::Num(*x as i128)),
                None => None,
            },
            ScalarValue::Int16(v) => match v {
                Some(x) => Some(SortKey::Num(*x as i128)),
                None => None,
            },
            ScalarValue::Int32(v) => match v {
                Some(x) => Some(SortKey::Num(*x as i128)),
                None => None,
            },
            ScalarValue::Int64(v) => match v {
                Some(x) => Some(SortKey::Num(*x as i128)),
                None => None,
            },
            ScalarValue::UInt8(v) => match v {
                Some(x) => Some(SortKey::Num(*x as i128)),
                None => None,
            },
            ScalarValue::UInt16(v) => match v {
                Some(x) => Some(SortKey::Num(*x as i128)),
                None => None,
            },
            ScalarValue::UInt32(v) => match v {
                Some(x) => Some(SortKey::Num(*x as i128)),
                None => None,
            },
            ScalarValue::UInt64(v) => match v {
                Some(x) => Some(SortKey::Num(*x as i128)),
                None => None,
            },
            ScalarValue::Float32(v) => match v {
                Some(x) => Some(SortKey::Num(float32_place(*x))),
                None => None,
            },
            ScalarValue::Float64(v) => match v {
                Some(x) => Some(SortKey::Num(float64_place(*x))),
                None => None,
            },
            ScalarValue::Boolean(v) => match v {
                Some(x) => Some(SortKey::Num(if *x { 1 } else { 0 })),
                None => None,
            },
            ScalarValue::Utf8(v) => match v {
                Some(x) => Some(SortKey::Raw(x.as_str().as_bytes())),
                None => None,
            },
            ScalarValue::LargeUtf8(v) => match v {
                Some(x) => Some(SortKey::Raw(x.as_str().as_bytes())),
                None => None,
            },
            ScalarValue::Binary(v) => match v {
                Some(x) => Some(SortKey::Raw(x.as_slice())),
                None => None,
            },
            ScalarValue::LargeBinary(v) => match v {
                Some(x) => Some(SortKey::Raw(x.as_slice())),
                None => None,
            },
            ScalarValue::Date32(v) => match v {
                Some(x) => Some(SortKey::Num(*x as i128)),
                None => None,
            },
            ScalarValue::Date64(v) => match v {
                Some(x) => Some(SortKey::Num(*x as i128)),
                None => None,
            },
            ScalarValue::TimestampSecond(v, _) => match v {
                Some(x) => Some(SortKey::Num(*x as i128)),
                None => None,
            },
            ScalarValue::TimestampMillisecond(v, _) => match v {
                Some(x) => Some(SortKey::Num(*x as i128)),
                None => None,
            },
            ScalarValue::TimestampMicrosecond(v, _) => match v {
                Some(x) => Some(SortKey::Num(*x as i128)),
                None => None,
            },
            ScalarValue::TimestampNanosecond(v, _) => match v {
                Some(x) => Some(SortKey::Num(*x as i128)),
                None => None,
            },
            ScalarValue::Time32Second(v) => match v {
                Some(x) => Some(SortKey::Num(*x as i128)),
                None => None,
            },
            ScalarValue::Time32Millisecond(v) => match v {
                Some(x) => Some(SortKey::Num(*x as i128)),
                None => None,
            },
            ScalarValue::Time64Microsecond(v) => match v {
                Some(x) => Some(SortKey::Num(*x as i128)),
                None => None,
            },
            ScalarValue::Time64Nanosecond(v) => match v {
                Some(x) => Some(SortKey::Num(*x as i128)),
                None => None,
            },
            ScalarValue::IntervalYearMonth(v) => match v {
                Some(x) => Some(SortKey::Num(*x as i128)),
                None => None,
            },
            ScalarValue::IntervalDayTime(v) => match v {
                Some(x) => Some(SortKey::Fields(x.days as i128, x.milliseconds as i128, 0)),
                None => None,
            },
            ScalarValue::IntervalMonthDayNano(v) => match v {
                Some(x) => Some(
                    SortKey::Fields(x.months as i128, x.days as i128, x.nanoseconds as i128),
                ),
                None => None,
            },
            ScalarValue::DurationSecond(v) => match v {
                Some(x) => Some(SortKey::Num(*x as i128)),
                None => None,
            },
            ScalarValue::DurationMillisecond(v) => match v {
                Some(x) => Some(SortKey::Num(*x as i128)),
                None => None,
            },
            ScalarValue::DurationMicrosecond(v) => match v {
                Some(x) => Some(SortKey::Num(*x as i128)),
                None => None,
            },
            ScalarValue::DurationNanosecond(v) => match v {
                Some(x) => Some(SortKey::Num(*x as i128)),
                None => None,
            },
            ScalarValue::Other(o) => o.key(),
        }
    }

    /// Compares two scalars; none if they cannot be compared.
    pub fn order(&self, other: &ScalarValue) -> (r: Option<KeyOrder>)
        ensures
            r is Some <==> comparable(self@, other@),
            r matches Some(o) ==> {
                &&& o == KeyOrder::Less <==> scalar_lt(self@, other@)
                &&& o == KeyOrder::Equal <==> scalar_eq(self@, other@)
                &&& o == KeyOrder::Greater <==> scalar_lt(other@, self@)
            },
    {
        let code: u8 = self.code();
        if code != other.code() {
            return None;
        }
        if code == 255 {
            match (self, other) {
                (ScalarValue::Other(a), ScalarValue::Other(b)) => {
                    if !a.is_kindred(b) {
                        return None;
                    }
                },
                _ => {
                    return None;
                },
            }
        }
        proof {
            lemma_scalar_well_typed(*self);
            lemma_scalar_well_typed(*other);
            lemma_one_key_shape(self@, other@);
        }
        match (self.key(), other.key()) {
            (None, None) => Some(KeyOrder::Equal),
            (None, Some(_)) => Some(KeyOrder::Less),
            (Some(_), None) => Some(KeyOrder::Greater),
            (Some(a), Some(b)) => Some(order_keys(&a, &b)),
        }
    }
}

/// The keys are of one shape; those in no order are equal.
pub open spec fn same_shape(a: KeyModel, b: KeyModel) -> bool {
    ||| a is Num && b is Num
    ||| a is Raw && b is Raw
    ||| a is Fields && b is Fields
    ||| a is Token && a == b
}

/// The payload is of the kind that the type says.
pub open spec fn well_typed(m: ScalarModel) -> bool {
    m.payload matches Some(p) ==> match layout(m.ty) {
        Layout::Fixed(n, signed) => p matches Payload::Int(i) && in_width(i, n, signed),
        Layout::Flag => p is Flag,
        Layout::Text => p is Text,
        Layout::Blob => p is Blob,
        Layout::DayTime => p is DayTime,
        Layout::MonthDayNano => p is MonthDayNano,
        Layout::Unsupported => p is Other && m.ty is Other,
    }
}

/// The integer fits in `n` bytes.
pub open spec fn in_width(i: int, n: nat, signed: bool) -> bool {
    if signed {
        if n == 1 {
            i8::MIN <= i <= i8::MAX
        } else if n == 2 {
            i16::MIN <= i <= i16::MAX
        } else if n == 4 {
            i32::MIN <= i <= i32::MAX
        } else {
            i64::MIN <= i <= i64::MAX
        }
    } else {
        if n == 1 {
            0 <= i <= u8::MAX
        } else if n == 2 {
            0 <= i <= u16::MAX
        } else if n == 4 {
            0 <= i <= u32::MAX
        } else {
            0 <= i <= u64::MAX
        }
    }
}

/// How the values of a type are laid out in a row.
#[verifier::ext_equal]
pub enum Layout {
    /// Little-endian integer of so many bytes, signed or not.
    Fixed(nat, bool),
    /// One byte, zero or not.
    Flag,
    /// Length-prefixed UTF-8.
    Text,
    /// Length-prefixed bytes.
    Blob,
    /// Two 4-byte integers.
    DayTime,
    /// Two 4-byte integers and an 8-byte one.
    MonthDayNano,
    /// Rows cannot hold the type.
    Unsupported,
}

/// The layout of a type.
#[verifier::opaque]
pub open spec fn layout(ty: TypeModel) -> Layout {
    match ty {
        TypeModel::Int8 => Layout::Fixed(1, true),
        TypeModel::Int16 => Layout::Fixed(2, true),
        TypeModel::Int32 => Layout::Fixed(4, true),
        TypeModel::Int64 => Layout::Fixed(8, true),
        TypeModel::UInt8 => Layout::Fixed(1, false),
        TypeModel::UInt16 => Layout::Fixed(2, false),
        TypeModel::UInt32 => Layout::Fixed(4, false),
        TypeModel::UInt64 => Layout::Fixed(8, false),
        TypeModel::Float32 => Layout::Fixed(4, false),
        TypeModel::Float64 => Layout::Fixed(8, false),
        TypeModel::Boolean => Layout::Flag,
        TypeModel::Utf8 => Layout::Text,
        TypeModel::LargeUtf8 => Layout::Text,
        TypeModel::Binary => Layout::Blob,
        TypeModel::LargeBinary => Layout::Blob,
        TypeModel::Date32 => Layout::Fixed(4, true),
        TypeModel::Date64 => Layout::Fixed(8, true),
        TypeModel::Timestamp(TimeUnit::Second, _) => Layout::Fixed(8, true),
        TypeModel::Timestamp(TimeUnit::Millisecond, _) => Layout::Fixed(8, true),
        TypeModel::Timestamp(TimeUnit::Microsecond, _) => Layout::Fixed(8, true),
        TypeModel::Timestamp(TimeUnit::Nanosecond, _) => Layout::Fixed(8, true),
        TypeModel::Time32(TimeUnit::Second) => Layout::Fixed(4, true),
        TypeModel::Time32(TimeUnit::Millisecond) => Layout::Fixed(4, true),
        TypeModel::Time64(TimeUnit::Microsecond) => Layout::Fixed(8, true),
        TypeModel::Time64(TimeUnit::Nanosecond) => Layout::Fixed(8, true),
        TypeModel::Interval(IntervalUnit::YearMonth) => Layout::Fixed(4, true),
        TypeModel::Interval(IntervalUnit::DayTime) => Layout::DayTime,
        TypeModel::Interval(IntervalUnit::MonthDayNano) => Layout::MonthDayNano,
        TypeModel::Duration(TimeUnit::Second) => Layout::Fixed(8, true),
        TypeModel::Duration(TimeUnit::Millisecond) => Layout::Fixed(8, true),
        TypeModel::Duration(TimeUnit::Microsecond) => Layout::Fixed(8, true),
        TypeModel::Duration(TimeUnit::Nanosecond) => Layout::Fixed(8, true),
        _ => Layout::Unsupported,
    }
}

/// Every scalar's payload is of the kind that its type says.
pub proof fn lemma_scalar_well_typed(v: ScalarValue)
    ensures
        well_typed(v@),
        type_code(v@.ty) != 255 && v@.payload is Some ==> is_supported(v@.ty),
{
    reveal(type_code);
    reveal(layout);
    match v {
        ScalarValue::Null => {},
        ScalarValue::Int8(_) => {},
        ScalarValue::Int16(_) => {},
        ScalarValue::Int32(_) => {},
        ScalarValue::Int64(_) => {},
        ScalarValue::UInt8(_) => {},
        ScalarValue::UInt16(_) => {},
        ScalarValue::UInt32(_) => {},
        ScalarValue::UInt64(_) => {},
        ScalarValue::Float32(_) => {},
        ScalarValue::Float64(_) => {},
        ScalarValue::Boolean(_) => {},
        ScalarValue::Utf8(_) => {},
        ScalarValue::LargeUtf8(_) => {},
        ScalarValue::Binary(_) => {},
        ScalarValue::LargeBinary(_) => {},
        ScalarValue::Date32(_) => {},
        ScalarValue::Date64(_) => {},
        ScalarValue::TimestampSecond(_, _) => {},
        ScalarValue::TimestampMillisecond(_, _) => {},
        ScalarValue::TimestampMicrosecond(_, _) => {},
        ScalarValue::TimestampNanosecond(_, _) => {},
        ScalarValue::Time32Second(_) => {},
        ScalarValue::Time32Millisecond(_) => {},
        ScalarValue::Time64Microsecond(_) => {},
        ScalarValue::Time64Nanosecond(_) => {},
        ScalarValue::IntervalYearMonth(_) => {},
        ScalarValue::IntervalDayTime(_) => {},
        ScalarValue::IntervalMonthDayNano(_) => {},
        ScalarValue::DurationSecond(_) => {},
        ScalarValue::DurationMillisecond(_) => {},
        ScalarValue::DurationMicrosecond(_) => {},
        ScalarValue::DurationNanosecond(_) => {},
        ScalarValue::Other(_) => {},
    }
}

/// Comparable values are compared by keys of one shape.
pub proof fn lemma_one_key_shape(a: ScalarModel, b: ScalarModel)
    requires
        well_typed(a),
        well_typed(b),
        comparable(a, b),
    ensures
        a.payload is Some && b.payload is Some ==> same_shape(
            sort_key(a.ty, a.payload->0),
            sort_key(b.ty, b.payload->0),
        ),
{
    reveal(type_code);
    reveal(layout);
    reveal(sort_key);
}

fn order_keys(a: &SortKey, b: &SortKey) -> (r: KeyOrder)
    requires
        same_shape(key_model(*a), key_model(*b)),
    ensures
        r == KeyOrder::Less <==> key_lt(key_model(*a), key_model(*b)),
        r == KeyOrder::Equal <==> key_model(*a) == key_model(*b),
        r == KeyOrder::Greater <==> key_lt(key_model(*b), key_model(*a)),
{
    match (a, b) {
        (SortKey::Num(x), SortKey::Num(y)) => {
            if *x < *y {
                KeyOrder::Less
            } else if *x == *y {
                KeyOrder::Equal
            } else {
                KeyOrder::Greater
            }
        },
        (SortKey::Raw(x), SortKey::Raw(y)) => compare_keys(x, y),
        (SortKey::Fields(x0, x1, x2), SortKey::Fields(y0, y1, y2)) => {
            if *x0 < *y0 || (*x0 == *y0 && (*x1 < *y1 || (*x1 == *y1 && *x2 < *y2))) {
                KeyOrder::Less
            } else if *x0 == *y0 && *x1 == *y1 && *x2 == *y2 {
                KeyOrder::Equal
            } else {
                KeyOrder::Greater
            }
        },
        _ => KeyOrder::Equal,
    }
}

} // verus!
