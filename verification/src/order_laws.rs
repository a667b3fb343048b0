//! What comparing bytes, values and rows comes down to.

use crate::buf::{has_prefix, in_range, lemma_lex_total, lex_le, lex_lt};
use crate::column_predicate::{
    column_of, predicate_models, row_matches, row_satisfies, satisfies, BoundModel, ColumnPredicate,
    PredicateModel,
};
use crate::keys::successor;
use crate::scalar::{
    comparable, layout, lemma_one_key_shape, scalar_models, sort_key, type_code, well_typed,
    IntervalDayTime, IntervalMonthDayNano, IntervalUnit, OtherRank, OtherValue, Payload,
    ScalarModel, ScalarValue, TimeUnit, TypeModel,
};
use vstd::prelude::*;
use vstd::utf8::encode_utf8;

verus! {

// ── Bytes ─────────────────────────────────────────────────────────────────

/// Bytes are in dictionary order: one string comes before another exactly where
/// it is a shorter beginning of it, or has the smaller byte at the first place
/// where they differ.
pub proof fn law_bytes_are_in_dictionary_order(a: Seq<u8>, b: Seq<u8>)
    ensures
        lex_lt(a, b) <==> exists|n: int|
            0 <= n <= a.len() && n < b.len() && #[trigger] a.take(n) == b.take(n) && (n == a.len()
                || a[n] < b[n]),
        lex_le(a, b) <==> a == b || lex_lt(a, b),
    decreases a.len(),
{
    if a.len() == 0 || b.len() == 0 {
        if b.len() > 0 {
            assert(a.take(0) =~= b.take(0));
        }
    } else {
        let (x, y) = (a.drop_first(), b.drop_first());
        law_bytes_are_in_dictionary_order(x, y);
        if lex_lt(a, b) {
            if a[0] < b[0] {
                assert(a.take(0) =~= b.take(0));
            } else {
                let n = choose|n: int|
                    0 <= n <= x.len() && n < y.len() && #[trigger] x.take(n) == y.take(n) && (n
                        == x.len() || x[n] < y[n]);
                assert(a.take(n + 1) =~= seq![a[0]] + x.take(n));
                assert(b.take(n + 1) =~= seq![b[0]] + y.take(n));
            }
        }
        if exists|n: int|
            0 <= n <= a.len() && n < b.len() && #[trigger] a.take(n) == b.take(n) && (n == a.len()
                || a[n] < b[n]) {
            let n = choose|n: int|
                0 <= n <= a.len() && n < b.len() && #[trigger] a.take(n) == b.take(n) && (n
                    == a.len() || a[n] < b[n]);
            if n > 0 {
                assert(a.take(n)[0] == b.take(n)[0]);
                assert(x.take(n - 1) =~= a.take(n).drop_first());
                assert(y.take(n - 1) =~= b.take(n).drop_first());
            }
        }
    }
}

/// A key is in `[lower, upper)` exactly where it does not come before `lower`
/// and comes before `upper`.
pub proof fn law_ranges_are_half_open(k: Seq<u8>, lower: Seq<u8>, upper: Seq<u8>)
    ensures
        in_range(k, lower, upper) <==> !lex_lt(k, lower) && lex_lt(k, upper),
        lex_lt(lower, upper) ==> in_range(lower, lower, upper),
        !in_range(upper, lower, upper),
{
    lemma_lex_total(k, lower);
    lemma_lex_total(upper, upper);
}

// ── Values ────────────────────────────────────────────────────────────────

/// The type counts something: its values are integers, dates, times, spans or
/// months.
pub open spec fn counts(ty: TypeModel) -> bool {
    match ty {
        TypeModel::Int8 | TypeModel::Int16 | TypeModel::Int32 | TypeModel::Int64 => true,
        TypeModel::UInt8 | TypeModel::UInt16 | TypeModel::UInt32 | TypeModel::UInt64 => true,
        TypeModel::Date32 | TypeModel::Date64 => true,
        TypeModel::Timestamp(_, _) | TypeModel::Duration(_) => true,
        TypeModel::Time32(u) => u == TimeUnit::Second || u == TimeUnit::Millisecond,
        TypeModel::Time64(u) => u == TimeUnit::Microsecond || u == TimeUnit::Nanosecond,
        TypeModel::Interval(u) => u == IntervalUnit::YearMonth,
        _ => false,
    }
}

/// Evaluating a predicate says of a value what the comparisons below are about.
pub proof fn law_evaluate_judges_the_value(p: &ColumnPredicate, v: &ScalarValue, r: bool)
    requires
        call_ensures(ColumnPredicate::evaluate, (p, v), r),
    ensures
        r == satisfies(v@, p@),
        match *p {
            ColumnPredicate::Eq { col, value } => p@ == PredicateModel::Eq(col, value@),
            ColumnPredicate::LessThan { col, value } => p@ == PredicateModel::LessThan(col, value@),
            ColumnPredicate::LessThanOrEqual { col, value } => p@
                == PredicateModel::LessThanOrEqual(col, value@),
            ColumnPredicate::GreaterThan { col, value } => p@ == PredicateModel::GreaterThan(
                col,
                value@,
            ),
            ColumnPredicate::GreaterThanOrEqual { col, value } => p@
                == PredicateModel::GreaterThanOrEqual(col, value@),
            ColumnPredicate::Range { col, lower, upper } => p@ == PredicateModel::Range(
                col,
                match lower {
                    Some(b) => Some(BoundModel { value: b.value@, inclusive: b.inclusive }),
                    None => None,
                },
                match upper {
                    Some(b) => Some(BoundModel { value: b.value@, inclusive: b.inclusive }),
                    None => None,
                },
            ),
        },
{
}

/// Values of one counting type are compared as the numbers they hold. Time
/// zones do not count.
pub proof fn law_numbers_are_compared_as_numbers(
    ty: TypeModel,
    other: TypeModel,
    col: usize,
    a: int,
    b: int,
)
    requires
        counts(ty),
        other == ty || (ty matches TypeModel::Timestamp(u, _) && (other matches
            TypeModel::Timestamp(w, _) && u == w)),
    ensures
        ({
            let v = ScalarModel { ty, payload: Some(Payload::Int(a)) };
            let x = ScalarModel { ty: other, payload: Some(Payload::Int(b)) };
            &&& satisfies(v, PredicateModel::Eq(col, x)) <==> a == b
            &&& satisfies(v, PredicateModel::LessThan(col, x)) <==> a < b
            &&& satisfies(v, PredicateModel::LessThanOrEqual(col, x)) <==> a <= b
            &&& satisfies(v, PredicateModel::GreaterThan(col, x)) <==> a > b
            &&& satisfies(v, PredicateModel::GreaterThanOrEqual(col, x)) <==> a >= b
        }),
{
    reveal(type_code);
    reveal(sort_key);
}

/// Truth values are compared with false before true.
pub proof fn law_flags_are_compared_false_first(col: usize, a: bool, b: bool)
    ensures
        ({
            let v = ScalarModel { ty: TypeModel::Boolean, payload: Some(Payload::Flag(a)) };
            let x = ScalarModel { ty: TypeModel::Boolean, payload: Some(Payload::Flag(b)) };
            &&& satisfies(v, PredicateModel::Eq(col, x)) <==> a == b
            &&& satisfies(v, PredicateModel::LessThan(col, x)) <==> !a && b
            &&& satisfies(v, PredicateModel::LessThanOrEqual(col, x)) <==> (a ==> b)
            &&& satisfies(v, PredicateModel::GreaterThan(col, x)) <==> a && !b
            &&& satisfies(v, PredicateModel::GreaterThanOrEqual(col, x)) <==> (b ==> a)
        }),
{
    reveal(type_code);
    reveal(sort_key);
}

/// Texts are compared by their UTF-8 bytes, and bytes as they are, both in
/// dictionary order.
pub proof fn law_texts_and_bytes_are_compared_in_dictionary_order(
    col: usize,
    large: bool,
    s: Seq<char>,
    t: Seq<char>,
    a: Seq<u8>,
    b: Seq<u8>,
)
    ensures
        ({
            let ty = if large {
                TypeModel::LargeUtf8
            } else {
                TypeModel::Utf8
            };
            let v = ScalarModel { ty, payload: Some(Payload::Text(s)) };
            let x = ScalarModel { ty, payload: Some(Payload::Text(t)) };
            let (p, q) = (encode_utf8(s), encode_utf8(t));
            &&& satisfies(v, PredicateModel::Eq(col, x)) <==> p == q
            &&& satisfies(v, PredicateModel::LessThan(col, x)) <==> lex_lt(p, q)
            &&& satisfies(v, PredicateModel::LessThanOrEqual(col, x)) <==> !lex_lt(q, p)
            &&& satisfies(v, PredicateModel::GreaterThan(col, x)) <==> lex_lt(q, p)
            &&& satisfies(v, PredicateModel::GreaterThanOrEqual(col, x)) <==> !lex_lt(p, q)
        }),
        ({
            let ty = if large {
                TypeModel::LargeBinary
            } else {
                TypeModel::Binary
            };
            let v = ScalarModel { ty, payload: Some(Payload::Blob(a)) };
            let x = ScalarModel { ty, payload: Some(Payload::Blob(b)) };
            &&& satisfies(v, PredicateModel::Eq(col, x)) <==> a == b
            &&& satisfies(v, PredicateModel::LessThan(col, x)) <==> lex_lt(a, b)
            &&& satisfies(v, PredicateModel::LessThanOrEqual(col, x)) <==> !lex_lt(b, a)
            &&& satisfies(v, PredicateModel::GreaterThan(col, x)) <==> lex_lt(b, a)
            &&& satisfies(v, PredicateModel::GreaterThanOrEqual(col, x)) <==> !lex_lt(a, b)
        }),
{
    reveal(type_code);
    reveal(sort_key);
    lemma_lex_total(a, b);
    lemma_lex_total(encode_utf8(s), encode_utf8(t));
}

/// Floating-point numbers are compared by sign and magnitude: the bits above the
/// lowest `sign` hold the sign, and of two negative numbers the one of greater
/// magnitude is less. Equal are equal bits only.
pub proof fn law_floats_are_compared_by_sign_and_magnitude(col: usize, double: bool, a: int, b: int)
    requires
        0 <= a,
        0 <= b,
    ensures
        ({
            let (ty, sign) = if double {
                (TypeModel::Float64, 0x8000_0000_0000_0000int)
            } else {
                (TypeModel::Float32, 0x8000_0000int)
            };
            let v = ScalarModel { ty, payload: Some(Payload::Int(a)) };
            let x = ScalarModel { ty, payload: Some(Payload::Int(b)) };
            let (below, above) = (a >= sign, b >= sign);
            let less = if below != above {
                below
            } else if below {
                a > b
            } else {
                a < b
            };
            &&& satisfies(v, PredicateModel::Eq(col, x)) <==> a == b
            &&& satisfies(v, PredicateModel::LessThan(col, x)) <==> less
            &&& satisfies(v, PredicateModel::LessThanOrEqual(col, x)) <==> less || a == b
            &&& satisfies(v, PredicateModel::GreaterThan(col, x)) <==> !less && a != b
            &&& satisfies(v, PredicateModel::GreaterThanOrEqual(col, x)) <==> !less
        }),
{
    reveal(type_code);
    reveal(sort_key);
}

/// Intervals are compared by their largest part, and where it is equal by the
/// next.
pub proof fn law_intervals_are_compared_by_their_parts(
    col: usize,
    a: (i32, i32),
    b: (i32, i32),
    c: (i32, i32, i64),
    d: (i32, i32, i64),
)
    ensures
        ({
            let ty = TypeModel::Interval(IntervalUnit::DayTime);
            let v = ScalarModel { ty, payload: Some(Payload::DayTime(a.0, a.1)) };
            let x = ScalarModel { ty, payload: Some(Payload::DayTime(b.0, b.1)) };
            let less = a.0 < b.0 || (a.0 == b.0 && a.1 < b.1);
            &&& satisfies(v, PredicateModel::Eq(col, x)) <==> a == b
            &&& satisfies(v, PredicateModel::LessThan(col, x)) <==> less
            &&& satisfies(v, PredicateModel::LessThanOrEqual(col, x)) <==> less || a == b
            &&& satisfies(v, PredicateModel::GreaterThan(col, x)) <==> !less && a != b
            &&& satisfies(v, PredicateModel::GreaterThanOrEqual(col, x)) <==> !less
        }),
        ({
            let ty = TypeModel::Interval(IntervalUnit::MonthDayNano);
            let v = ScalarModel { ty, payload: Some(Payload::MonthDayNano(c.0, c.1, c.2)) };
            let x = ScalarModel { ty, payload: Some(Payload::MonthDayNano(d.0, d.1, d.2)) };
            let less = c.0 < d.0 || (c.0 == d.0 && (c.1 < d.1 || (c.1 == d.1 && c.2 < d.2)));
            &&& satisfies(v, PredicateModel::Eq(col, x)) <==> c == d
            &&& satisfies(v, PredicateModel::LessThan(col, x)) <==> less
            &&& satisfies(v, PredicateModel::LessThanOrEqual(col, x)) <==> less || c == d
            &&& satisfies(v, PredicateModel::GreaterThan(col, x)) <==> !less && c != d
            &&& satisfies(v, PredicateModel::GreaterThanOrEqual(col, x)) <==> !less
        }),
{
    reveal(type_code);
    reveal(sort_key);
}

/// The five comparisons of a value with a literal fit together: the two strict
/// ones and equality exclude each other, the others are the strict one or
/// equality, and turning value and literal around turns the comparison around.
/// Of a value and a literal that can be compared one of the three holds.
pub proof fn law_comparisons_fit_together(v: ScalarModel, col: usize, x: ScalarModel)
    requires
        well_typed(v),
        well_typed(x),
        v.payload is Some,
        x.payload is Some,
    ensures
        ({
            let lt = satisfies(v, PredicateModel::LessThan(col, x));
            let eq = satisfies(v, PredicateModel::Eq(col, x));
            let gt = satisfies(v, PredicateModel::GreaterThan(col, x));
            &&& !(lt && eq) && !(lt && gt) && !(eq && gt)
            &&& comparable(v, x) <==> lt || eq || gt
            &&& satisfies(v, PredicateModel::LessThanOrEqual(col, x)) <==> lt || eq
            &&& satisfies(v, PredicateModel::GreaterThanOrEqual(col, x)) <==> gt || eq
            &&& lt <==> satisfies(x, PredicateModel::GreaterThan(col, v))
            &&& gt <==> satisfies(x, PredicateModel::LessThan(col, v))
            &&& eq <==> satisfies(x, PredicateModel::Eq(col, v))
        }),
{
    let (a, b) = (sort_key(v.ty, v.payload->0), sort_key(x.ty, x.payload->0));
    if a is Raw && b is Raw {
        lemma_lex_total(a->Raw_0, b->Raw_0);
    }
    if comparable(v, x) {
        lemma_one_key_shape(v, x);
    }
    if comparable(x, v) {
        lemma_one_key_shape(x, v);
    }
}

/// Values of two types that rows can hold are never compared: neither is less
/// than, equal to or greater than the other.
pub proof fn law_types_are_not_mixed(v: ScalarModel, col: usize, x: ScalarModel)
    requires
        v.ty != x.ty,
        !(v.ty is Timestamp && x.ty is Timestamp),
        layout(v.ty) !is Unsupported,
        layout(x.ty) !is Unsupported,
    ensures
        !satisfies(v, PredicateModel::Eq(col, x)),
        !satisfies(v, PredicateModel::LessThan(col, x)),
        !satisfies(v, PredicateModel::LessThanOrEqual(col, x)),
        !satisfies(v, PredicateModel::GreaterThan(col, x)),
        !satisfies(v, PredicateModel::GreaterThanOrEqual(col, x)),
{
    reveal(type_code);
    reveal(layout);
}

/// A null satisfies nothing; a null literal is below every value of its type.
pub proof fn law_nulls_come_first(v: ScalarModel, col: usize, p: PredicateModel, ty: TypeModel)
    ensures
        v.payload is None ==> !satisfies(v, p),
        v.payload is Some && v.ty == ty && layout(ty) !is Unsupported ==> {
            let x = ScalarModel { ty, payload: None };
            &&& satisfies(v, PredicateModel::GreaterThan(col, x))
            &&& satisfies(v, PredicateModel::GreaterThanOrEqual(col, x))
            &&& !satisfies(v, PredicateModel::Eq(col, x))
            &&& !satisfies(v, PredicateModel::LessThan(col, x))
            &&& !satisfies(v, PredicateModel::LessThanOrEqual(col, x))
        },
{
    reveal(type_code);
    reveal(layout);
}

/// A range holds of a value exactly where each bound that it has holds: `>=` or
/// `>` for the lower, `<=` or `<` for the upper one. Without bounds it holds of
/// every value but null.
pub proof fn law_ranges_are_their_bounds(
    v: ScalarModel,
    col: usize,
    lower: Option<BoundModel>,
    upper: Option<BoundModel>,
)
    ensures
        satisfies(v, PredicateModel::Range(col, lower, upper)) <==> {
            &&& v.payload is Some
            &&& lower matches Some(b) ==> satisfies(
                v,
                if b.inclusive {
                    PredicateModel::GreaterThanOrEqual(col, b.value)
                } else {
                    PredicateModel::GreaterThan(col, b.value)
                },
            )
            &&& upper matches Some(b) ==> satisfies(
                v,
                if b.inclusive {
                    PredicateModel::LessThanOrEqual(col, b.value)
                } else {
                    PredicateModel::LessThan(col, b.value)
                },
            )
        },
{
}

/// A value of a type that rows cannot hold is compared within its family, by its
/// number, its bytes or its words; nested values are equal or in no order.
pub proof fn law_other_values_are_compared_in_their_family(
    v: OtherValue,
    col: usize,
    x: OtherValue,
)
    ensures
        ({
            let a = ScalarValue::Other(v)@;
            let b = ScalarValue::Other(x)@;
            let eq = satisfies(a, PredicateModel::Eq(col, b));
            let lt = satisfies(a, PredicateModel::LessThan(col, b));
            let gt = satisfies(a, PredicateModel::GreaterThan(col, b));
            if v.family@ != x.family@ {
                !eq && !lt && !gt
            } else {
                match (v.rank, x.rank) {
                    (OtherRank::Num(n), OtherRank::Num(m)) => (eq <==> n == m) && (lt <==> n < m)
                        && (gt <==> n > m),
                    (OtherRank::Raw(s), OtherRank::Raw(t)) => (eq <==> s@ == t@) && (lt <==> lex_lt(
                        s@,
                        t@,
                    )) && (gt <==> lex_lt(t@, s@)),
                    (OtherRank::Wide(p, q, r), OtherRank::Wide(k, l, m)) => {
                        &&& eq <==> p == k && q == l && r == m
                        &&& lt <==> p < k || (p == k && (q < l || (q == l && r < m)))
                        &&& gt <==> k < p || (p == k && (l < q || (q == l && m < r)))
                    },
                    (OtherRank::Nested(s), OtherRank::Nested(t)) => (eq <==> s@ == t@) && !lt
                        && !gt,
                    (OtherRank::Null, _) => !eq && !lt && !gt,
                    _ => true,
                }
            }
        }),
{
    reveal(type_code);
    reveal(sort_key);
}

/// A value says what it holds: its variant gives the type, and its content the
/// payload.
pub proof fn law_values_say_what_they_hold(v: ScalarValue)
    ensures
        match v {
            ScalarValue::Null => v@.ty == TypeModel::Null && v@.payload is None,
            ScalarValue::Int8(x) => v@.ty == TypeModel::Int8 && v@.payload == (match x {
                Some(x) => Some(Payload::Int(x as int)),
                None => None,
            }),
            ScalarValue::Int16(x) => v@.ty == TypeModel::Int16 && v@.payload == (match x {
                Some(x) => Some(Payload::Int(x as int)),
                None => None,
            }),
            ScalarValue::Int32(x) => v@.ty == TypeModel::Int32 && v@.payload == (match x {
                Some(x) => Some(Payload::Int(x as int)),
                None => None,
            }),
            ScalarValue::Int64(x) => v@.ty == TypeModel::Int64 && v@.payload == (match x {
                Some(x) => Some(Payload::Int(x as int)),
                None => None,
            }),
            ScalarValue::UInt8(x) => v@.ty == TypeModel::UInt8 && v@.payload == (match x {
                Some(x) => Some(Payload::Int(x as int)),
                None => None,
            }),
            ScalarValue::UInt16(x) => v@.ty == TypeModel::UInt16 && v@.payload == (match x {
                Some(x) => Some(Payload::Int(x as int)),
                None => None,
            }),
            ScalarValue::UInt32(x) => v@.ty == TypeModel::UInt32 && v@.payload == (match x {
                Some(x) => Some(Payload::Int(x as int)),
                None => None,
            }),
            ScalarValue::UInt64(x) => v@.ty == TypeModel::UInt64 && v@.payload == (match x {
                Some(x) => Some(Payload::Int(x as int)),
                None => None,
            }),
            ScalarValue::Float32(x) => v@.ty == TypeModel::Float32 && v@.payload == (match x {
                Some(x) => Some(Payload::Int(x as int)),
                None => None,
            }),
            ScalarValue::Float64(x) => v@.ty == TypeModel::Float64 && v@.payload == (match x {
                Some(x) => Some(Payload::Int(x as int)),
                None => None,
            }),
            ScalarValue::Date32(x) => v@.ty == TypeModel::Date32 && v@.payload == (match x {
                Some(x) => Some(Payload::Int(x as int)),
                None => None,
            }),
            ScalarValue::Date64(x) => v@.ty == TypeModel::Date64 && v@.payload == (match x {
                Some(x) => Some(Payload::Int(x as int)),
                None => None,
            }),
            ScalarValue::Boolean(x) => v@.ty == TypeModel::Boolean && v@.payload == (match x {
                Some(x) => Some(Payload::Flag(x)),
                None => None,
            }),
            ScalarValue::Utf8(x) => v@.ty == TypeModel::Utf8 && v@.payload == (match x {
                Some(x) => Some(Payload::Text(x@)),
                None => None,
            }),
            ScalarValue::LargeUtf8(x) => v@.ty == TypeModel::LargeUtf8 && v@.payload == (match x {
                Some(x) => Some(Payload::Text(x@)),
                None => None,
            }),
            ScalarValue::Binary(x) => v@.ty == TypeModel::Binary && v@.payload == (match x {
                Some(x) => Some(Payload::Blob(x@)),
                None => None,
            }),
            ScalarValue::LargeBinary(x) => v@.ty == TypeModel::LargeBinary && v@.payload == (match x {
                Some(x) => Some(Payload::Blob(x@)),
                None => None,
            }),
            ScalarValue::TimestampSecond(x, z) => v@.ty == TypeModel::Timestamp(TimeUnit::Second, match z { Some(z) => Some(z@), None => None }) && v@.payload == (match x {
                Some(x) => Some(Payload::Int(x as int)),
                None => None,
            }),
            ScalarValue::DurationSecond(x) => v@.ty == TypeModel::Duration(TimeUnit::Second) && v@.payload == (match x {
                Some(x) => Some(Payload::Int(x as int)),
                None => None,
            }),
            ScalarValue::TimestampMillisecond(x, z) => v@.ty == TypeModel::Timestamp(TimeUnit::Millisecond, match z { Some(z) => Some(z@), None => None }) && v@.payload == (match x {
                Some(x) => Some(Payload::Int(x as int)),
                None => None,
            }),
            ScalarValue::DurationMillisecond(x) => v@.ty == TypeModel::Duration(TimeUnit::Millisecond) && v@.payload == (match x {
                Some(x) => Some(Payload::Int(x as int)),
                None => None,
            }),
            ScalarValue::TimestampMicrosecond(x, z) => v@.ty == TypeModel::Timestamp(TimeUnit::Microsecond, match z { Some(z) => Some(z@), None => None }) && v@.payload == (match x {
                Some(x) => Some(Payload::Int(x as int)),
                None => None,
            }),
            ScalarValue::DurationMicrosecond(x) => v@.ty == TypeModel::Duration(TimeUnit::Microsecond) && v@.payload == (match x {
                Some(x) => Some(Payload::Int(x as int)),
                None => None,
            }),
            ScalarValue::TimestampNanosecond(x, z) => v@.ty == TypeModel::Timestamp(TimeUnit::Nanosecond, match z { Some(z) => Some(z@), None => None }) && v@.payload == (match x {
                Some(x) => Some(Payload::Int(x as int)),
                None => None,
            }),
            ScalarValue::DurationNanosecond(x) => v@.ty == TypeModel::Duration(TimeUnit::Nanosecond) && v@.payload == (match x {
                Some(x) => Some(Payload::Int(x as int)),
                None => None,
            }),
            ScalarValue::Time32Second(x) => v@.ty == TypeModel::Time32(TimeUnit::Second) && v@.payload == (match x {
                Some(x) => Some(Payload::Int(x as int)),
                None => None,
            }),
            ScalarValue::Time32Millisecond(x) => v@.ty == TypeModel::Time32(TimeUnit::Millisecond) && v@.payload == (match x {
                Some(x) => Some(Payload::Int(x as int)),
                None => None,
            }),
            ScalarValue::Time64Microsecond(x) => v@.ty == TypeModel::Time64(TimeUnit::Microsecond) && v@.payload == (match x {
                Some(x) => Some(Payload::Int(x as int)),
                None => None,
            }),
            ScalarValue::Time64Nanosecond(x) => v@.ty == TypeModel::Time64(TimeUnit::Nanosecond) && v@.payload == (match x {
                Some(x) => Some(Payload::Int(x as int)),
                None => None,
            }),
            ScalarValue::IntervalYearMonth(x) => v@.ty == TypeModel::Interval(IntervalUnit::YearMonth) && v@.payload == (match x {
                Some(x) => Some(Payload::Int(x as int)),
                None => None,
            }),
            ScalarValue::IntervalDayTime(x) => v@.ty == TypeModel::Interval(IntervalUnit::DayTime) && v@.payload == (match x {
                Some(x) => Some(Payload::DayTime(x.days, x.milliseconds)),
                None => None,
            }),
            ScalarValue::IntervalMonthDayNano(x) => v@.ty == TypeModel::Interval(IntervalUnit::MonthDayNano) && v@.payload == (match x {
                Some(x) => Some(Payload::MonthDayNano(x.months, x.days, x.nanoseconds)),
                None => None,
            }),
            ScalarValue::Other(o) => v@.ty == TypeModel::Other(o.name@, o.family@) && (v@.payload
                is None <==> o.rank == OtherRank::Null),
        },
{
}

// ── Rows ──────────────────────────────────────────────────────────────────

/// A row matches exactly where it has the column of every predicate, and the
/// value there satisfies it: none of the predicates is left out.
pub proof fn law_rows_match_every_predicate(
    row: &[ScalarValue],
    predicates: &[ColumnPredicate],
    r: bool,
)
    requires
        call_ensures(row_matches, (row, predicates), r),
    ensures
        r <==> forall|i: int|
            0 <= i < predicates@.len() ==> {
                let c = match #[trigger] predicates@[i] {
                    ColumnPredicate::Eq { col, .. } => col,
                    ColumnPredicate::LessThan { col, .. } => col,
                    ColumnPredicate::LessThanOrEqual { col, .. } => col,
                    ColumnPredicate::GreaterThan { col, .. } => col,
                    ColumnPredicate::GreaterThanOrEqual { col, .. } => col,
                    ColumnPredicate::Range { col, .. } => col,
                };
                c < row@.len() && satisfies(row@[c as int]@, predicates@[i]@)
            },
{
    let ps = predicate_models(predicates@);
    let cells = scalar_models(row@);
    assert forall|c: int| 0 <= c < row@.len() implies #[trigger] cells[c] == row@[c]@ by {
    }
    if r {
        assert forall|i: int| 0 <= i < predicates@.len() implies {
            let c = column_of((#[trigger] predicates@[i])@);
            c < row@.len() && satisfies(row@[c as int]@, predicates@[i]@)
        } by {
            assert(ps[i] == predicates@[i]@);
            let c = column_of(ps[i]) as int;
            assert(cells[c] == row@[c]@);
        }
    } else {
        let i = choose|i: int|
            0 <= i < ps.len() && !{
                let c = column_of(#[trigger] ps[i]) as int;
                c < cells.len() && satisfies(cells[c], ps[i])
            };
        let c = column_of(ps[i]) as int;
        assert(ps[i] == predicates@[i]@);
        if c < cells.len() {
            assert(cells[c] == row@[c]@);
        }
    }
}

/// More predicates match fewer rows: a row satisfies a list exactly where it
/// satisfies each half of it, and one predicate exactly where its column does.
pub proof fn law_predicates_add_up(
    cells: Seq<ScalarModel>,
    ps: Seq<PredicateModel>,
    qs: Seq<PredicateModel>,
    p: PredicateModel,
)
    ensures
        row_satisfies(cells, ps + qs) <==> row_satisfies(cells, ps) && row_satisfies(cells, qs),
        row_satisfies(cells, seq![p]) <==> column_of(p) < cells.len() && satisfies(
            cells[column_of(p) as int],
            p,
        ),
        row_satisfies(cells, Seq::empty()),
        match p {
            PredicateModel::Eq(c, _) => column_of(p) == c,
            PredicateModel::LessThan(c, _) => column_of(p) == c,
            PredicateModel::LessThanOrEqual(c, _) => column_of(p) == c,
            PredicateModel::GreaterThan(c, _) => column_of(p) == c,
            PredicateModel::GreaterThanOrEqual(c, _) => column_of(p) == c,
            PredicateModel::Range(c, _, _) => column_of(p) == c,
        },
{
    let all = ps + qs;
    if row_satisfies(cells, all) {
        assert forall|i: int| 0 <= i < ps.len() implies {
            let c = column_of(#[trigger] ps[i]) as int;
            c < cells.len() && satisfies(cells[c], ps[i])
        } by {
            assert(all[i] == ps[i]);
        }
        assert forall|i: int| 0 <= i < qs.len() implies {
            let c = column_of(#[trigger] qs[i]) as int;
            c < cells.len() && satisfies(cells[c], qs[i])
        } by {
            assert(all[ps.len() + i] == qs[i]);
        }
    }
    if row_satisfies(cells, seq![p]) {
        assert(seq![p][0] == p);
    }
}

/// A predicate says of its own column what its form says, with its own literal or
/// bounds.
pub proof fn law_predicates_say_what_they_are(p: ColumnPredicate)
    ensures
        p matches ColumnPredicate::Eq { col, value } ==> p@ == PredicateModel::Eq(col, value@)
            && column_of(p@) == col,
        p matches ColumnPredicate::LessThan { col, value } ==> p@ == PredicateModel::LessThan(
            col,
            value@,
        ) && column_of(p@) == col,
        p matches ColumnPredicate::LessThanOrEqual { col, value } ==> p@
            == PredicateModel::LessThanOrEqual(col, value@) && column_of(p@) == col,
        p matches ColumnPredicate::GreaterThan { col, value } ==> p@ == PredicateModel::GreaterThan(
            col,
            value@,
        ) && column_of(p@) == col,
        p matches ColumnPredicate::GreaterThanOrEqual { col, value } ==> p@
            == PredicateModel::GreaterThanOrEqual(col, value@) && column_of(p@) == col,
        p matches ColumnPredicate::Range { col, lower, upper } ==> {
            &&& p@ matches PredicateModel::Range(c, l, u)
            &&& c == col && column_of(p@) == col
            &&& l is Some <==> lower is Some
            &&& u is Some <==> upper is Some
            &&& lower matches Some(b) ==> l->0.value == b.value@ && l->0.inclusive == b.inclusive
            &&& upper matches Some(b) ==> u->0.value == b.value@ && u->0.inclusive == b.inclusive
        },
{
}

/// A key begins with a prefix exactly where it is the prefix and something behind
/// it.
pub proof fn law_prefix_is_the_front(key: Seq<u8>, prefix: Seq<u8>)
    ensures
        has_prefix(key, prefix) <==> exists|rest: Seq<u8>| key == #[trigger] (prefix + rest),
{
    if has_prefix(key, prefix) {
        let rest = key.skip(prefix.len() as int);
        assert(key =~= prefix + rest);
    }
    if exists|rest: Seq<u8>| key == #[trigger] (prefix + rest) {
        let rest = choose|rest: Seq<u8>| key == #[trigger] (prefix + rest);
        assert(key.take(prefix.len() as int) =~= prefix);
    }
}

/// A prefix has no successor exactly where all of its bytes are the largest.
pub proof fn law_only_largest_bytes_have_no_successor(prefix: Seq<u8>)
    ensures
        successor(prefix) is None <==> forall|i: int|
            0 <= i < prefix.len() ==> #[trigger] prefix[i] == 255,
    decreases prefix.len(),
{
    if prefix.len() > 0 {
        let init = prefix.drop_last();
        law_only_largest_bytes_have_no_successor(init);
        if prefix.last() == 255 {
            if successor(init) is None {
                assert forall|i: int| 0 <= i < prefix.len() implies #[trigger] prefix[i] == 255 by {
                    if i < init.len() {
                        assert(init[i] == 255);
                    }
                }
            } else {
                let i = choose|i: int| 0 <= i < init.len() && #[trigger] init[i] != 255;
                assert(prefix[i] != 255);
            }
        } else {
            assert(prefix[prefix.len() - 1] != 255);
        }
    }
}

} // verus!
