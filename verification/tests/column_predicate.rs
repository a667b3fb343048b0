use hatp_engine::column_predicate::{row_matches, Bound, ColumnPredicate};
use hatp_engine::scalar::{OtherRank, OtherValue, ScalarValue};

#[test]
fn eq_predicate_evaluates() {
    let pred = ColumnPredicate::Eq {
        col: 1,
        value: ScalarValue::Int32(Some(30)),
    };
    assert!(pred.evaluate(&ScalarValue::Int32(Some(30))));
    assert!(!pred.evaluate(&ScalarValue::Int32(Some(31))));
}

#[test]
fn range_predicate_evaluates() {
    let pred = ColumnPredicate::Range {
        col: 1,
        lower: Some(Bound::exclusive(ScalarValue::Int32(Some(20)))),
        upper: Some(Bound::inclusive(ScalarValue::Int32(Some(40)))),
    };
    assert!(pred.evaluate(&ScalarValue::Int32(Some(25))));
    assert!(!pred.evaluate(&ScalarValue::Int32(Some(20))));
    assert!(!pred.evaluate(&ScalarValue::Int32(Some(41))));
    assert!(pred.evaluate(&ScalarValue::Int32(Some(40))));
}

#[test]
fn range_predicate_handles_missing_bound() {
    // `id > 10` (no upper) becomes `Range { lower: Some(...), upper: None }`.
    let pred = ColumnPredicate::Range {
        col: 0,
        lower: Some(Bound::exclusive(ScalarValue::Int64(Some(10)))),
        upper: None,
    };
    assert!(pred.evaluate(&ScalarValue::Int64(Some(11))));
    assert!(!pred.evaluate(&ScalarValue::Int64(Some(10))));
}

#[test]
fn null_never_satisfies_predicate() {
    let pred = ColumnPredicate::Eq {
        col: 0,
        value: ScalarValue::Int32(Some(1)),
    };
    assert!(!pred.evaluate(&ScalarValue::Int32(None)));
}

#[test]
fn all_predicates_must_hold() {
    let row = vec![ScalarValue::Int64(Some(3)), ScalarValue::Utf8(Some("b".to_string()))];
    let low = ColumnPredicate::GreaterThan { col: 0, value: ScalarValue::Int64(Some(2)) };
    let text = ColumnPredicate::LessThanOrEqual {
        col: 1,
        value: ScalarValue::Utf8(Some("b".to_string())),
    };
    let missing = ColumnPredicate::Eq { col: 2, value: ScalarValue::Int64(Some(3)) };
    assert!(row_matches(&row, &[low.clone(), text.clone()]));
    assert!(!row_matches(&row, &[low, text, missing]));
    assert!(row_matches(&row, &[]));
}

fn other(name: &str, family: &str, rank: OtherRank) -> ScalarValue {
    ScalarValue::Other(OtherValue { name: name.to_string(), family: family.to_string(), rank })
}

fn decimal(number: i128, scale: u8) -> ScalarValue {
    let name = format!("Decimal128(10, {scale})");
    other(&name, &name, OtherRank::Num(number))
}

fn eq(value: ScalarValue) -> ColumnPredicate {
    ColumnPredicate::Eq { col: 0, value }
}

fn less(value: ScalarValue) -> ColumnPredicate {
    ColumnPredicate::LessThan { col: 0, value }
}

#[test]
fn decimals_of_one_scale_are_compared() {
    assert!(eq(decimal(150, 2)).evaluate(&decimal(150, 2)));
    assert!(!eq(decimal(150, 2)).evaluate(&decimal(151, 2)));
    assert!(less(decimal(150, 2)).evaluate(&decimal(-7, 2)));
    assert!(!less(decimal(150, 2)).evaluate(&decimal(150, 2)));
    let within = ColumnPredicate::Range {
        col: 0,
        lower: Some(Bound::inclusive(decimal(100, 2))),
        upper: Some(Bound::exclusive(decimal(200, 2))),
    };
    assert!(within.evaluate(&decimal(100, 2)));
    assert!(!within.evaluate(&decimal(200, 2)));
    // Another scale, and other types, are not compared.
    assert!(!eq(decimal(150, 2)).evaluate(&decimal(150, 3)));
    assert!(!less(decimal(150, 2)).evaluate(&decimal(1, 3)));
    assert!(!eq(decimal(150, 2)).evaluate(&ScalarValue::Int64(Some(150))));
}

#[test]
fn a_null_decimal_satisfies_nothing() {
    let null = || other("Decimal128(10, 2)", "Decimal128(10, 2)", OtherRank::Null);
    assert!(null().is_null());
    assert!(!eq(null()).evaluate(&null()));
    assert!(!eq(decimal(0, 2)).evaluate(&null()));
    assert!(!less(decimal(0, 2)).evaluate(&null()));
    let more = ColumnPredicate::GreaterThan { col: 0, value: null() };
    assert!(more.evaluate(&decimal(-1, 2)));
    assert!(!more.evaluate(&decimal(-1, 3)));
}

#[test]
fn wide_numbers_texts_and_bytes_are_compared() {
    let wide = |x: i128, y: u64, z: u64| {
        let name = "Decimal256(60, 0)";
        other(name, name, OtherRank::Wide(x, y, z))
    };
    assert!(eq(wide(1, 2, 3)).evaluate(&wide(1, 2, 3)));
    assert!(less(wide(0, 0, 0)).evaluate(&wide(-1, u64::MAX, u64::MAX)));
    assert!(less(wide(1, 2, 3)).evaluate(&wide(1, 1, 9)));
    assert!(!less(wide(1, 2, 3)).evaluate(&wide(1, 2, 3)));

    let half = |bits: u16| other("Float16", "Float16", OtherRank::Half(bits));
    assert!(eq(half(0x3c00)).evaluate(&half(0x3c00)));
    assert!(less(half(0x0000)).evaluate(&half(0x8000)));
    assert!(less(half(0xbc00)).evaluate(&half(0xc000)));

    let view = |text: &str| other("Utf8View", "Utf8View", OtherRank::Raw(text.as_bytes().to_vec()));
    assert!(eq(view("b")).evaluate(&view("b")));
    assert!(less(view("b")).evaluate(&view("abc")));
    assert!(!eq(view("b")).evaluate(&ScalarValue::Utf8(Some("b".to_string()))));

    let fixed = |bytes: &[u8]| {
        let name = format!("FixedSizeBinary({})", bytes.len());
        other(&name, "FixedSizeBinary", OtherRank::Raw(bytes.to_vec()))
    };
    assert!(eq(fixed(&[1, 2])).evaluate(&fixed(&[1, 2])));
    assert!(less(fixed(&[1, 2, 3])).evaluate(&fixed(&[1, 2])));
}

#[test]
fn nested_values_are_equal_or_in_no_order() {
    let list = |text: &str| {
        other("List(Int32)", "List(Int32)", OtherRank::Nested(text.as_bytes().to_vec()))
    };
    assert!(eq(list("[1, 2]")).evaluate(&list("[1, 2]")));
    assert!(!eq(list("[1, 2]")).evaluate(&list("[1, 3]")));
    assert!(!less(list("[1, 3]")).evaluate(&list("[1, 2]")));
    assert!(!less(list("[1, 2]")).evaluate(&list("[1, 3]")));
    let most = ColumnPredicate::LessThanOrEqual { col: 0, value: list("[1, 2]") };
    assert!(most.evaluate(&list("[1, 2]")));
}
