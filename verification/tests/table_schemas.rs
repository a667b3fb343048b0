//! The sidecar of table schemas.

use arrow_schema::{DataType as ArrowType, Field as ArrowField, Schema as ArrowSchema};
use hatp_engine::scalar::{DataType, IntervalUnit, TimeUnit};
use hatp_engine::schema::{Field, Schema};
use hatp_engine::table_schemas::{field_of, load_table_schemas, registry_of, schema_of, FieldText};
use std::collections::{BTreeMap, HashMap};
use std::sync::Arc;

fn sidecar(tables: Vec<(&str, Vec<ArrowField>)>) -> Vec<u8> {
    let map: BTreeMap<String, ArrowSchema> = tables
        .into_iter()
        .map(|(name, fields)| (name.to_string(), ArrowSchema::new(fields)))
        .collect();
    serde_json::to_vec(&map).unwrap()
}

fn text(name: &str, type_text: &str, zone: Option<&str>, nullable: bool) -> FieldText {
    FieldText {
        name: name.to_string(),
        type_text: type_text.to_string(),
        zone: zone.map(str::to_string),
        nullable,
    }
}

#[test]
fn the_sidecar_gives_the_columns_of_each_table() {
    let bytes = sidecar(vec![
        (
            "orders",
            vec![
                ArrowField::new("id", ArrowType::Int64, false),
                ArrowField::new("note", ArrowType::Utf8, true),
            ],
        ),
        ("empty", Vec::new()),
    ]);
    let schemas = load_table_schemas(Some(&bytes));
    assert_eq!(schemas.len(), 2);
    assert_eq!(
        schemas.get("orders"),
        Some(&Schema::new(vec![
            Field::new("id", DataType::Int64, false),
            Field::new("note", DataType::Utf8, true),
        ]))
    );
    assert_eq!(schemas.get("empty"), Some(&Schema::new(Vec::new())));
    assert_eq!(schemas.get("other"), None);
}

#[test]
fn every_type_that_rows_hold_is_found_by_its_name() {
    let arrow_units = [
        arrow_schema::TimeUnit::Second,
        arrow_schema::TimeUnit::Millisecond,
        arrow_schema::TimeUnit::Microsecond,
        arrow_schema::TimeUnit::Nanosecond,
    ];
    let units =
        [TimeUnit::Second, TimeUnit::Millisecond, TimeUnit::Microsecond, TimeUnit::Nanosecond];
    let mut types = vec![
        (ArrowType::Null, DataType::Null),
        (ArrowType::Int8, DataType::Int8),
        (ArrowType::Int16, DataType::Int16),
        (ArrowType::Int32, DataType::Int32),
        (ArrowType::Int64, DataType::Int64),
        (ArrowType::UInt8, DataType::UInt8),
        (ArrowType::UInt16, DataType::UInt16),
        (ArrowType::UInt32, DataType::UInt32),
        (ArrowType::UInt64, DataType::UInt64),
        (ArrowType::Float32, DataType::Float32),
        (ArrowType::Float64, DataType::Float64),
        (ArrowType::Boolean, DataType::Boolean),
        (ArrowType::Utf8, DataType::Utf8),
        (ArrowType::LargeUtf8, DataType::LargeUtf8),
        (ArrowType::Binary, DataType::Binary),
        (ArrowType::LargeBinary, DataType::LargeBinary),
        (ArrowType::Date32, DataType::Date32),
        (ArrowType::Date64, DataType::Date64),
        (
            ArrowType::Interval(arrow_schema::IntervalUnit::YearMonth),
            DataType::Interval(IntervalUnit::YearMonth),
        ),
        (
            ArrowType::Interval(arrow_schema::IntervalUnit::DayTime),
            DataType::Interval(IntervalUnit::DayTime),
        ),
        (
            ArrowType::Interval(arrow_schema::IntervalUnit::MonthDayNano),
            DataType::Interval(IntervalUnit::MonthDayNano),
        ),
    ];
    for (arrow_unit, unit) in arrow_units.into_iter().zip(units) {
        types.push((ArrowType::Time32(arrow_unit), DataType::Time32(unit)));
        types.push((ArrowType::Time64(arrow_unit), DataType::Time64(unit)));
        types.push((ArrowType::Duration(arrow_unit), DataType::Duration(unit)));
        types.push((ArrowType::Timestamp(arrow_unit, None), DataType::Timestamp(unit, None)));
        for zone in ["UTC", "+02:00", "a \"quoted\" \\ zone"] {
            types.push((
                ArrowType::Timestamp(arrow_unit, Some(Arc::from(zone))),
                DataType::Timestamp(unit, Some(zone.to_string())),
            ));
        }
    }
    for (arrow, expected) in types {
        let bytes = sidecar(vec![("t", vec![ArrowField::new("c", arrow, true)])]);
        let schemas = load_table_schemas(Some(&bytes));
        assert_eq!(schemas.get("t"), Some(&Schema::new(vec![Field::new("c", expected, true)])));
    }
}

#[test]
fn a_type_that_rows_cannot_hold_keeps_its_name() {
    let inner = |name: &str| {
        let mut metadata = HashMap::new();
        for key in ["e", "b", "d", "a", "c"] {
            metadata.insert(key.to_string(), "v".to_string());
        }
        Arc::new(ArrowField::new(name, ArrowType::Int32, true).with_metadata(metadata))
    };
    let bytes = sidecar(vec![(
        "t",
        vec![
            ArrowField::new("d", ArrowType::Decimal128(10, 2), true),
            ArrowField::new("l", ArrowType::List(inner("item")), true),
        ],
    )]);
    let expected = Schema::new(vec![
        Field::new("d", DataType::Other("Decimal128(10, 2)".to_string()), true),
        Field::new(
            "l",
            DataType::Other(
                "List(Int32, metadata: {\"a\": \"v\", \"b\": \"v\", \"c\": \"v\", \"d\": \"v\", \
                 \"e\": \"v\"})"
                    .to_string(),
            ),
            true,
        ),
    ]);
    for _ in 0..8 {
        assert_eq!(load_table_schemas(Some(&bytes)).get("t"), Some(&expected));
    }
}

#[test]
fn a_missing_or_unreadable_sidecar_gives_no_schemas() {
    assert_eq!(load_table_schemas(None).len(), 0);
    assert_eq!(load_table_schemas(Some(&[])).len(), 0);
    assert_eq!(load_table_schemas(Some(b"not json")).len(), 0);
    assert_eq!(load_table_schemas(Some(b"[1, 2]")).len(), 0);
    assert_eq!(load_table_schemas(Some(b"{\"t\": 3}")).len(), 0);
    assert_eq!(load_table_schemas(Some(b"{}")).len(), 0);
}

#[test]
fn of_two_tables_with_one_name_the_later_counts() {
    let tables = vec![
        ("t".to_string(), vec![text("a", "Int8", None, false)]),
        ("u".to_string(), vec![text("b", "Utf8", None, true)]),
        ("t".to_string(), vec![text("c", "Timestamp(ms)", Some("UTC"), true)]),
    ];
    let schemas = registry_of(Some(tables));
    assert_eq!(schemas.len(), 2);
    assert_eq!(
        schemas.get("t"),
        Some(&Schema::new(vec![Field::new(
            "c",
            DataType::Timestamp(TimeUnit::Millisecond, Some("UTC".to_string())),
            true
        )]))
    );
    assert_eq!(
        schemas.get("u"),
        Some(&Schema::new(vec![Field::new("b", DataType::Utf8, true)]))
    );
    assert_eq!(registry_of(None).len(), 0);
}

#[test]
fn a_declared_column_becomes_a_field() {
    assert_eq!(
        field_of(&text("n", "Time64(ns)", None, false)),
        Field::new("n", DataType::Time64(TimeUnit::Nanosecond), false)
    );
    assert_eq!(
        schema_of(&vec![text("n", "Utf8View", None, true), text("m", "Null", None, true)]),
        Schema::new(vec![
            Field::new("n", DataType::Other("Utf8View".to_string()), true),
            Field::new("m", DataType::Null, true),
        ])
    );
}
