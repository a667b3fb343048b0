use hatp_engine::row_codec::{
    decode_row, decode_row_columns, decode_row_narrow, encode_row, encode_row_narrow,
    scalar_to_array,
};
use hatp_engine::scalar::{DataType, OtherRank, OtherValue, ScalarValue};
use hatp_engine::schema::{ColumnBatch, Field, Schema};
use hatp_engine::EngineError;

#[test]
fn round_trips_ints_strings_and_nulls() {
    let schema = Schema::new(vec![
        Field::new("id", DataType::Int64, false),
        Field::new("name", DataType::Utf8, true),
    ]);
    let batch = ColumnBatch {
        schema: schema.clone(),
        columns: vec![
            vec![ScalarValue::Int64(Some(42_i64))],
            vec![ScalarValue::Utf8(Some("alice".to_string()))],
        ],
        num_rows: 1,
    };
    let encoded = encode_row(&batch, 0).expect("encode");
    let decoded = decode_row(&encoded, &schema).expect("decode");
    assert_eq!(decoded.num_rows, 1);
    assert_eq!(decoded.columns.len(), 2);
    assert_eq!(decoded.columns[0][0], ScalarValue::Int64(Some(42)));
    assert_eq!(decoded.columns[1][0], ScalarValue::Utf8(Some("alice".to_string())));
}

#[test]
fn round_trips_null_value() {
    let schema = Schema::new(vec![Field::new("name", DataType::Utf8, true)]);
    let batch = ColumnBatch {
        schema: schema.clone(),
        columns: vec![vec![ScalarValue::Utf8(None)]],
        num_rows: 1,
    };
    let encoded = encode_row(&batch, 0).expect("encode");
    let decoded = decode_row(&encoded, &schema).expect("decode");
    assert!(decoded.columns[0][0].is_null());
}

#[test]
fn the_bytes_of_a_row_are_fixed() {
    let schema = Schema::new(vec![
        Field::new("a", DataType::Int32, false),
        Field::new("b", DataType::Utf8, true),
        Field::new("c", DataType::Boolean, true),
    ]);
    let batch = ColumnBatch {
        schema: schema.clone(),
        columns: vec![
            vec![ScalarValue::Int32(Some(-2))],
            vec![ScalarValue::Utf8(Some("hi".to_string()))],
            vec![ScalarValue::Boolean(None)],
        ],
        num_rows: 1,
    };
    let bytes = encode_row(&batch, 0).unwrap();
    assert_eq!(bytes, vec![1, 0xFE, 0xFF, 0xFF, 0xFF, 1, 2, 0, 0, 0, b'h', b'i', 0]);
    let narrow = encode_row_narrow(&batch, 0, &[1]).unwrap();
    assert_eq!(narrow, vec![1, 2, 0, 0, 0, b'h', b'i']);
    let text = decode_row_narrow(&narrow, &schema, &[1]).unwrap();
    assert_eq!(text, vec![ScalarValue::Utf8(Some("hi".to_string()))]);
    let picked = decode_row_columns(&bytes, &schema, &[2, 0]).unwrap();
    assert_eq!(picked, vec![ScalarValue::Boolean(None), ScalarValue::Int32(Some(-2))]);
}

#[test]
fn a_narrow_row_is_decoded_with_its_columns() {
    let schema = Schema::new(vec![
        Field::new("id", DataType::Int64, false),
        Field::new("name", DataType::Utf8, true),
        Field::new("flag", DataType::Boolean, true),
    ]);
    let batch = ColumnBatch {
        schema: schema.clone(),
        columns: vec![
            vec![ScalarValue::Int64(Some(42))],
            vec![ScalarValue::Utf8(Some("alice".to_string()))],
            vec![ScalarValue::Boolean(None)],
        ],
        num_rows: 1,
    };
    let id = encode_row_narrow(&batch, 0, &[0]).unwrap();
    assert_eq!(id, vec![1, 42, 0, 0, 0, 0, 0, 0, 0]);
    assert_eq!(decode_row_narrow(&id, &schema, &[0]).unwrap(), vec![ScalarValue::Int64(Some(42))]);
    let cols = [2, 1, 1, 0];
    let blob = encode_row_narrow(&batch, 0, &cols).unwrap();
    let name = ScalarValue::Utf8(Some("alice".to_string()));
    let row = decode_row_narrow(&blob, &schema, &cols).unwrap();
    assert_eq!(
        row,
        vec![ScalarValue::Boolean(None), name.clone(), name, ScalarValue::Int64(Some(42))]
    );
    assert!(decode_row_narrow(&[], &schema, &[]).unwrap().is_empty());
    match decode_row_narrow(&id, &schema, &[0, 1]) {
        Err(EngineError::Corrupt(m)) => assert_eq!(m, "row codec: truncated null marker"),
        _ => panic!("a cut row was decoded"),
    }
    match decode_row_narrow(&id, &schema, &[0, 3]) {
        Err(EngineError::CorruptMessage(m)) => {
            assert_eq!(m, "row codec: column index 3 out of range (schema has 3 columns)")
        }
        _ => panic!("a column was made up"),
    }
}

#[test]
fn a_cut_row_is_an_error() {
    let schema = Schema::new(vec![Field::new("a", DataType::Int64, false)]);
    assert!(decode_row(&[], &schema).is_err());
    assert!(decode_row(&[1, 1, 2], &schema).is_err());
    assert!(decode_row(&[0], &schema).is_ok());
    let other = Schema::new(vec![Field::new("a", DataType::Other("List".to_string()), false)]);
    assert!(matches!(decode_row(&[1, 0], &other), Err(EngineError::CorruptMessage(_))));
}

#[test]
fn rows_hold_no_decimals_but_their_nulls() {
    let name = "Decimal128(10, 2)";
    let decimal = |rank| {
        ScalarValue::Other(OtherValue { name: name.to_string(), family: name.to_string(), rank })
    };
    let batch = |value| ColumnBatch {
        schema: Schema::new(vec![Field::new("d", DataType::Other(name.to_string()), true)]),
        columns: vec![vec![value]],
        num_rows: 1,
    };
    match encode_row(&batch(decimal(OtherRank::Num(5))), 0) {
        Err(EngineError::CorruptMessage(text)) => {
            assert_eq!(text, "row codec: unsupported value type Decimal128(10, 2)");
        }
        _ => panic!("a decimal was stored"),
    }
    assert_eq!(encode_row(&batch(decimal(OtherRank::Null)), 0).unwrap(), vec![0]);
    for rank in [OtherRank::Num(5), OtherRank::Null] {
        match scalar_to_array(&decimal(rank), 2, &DataType::Int8) {
            Err(EngineError::CorruptMessage(text)) => assert_eq!(
                text,
                "scalar_to_array: unsupported ScalarValue variant Decimal128(10, 2)"
            ),
            _ => panic!("a decimal became a column"),
        }
    }
}
