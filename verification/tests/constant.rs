use devondb_storage::encodings::constant::{decode, encode};
use devondb_storage::error::DevonError;
use devondb_storage::types::{Bitmap, Column, Decimal128, LogicalType, Value};

fn float(value: f64) -> Value {
    Value::Float64(value.to_bits())
}

fn round_trip(ty: &LogicalType, rows: Vec<Value>) -> Column {
    let column = Column::from_values(ty, rows);
    let (bytes, params) = encode(&column, ty).unwrap();
    let mut validity = Bitmap::all_valid(column.len());
    for row in 0..column.len() {
        if matches!(column.value_at(row), Value::Null) {
            validity.clear(row);
        }
    }
    decode(params, &bytes, &validity, column.len(), ty).unwrap()
}

#[test]
fn constant_round_trip_covers_every_admissible_type_and_null_pattern() {
    let decimal = LogicalType::Decimal {
        precision: 10,
        scale: 2,
    };
    let cases: Vec<(LogicalType, Vec<Value>)> = vec![
        (LogicalType::Int64, vec![Value::Int64(-7); 4]),
        (
            LogicalType::Int64,
            vec![Value::Int64(9), Value::Null, Value::Int64(9)],
        ),
        (LogicalType::Int64, vec![Value::Null; 3]),
        (LogicalType::Int64, vec![Value::Int64(1)]),
        (LogicalType::Float64, vec![float(2.5); 2]),
        (
            LogicalType::Float64,
            vec![float(-0.0), Value::Null],
        ),
        (LogicalType::Bool, vec![Value::Bool(true); 3]),
        (LogicalType::Bool, vec![Value::Bool(false), Value::Null]),
        (LogicalType::Timestamp, vec![Value::Timestamp(-1); 2]),
        (
            decimal,
            vec![
                Value::Decimal(Decimal128::new(125, 2).unwrap()),
                Value::Null,
                Value::Decimal(Decimal128::new(125, 2).unwrap()),
            ],
        ),
        (
            LogicalType::String,
            vec![Value::String("shared".to_owned()), Value::Null],
        ),
        (LogicalType::String, vec![Value::String(String::new()); 2]),
        (LogicalType::String, vec![Value::Null]),
    ];
    for (ty, rows) in cases {
        let column = round_trip(&ty, rows.clone());
        assert_eq!(column.to_values(), rows, "round trip diverged for {ty:?}");
    }
}

#[test]
fn nan_constant_encodes_and_decodes_by_bit_pattern() {
    // Value equality is NaN-averse, so the constant check compares
    // Float64 by bits; the decoded slots keep the exact NaN spelling.
    let column = Column::from_values(
        &LogicalType::Float64,
        vec![float(f64::NAN), Value::Null],
    );
    let (bytes, params) = encode(&column, &LogicalType::Float64).unwrap();
    assert_eq!(bytes, f64::NAN.to_le_bytes());
    let mut validity = Bitmap::all_valid(2);
    validity.clear(1);
    let decoded = decode(params, &bytes, &validity, 2, &LogicalType::Float64).unwrap();
    let Column::Float64 { values, .. } = decoded else {
        panic!("expected typed Float64 storage");
    };
    assert!(f64::from_bits(values[0]).is_nan());
    assert_eq!(f64::from_bits(values[1]), 0.0, "NULL slots decode to zero");
}

#[test]
fn non_constant_columns_are_a_writer_error() {
    let column =
        Column::from_values(&LogicalType::Int64, vec![Value::Int64(1), Value::Int64(2)]);
    let error = encode(&column, &LogicalType::Int64).unwrap_err();
    let DevonError::InvalidArgument { context } = error else {
        panic!("expected InvalidArgument, got {error:?}");
    };
    assert!(
        context.contains("encoding constant requires one shared non-null value"),
        "{context}"
    );
}

#[test]
fn constant_corrupt_sections_are_refused_without_panicking() {
    let validity = Bitmap::all_valid(2);
    let cases: Vec<(&[u8], LogicalType)> = vec![
        (&[1, 2, 3], LogicalType::Int64),
        (&[2], LogicalType::Bool),
        (&[1, 2], LogicalType::String),
        (&[5, 0, 0, 0, b'a'], LogicalType::String),
        (&[3, 0, 0, 0, 0xff, 0xff, 0xff], LogicalType::String),
    ];
    for (bytes, ty) in cases {
        let result = decode([0; 3], bytes, &validity, 2, &ty);
        assert!(
            matches!(result, Err(DevonError::Corrupt { .. })),
            "expected Corrupt for {ty:?} section {bytes:?}"
        );
    }
    let params = decode([1, 0, 0], &[8; 8], &validity, 2, &LogicalType::Int64);
    assert!(matches!(params, Err(DevonError::Corrupt { .. })));
}
