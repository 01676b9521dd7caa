use devondb_storage::encodings::rle::{decode, encode};
use devondb_storage::error::DevonError;
use devondb_storage::types::{Bitmap, Column, Decimal128, LogicalType, Value};

fn round_trip(ty: &LogicalType, rows: Vec<Value>) -> Column {
    let column = Column::from_values(ty, rows);
    let (bytes, params) = encode(&column, ty).unwrap();
    let mut validity = Bitmap::all_valid(column.len());
    for row in 0..column.len() {
        if matches!(column.value_at(row), Value::Null) {
            validity.clear(row);
        }
    }
    decode(params, &bytes, &validity, column.len(), ty).unwrap()
}

#[test]
fn rle_round_trip_covers_every_admissible_type_and_null_pattern() {
    let decimal = LogicalType::Decimal {
        precision: 10,
        scale: 2,
    };
    let cases: Vec<(LogicalType, Vec<Value>)> = vec![
        (LogicalType::Int64, vec![Value::Int64(-7); 4]),
        (
            LogicalType::Int64,
            vec![
                Value::Int64(i64::MIN),
                Value::Int64(i64::MIN),
                Value::Int64(i64::MAX),
                Value::Null,
                Value::Int64(i64::MAX),
            ],
        ),
        // NULL slots are zero by law: [0, NULL, 0] is ONE run of three.
        (
            LogicalType::Int64,
            vec![Value::Int64(0), Value::Null, Value::Int64(0)],
        ),
        (LogicalType::Int64, vec![Value::Null; 3]),
        (LogicalType::Int64, vec![Value::Int64(1)]),
        (LogicalType::Int64, vec![Value::Null]),
        (
            LogicalType::Timestamp,
            vec![
                Value::Timestamp(-1),
                Value::Null,
                Value::Timestamp(-1),
                Value::Timestamp(i64::MAX),
            ],
        ),
        (
            LogicalType::Bool,
            vec![
                Value::Bool(true),
                Value::Bool(true),
                Value::Bool(false),
                Value::Null,
            ],
        ),
        (LogicalType::Bool, vec![Value::Bool(false); 2]),
        (
            decimal,
            vec![
                Value::Decimal(Decimal128::new(-4225, 2).unwrap()),
                Value::Null,
                Value::Decimal(Decimal128::new(-4225, 2).unwrap()),
                Value::Decimal(Decimal128::new(0, 2).unwrap()),
            ],
        ),
    ];
    for (ty, rows) in cases {
        let column = round_trip(&ty, rows.clone());
        assert_eq!(column.to_values(), rows, "round trip diverged for {ty:?}");
    }
}

#[test]
fn null_merging_run_encodes_as_one_run() {
    let column = Column::from_values(
        &LogicalType::Int64,
        vec![Value::Int64(0), Value::Null, Value::Int64(0)],
    );
    let (bytes, params) = encode(&column, &LogicalType::Int64).unwrap();
    assert_eq!(params, [0; 3]);
    let mut expected = vec![1, 0, 0, 0, 3, 0, 0, 0];
    expected.extend_from_slice(&[0; 8]);
    assert_eq!(bytes, expected, "one merged run of three zeros");
}

#[test]
fn mistyped_values_are_a_writer_error() {
    let column = Column::from_values(
        &LogicalType::Int64,
        vec![Value::Int64(1), Value::String("nope".to_owned())],
    );
    // The mismatched value degrades the column to Boxed; encoding it as
    // rle Int64 is a writer-policy error.
    let error = encode(&column, &LogicalType::Int64).unwrap_err();
    let DevonError::InvalidArgument { context } = error else {
        panic!("expected InvalidArgument, got {error:?}");
    };
    assert!(context.contains("encoding rle value"), "{context}");

    let error = encode(&column, &LogicalType::String).unwrap_err();
    assert!(
        matches!(error, DevonError::InvalidArgument { .. }),
        "String is not rle-admissible"
    );
}

#[test]
fn rle_corrupt_sections_are_refused_without_panicking() {
    let validity = Bitmap::all_valid(3);
    let cases: Vec<(&[u8], LogicalType)> = vec![
        // Shorter than the run_count prefix.
        (&[1, 2, 3], LogicalType::Int64),
        // run_count 2 but only one run present.
        (
            &[2, 0, 0, 0, 1, 0, 0, 0, 7, 0, 0, 0, 0, 0, 0, 0],
            LogicalType::Int64,
        ),
        // One run declared, a trailing byte behind it.
        (
            &[1, 0, 0, 0, 3, 0, 0, 0, 7, 0, 0, 0, 0, 0, 0, 0, 0xff],
            LogicalType::Int64,
        ),
        // A zero-length run.
        (
            &[1, 0, 0, 0, 0, 0, 0, 0, 7, 0, 0, 0, 0, 0, 0, 0],
            LogicalType::Int64,
        ),
        // Runs cover 2 rows of a 3-row column.
        (
            &[1, 0, 0, 0, 2, 0, 0, 0, 7, 0, 0, 0, 0, 0, 0, 0],
            LogicalType::Int64,
        ),
        // A Bool byte above 1.
        (&[1, 0, 0, 0, 3, 0, 0, 0, 2], LogicalType::Bool),
    ];
    for (bytes, ty) in cases {
        let result = decode([0; 3], bytes, &validity, 3, &ty);
        assert!(
            matches!(result, Err(DevonError::Corrupt { .. })),
            "expected Corrupt for {ty:?} section {bytes:?}"
        );
    }
    let good = &[1, 0, 0, 0, 3, 0, 0, 0, 7, 0, 0, 0, 0, 0, 0, 0];
    let params = decode([1, 0, 0], good, &validity, 3, &LogicalType::Int64);
    assert!(matches!(params, Err(DevonError::Corrupt { .. })));
    let inadmissible = decode([0; 3], good, &validity, 3, &LogicalType::Float64);
    assert!(matches!(inadmissible, Err(DevonError::Corrupt { .. })));
}
