use devondb_storage::encodings::dictionary::{decode, encode, CODE_WIDTH};
use devondb_storage::error::{DevonError, DevonResult};
use devondb_storage::types::{Bitmap, Column, LogicalType, Value};

const PARAMS_V1: [u8; 3] = [CODE_WIDTH, 0, 0];

fn round_trip(rows: Vec<Value>) -> DevonResult<Column> {
    let column = Column::from_values(&LogicalType::String, rows);
    let (bytes, params) = encode(&column, &LogicalType::String)?;
    let mut validity = Bitmap::all_valid(column.len());
    for row in 0..column.len() {
        if matches!(column.value_at(row), Value::Null) {
            validity.clear(row);
        }
    }
    decode(
        params,
        &bytes,
        &validity,
        column.len(),
        &LogicalType::String,
    )
}

#[test]
fn round_trip_covers_null_patterns_and_edge_strings() {
    let cases: Vec<Vec<Value>> = vec![
        vec![Value::String("b".to_owned()), Value::String("a".to_owned())],
        vec![Value::Null; 3],
        vec![Value::Null],
        vec![Value::String("only".to_owned())],
        vec![
            Value::String(String::new()),
            Value::Null,
            Value::String(String::new()),
        ],
        vec![
            Value::String("édith 🦀".to_owned()),
            Value::String("edith".to_owned()),
            Value::Null,
            Value::String("édith 🦀".to_owned()),
        ],
        vec![Value::String("same".to_owned()); 4],
    ];
    for rows in cases {
        let decoded = round_trip(rows.clone()).unwrap();
        assert_eq!(decoded.to_values(), rows, "round trip diverged for {rows:?}");
    }
}

#[test]
fn encode_sorts_entries_bytewise_and_codes_nulls_zero() {
    let rows = vec![
        Value::String("pear".to_owned()),
        Value::String("apple".to_owned()),
        Value::Null,
        Value::String("apple".to_owned()),
    ];
    let column = Column::from_values(&LogicalType::String, rows);
    let (bytes, params) = encode(&column, &LogicalType::String).unwrap();
    assert_eq!(params, PARAMS_V1);
    let expected: &[u8] = &[
        2, 0, 0, 0, // dict_count 2
        0, 0, 0, 0, 5, 0, 0, 0, 9, 0, 0, 0, // offsets 0, 5, 9
        b'a', b'p', b'p', b'l', b'e', b'p', b'e', b'a', b'r', // heap
        1, 0, 0, 0, 0, 0, 0, 0, 0, 0, 0, 0, 0, 0, 0, 0, // codes 1 0 0 0
    ];
    assert_eq!(bytes, expected);
}

#[test]
fn dictionary_inadmissible_types_are_refused() {
    let column = Column::from_values(&LogicalType::Int64, vec![Value::Int64(1)]);
    let error = encode(&column, &LogicalType::Int64).unwrap_err();
    assert!(
        matches!(error, DevonError::InvalidArgument { .. }),
        "expected InvalidArgument, got {error:?}"
    );
    let validity = Bitmap::all_valid(1);
    let error = decode(
        PARAMS_V1,
        &[0, 0, 0, 0, 0, 0, 0, 0, 0, 0, 0, 0],
        &validity,
        1,
        &LogicalType::Int64,
    )
    .unwrap_err();
    assert!(
        matches!(error, DevonError::Corrupt { .. }),
        "expected Corrupt, got {error:?}"
    );
}

#[test]
fn dictionary_corrupt_sections_are_refused_without_panicking() {
    let mut validity = Bitmap::all_valid(2);
    validity.clear(1);
    // dict_count 1, offsets 0/1, heap "a", codes 0 / 0.
    let good: &[u8] = &[
        1, 0, 0, 0, 0, 0, 0, 0, 1, 0, 0, 0, b'a', 0, 0, 0, 0, 0, 0, 0, 0,
    ];
    let decoded = decode(PARAMS_V1, good, &validity, 2, &LogicalType::String).unwrap();
    assert_eq!(decoded.to_values(), vec![Value::String("a".to_owned()), Value::Null]);
    let cases: Vec<([u8; 3], &[u8], usize)> = vec![
        ([4, 1, 0], good, 2),                    // nonzero p1
        ([1, 0, 0], good, 2),                    // code width 1
        ([4, 0, 0], &[1, 2, 3], 2),              // shorter than dict_count
        ([4, 0, 0], &good[..good.len() - 1], 2), // truncated code
        ([4, 0, 0], &good[..13], 2),             // offsets/heap truncated
    ];
    for (params, bytes, rows) in cases {
        let result = decode(params, bytes, &validity, rows, &LogicalType::String);
        assert!(
            matches!(result, Err(DevonError::Corrupt { .. })),
            "expected Corrupt for {bytes:?}"
        );
    }
}
