use devondb_storage::encodings::alp::AlpSection;
use devondb_storage::encodings::{
    decode_values, encode_section_payload, encode_values, Decoded, Encoding, Prepared,
};
use devondb_storage::types::{Bitmap, Column, LogicalType, Value};

const ALL: [Encoding; 7] = [
    Encoding::Plain,
    Encoding::Constant,
    Encoding::Rle,
    Encoding::BitpackFor,
    Encoding::Dictionary,
    Encoding::Fsst,
    Encoding::Alp,
];

#[test]
fn ids_round_trip_through_from_id() {
    for encoding in ALL {
        assert_eq!(Encoding::from_id(encoding.id()), Some(encoding));
    }
    assert_eq!(Encoding::from_id(7), None);
    assert_eq!(Encoding::from_id(u8::MAX), None);
}

#[test]
fn admissibility_matches_the_scale_8_1_table() {
    let cases: &[(LogicalType, &[Encoding])] = &[
        (
            LogicalType::Int64,
            &[
                Encoding::Plain,
                Encoding::Constant,
                Encoding::Rle,
                Encoding::BitpackFor,
            ],
        ),
        (
            LogicalType::Float64,
            &[Encoding::Plain, Encoding::Constant, Encoding::Alp],
        ),
        (
            LogicalType::Bool,
            &[Encoding::Plain, Encoding::Constant, Encoding::Rle],
        ),
        (
            LogicalType::Timestamp,
            &[
                Encoding::Plain,
                Encoding::Constant,
                Encoding::Rle,
                Encoding::BitpackFor,
            ],
        ),
        (
            LogicalType::Decimal {
                precision: 10,
                scale: 2,
            },
            &[Encoding::Plain, Encoding::Constant, Encoding::Rle],
        ),
        (
            LogicalType::String,
            &[
                Encoding::Plain,
                Encoding::Constant,
                Encoding::Dictionary,
                Encoding::Fsst,
            ],
        ),
        (LogicalType::Bytes, &[Encoding::Plain]),
        (LogicalType::Json, &[Encoding::Plain]),
        (LogicalType::Vector { dim: 4 }, &[Encoding::Plain]),
        (LogicalType::GeoPoint, &[Encoding::Plain]),
    ];
    for (ty, admissible) in cases {
        for encoding in ALL {
            assert_eq!(
                encoding.is_admissible_for(ty),
                admissible.contains(&encoding),
                "encoding {:?} admissibility for {ty:?}",
                encoding
            );
        }
    }
}

#[test]
fn section_payload_is_four_bytes_per_column() {
    let selections = [
        (Encoding::Plain, [0; 3]),
        (Encoding::Constant, [0; 3]),
        (Encoding::Alp, [9, 8, 7]),
    ];
    assert_eq!(
        encode_section_payload(&selections),
        vec![0, 0, 0, 0, 1, 0, 0, 0, 6, 9, 8, 7]
    );
}

fn prepared(plain: Vec<u8>) -> Prepared {
    Prepared {
        plain,
        scaled: AlpSection {
            e: 0,
            f: 0,
            rows: Vec::new(),
        },
    }
}

fn rows_of(column: &Column) -> Vec<Value> {
    (0..column.len()).map(|row| column.value_at(row)).collect()
}

#[test]
fn values_read_back_under_every_integer_and_text_encoding() {
    let ints = vec![Value::Int64(4), Value::Null, Value::Int64(-9), Value::Int64(4)];
    let texts = vec![
        Value::String("ab".to_owned()),
        Value::Null,
        Value::String("ab".to_owned()),
        Value::String(String::new()),
    ];
    let same = vec![Value::Int64(7), Value::Null, Value::Int64(7), Value::Int64(7)];
    let mut validity = Bitmap::all_valid(4);
    validity.clear(1);
    let cases = [
        (LogicalType::Int64, Encoding::Constant, same),
        (LogicalType::Int64, Encoding::Rle, ints.clone()),
        (LogicalType::Int64, Encoding::BitpackFor, ints),
        (LogicalType::String, Encoding::Dictionary, texts.clone()),
        (LogicalType::String, Encoding::Fsst, texts),
    ];
    for (ty, encoding, rows) in cases {
        let column = Column::from_values(&ty, rows.clone());
        let (section, params) =
            encode_values(encoding, &column, &ty, &prepared(Vec::new())).unwrap();
        match decode_values(encoding, params, &section, &validity, 4, &ty).unwrap() {
            Decoded::Column(column) => assert_eq!(rows_of(&column), rows),
            other => panic!("{encoding:?} decoded to {other:?}"),
        }
    }
}

#[test]
fn a_plain_section_is_handed_through() {
    let column = Column::from_values(&LogicalType::Int64, vec![Value::Int64(1)]);
    let (section, params) = encode_values(
        Encoding::Plain,
        &column,
        &LogicalType::Int64,
        &prepared(vec![1, 0, 0, 0, 0, 0, 0, 0]),
    )
    .unwrap();
    assert_eq!(section, vec![1, 0, 0, 0, 0, 0, 0, 0]);
    assert_eq!(params, [0, 0, 0]);
    let validity = Bitmap::all_valid(1);
    let ty = LogicalType::Int64;
    assert!(matches!(
        decode_values(Encoding::Plain, params, &section, &validity, 1, &ty),
        Ok(Decoded::Plain)
    ));
    assert!(decode_values(Encoding::Plain, [0, 1, 0], &section, &validity, 1, &ty).is_err());
}

#[test]
fn an_encoding_that_is_not_admissible_is_refused() {
    let column = Column::from_values(&LogicalType::Int64, vec![Value::Int64(1)]);
    assert!(encode_values(
        Encoding::Dictionary,
        &column,
        &LogicalType::Int64,
        &prepared(Vec::new())
    )
    .is_err());
}
