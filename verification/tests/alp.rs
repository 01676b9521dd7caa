use devondb_storage::encodings::alp;
use devondb_storage::encodings::alp::{AlpRow, MAX_EXPONENT};
use devondb_storage::error::{DevonError, DevonResult};
use devondb_storage::types::{Bitmap, Column, LogicalType, Value};

fn float(value: f64) -> Value {
    Value::Float64(value.to_bits())
}

fn power(k: u8) -> f64 {
    10_f64.powi(i32::from(k))
}

fn scale_row(bits: Option<u64>, e: u8, f: u8) -> AlpRow {
    let Some(bits) = bits else {
        return AlpRow::Null;
    };
    let value = f64::from_bits(bits);
    let rounded = ((value * power(e)) / power(f)).round();
    if !(-9223372036854775808.0..9223372036854775808.0).contains(&rounded) {
        return AlpRow::Exception(bits);
    }
    let integer = rounded as i64;
    let back = (integer as f64 / power(e)) * power(f);
    if back.to_bits() == bits {
        AlpRow::Integer(integer)
    } else {
        AlpRow::Exception(bits)
    }
}

fn scale_rows(values: &[Option<u64>], e: u8, f: u8) -> Vec<AlpRow> {
    values.iter().map(|value| scale_row(*value, e, f)).collect()
}

fn encode(column: &Column, ty: &LogicalType) -> DevonResult<(Vec<u8>, [u8; 3])> {
    let values = alp::collect_values(column, ty)?;
    let mut counts = Vec::new();
    'search: for e in 0..=MAX_EXPONENT {
        for f in 0..=MAX_EXPONENT {
            let count = alp::count_exceptions(&scale_rows(&values, e, f));
            counts.push(count);
            if count == 0 {
                break 'search;
            }
        }
    }
    let (e, f) = alp::select_parameters(&counts);
    Ok(alp::encode(&scale_rows(&values, e, f), e, f))
}

fn decode(
    params: [u8; 3],
    bytes: &[u8],
    validity: &Bitmap,
    row_count: usize,
    ty: &LogicalType,
) -> DevonResult<Column> {
    let section = alp::decode(params, bytes, validity, row_count, ty)?;
    let scaled: Vec<u64> = section
        .rows
        .iter()
        .map(|row| match row {
            AlpRow::Integer(integer) => {
                ((*integer as f64 / power(section.e)) * power(section.f)).to_bits()
            }
            _ => 0,
        })
        .collect();
    Ok(alp::materialize(&section, &scaled, validity))
}

fn round_trip(rows: Vec<Value>) -> DevonResult<Column> {
    let column = Column::from_values(&LogicalType::Float64, rows);
    let (bytes, params) = encode(&column, &LogicalType::Float64)?;
    let mut validity = Bitmap::all_valid(column.len());
    for row in 0..column.len() {
        if matches!(column.value_at(row), Value::Null) {
            validity.clear(row);
        }
    }
    decode(
        params,
        &bytes,
        &validity,
        column.len(),
        &LogicalType::Float64,
    )
}

fn assert_bit_exact(rows: &[Value], decoded: &Column) {
    let Column::Float64 { values, .. } = decoded else {
        panic!("expected typed Float64 storage");
    };
    assert_eq!(values.len(), rows.len());
    for (row, expected) in rows.iter().enumerate() {
        match expected {
            Value::Null => assert_eq!(f64::from_bits(values[row]), 0.0, "NULL slot {row} must be zero"),
            Value::Float64(value) => assert_eq!(
                values[row],
                *value,
                "row {row} diverged from the input bits"
            ),
            other => panic!("unexpected value {other:?}"),
        }
    }
}

#[test]
fn round_trip_is_bit_exact_over_hard_floats() {
    let rows = vec![
        float(1.5),
        float(2.25),
        Value::Null,
        float(-7.125),
        float(-0.0),
        float(f64::NAN),
        float(f64::INFINITY),
        float(f64::NEG_INFINITY),
        float(f64::MIN),
        float(f64::MAX),
        float(f64::from_bits(1)),
        float(1e300),
        float(0.1),
    ];
    let decoded = round_trip(rows.clone()).unwrap();
    assert_bit_exact(&rows, &decoded);
}

#[test]
fn all_null_and_single_row_columns_round_trip() {
    for rows in [
        vec![Value::Null; 5],
        vec![float(42.5)],
        vec![Value::Null],
    ] {
        let decoded = round_trip(rows.clone()).unwrap();
        assert_bit_exact(&rows, &decoded);
    }
}

#[test]
fn exceptions_keep_the_exact_bits() {
    let rows = vec![
        float(0.5),
        float(f64::NAN),
        float(-0.0),
        float(1.25),
    ];
    let column = Column::from_values(&LogicalType::Float64, rows.clone());
    let (bytes, params) = encode(&column, &LogicalType::Float64).unwrap();
    assert_eq!(params[2], 0);
    // NaN and −0.0 are exceptions: rows 1 and 2, increasing.
    let count = u32::from_le_bytes(bytes[4..8].try_into().unwrap());
    assert_eq!(count, 2);
    let table = &bytes[bytes.len() - 24..];
    assert_eq!(u32::from_le_bytes(table[0..4].try_into().unwrap()), 1);
    assert_eq!(&table[4..12], f64::NAN.to_bits().to_le_bytes());
    assert_eq!(u32::from_le_bytes(table[12..16].try_into().unwrap()), 2);
    assert_eq!(&table[16..24], (-0.0_f64).to_bits().to_le_bytes());
    let validity = Bitmap::all_valid(4);
    let decoded = decode(params, &bytes, &validity, 4, &LogicalType::Float64).unwrap();
    assert_bit_exact(&rows, &decoded);
}

#[test]
fn alp_inadmissible_types_are_refused() {
    let column = Column::from_values(&LogicalType::Int64, vec![Value::Int64(1)]);
    let error = encode(&column, &LogicalType::Int64).unwrap_err();
    let DevonError::InvalidArgument { context } = error else {
        panic!("expected InvalidArgument, got {error:?}");
    };
    assert_eq!(context, "encoding alp is not admissible for Int64");

    let validity = Bitmap::all_valid(1);
    let error = decode([0; 3], &[], &validity, 1, &LogicalType::Int64).unwrap_err();
    let DevonError::Corrupt { context } = error else {
        panic!("expected Corrupt, got {error:?}");
    };
    assert_eq!(context, "encoding alp is not admissible for Int64");
}

#[test]
fn corrupt_sections_are_refused_with_exact_messages() {
    let validity = Bitmap::all_valid(4);
    let column = Column::from_values(
        &LogicalType::Float64,
        vec![
            float(1.01),
            float(1.02),
            float(1.03),
            float(1.04),
        ],
    );
    let (bytes, params) = encode(&column, &LogicalType::Float64).unwrap();
    let ty = LogicalType::Float64;
    let corrupt = |params: [u8; 3], bytes: &[u8]| -> String {
        match decode(params, bytes, &validity, 4, &ty) {
            Err(DevonError::Corrupt { context }) => context,
            other => panic!("expected Corrupt, got {other:?}"),
        }
    };

    assert_eq!(
        corrupt(params, &bytes[..7]),
        "alp values section is 7 bytes, shorter than the 8-byte header"
    );
    let mut reserved = bytes.clone();
    reserved[2] = 1;
    assert_eq!(
        corrupt(params, &reserved),
        "alp reserved bytes are not zero"
    );
    let mut count = bytes.clone();
    count[4] = 5;
    assert_eq!(
        corrupt(params, &count),
        "alp exception_count 5 exceeds row_count 4"
    );
    assert_eq!(
        corrupt([params[0], params[1], 1], &bytes),
        "alp directory parameter p2 is 1, expected zero"
    );
    assert_eq!(
        corrupt([params[0] + 1, params[1], 0], &bytes),
        format!(
            "alp directory exponent {} does not match the values-section header {}",
            params[0] + 1,
            params[0]
        )
    );
    assert_eq!(
        corrupt([params[0], params[1] + 1, 0], &bytes),
        format!(
            "alp directory factor {} does not match the values-section header {}",
            params[1] + 1,
            params[1]
        )
    );
    assert_eq!(
        corrupt(params, &bytes[..19]),
        "alp values section is 19 bytes, shorter than the 20-byte frame-of-reference header"
    );
    let mut wide = bytes.clone();
    wide[16] = 65;
    assert_eq!(
        corrupt(params, &wide),
        "alp bit_width is 65, expected at most 64"
    );
    let mut for_reserved = bytes.clone();
    for_reserved[17] = 1;
    assert_eq!(
        corrupt(params, &for_reserved),
        "alp frame-of-reference reserved bytes are not zero"
    );
    assert_eq!(
        corrupt(params, &bytes[..bytes.len() - 1]),
        format!(
            "alp values section is {} bytes, expected exactly {} for row_count 4, bit_width {}, exception_count 0",
            bytes.len() - 1,
            bytes.len(),
            bytes[16]
        )
    );
    let mut padding = bytes;
    *padding.last_mut().unwrap() |= 0b1111_0000;
    assert_eq!(
        corrupt(params, &padding),
        "alp tail block padding bits are not zero"
    );
}

#[test]
fn exception_table_validation_names_the_region() {
    let validity = Bitmap::all_valid(4);
    let ty = LogicalType::Float64;
    // Header for e=1 f=0, two exceptions at rows {1, 1} (not
    // increasing): w=0 so no block bytes.
    let base = {
        let column = Column::from_values(
            &ty,
            vec![
                float(0.5),
                float(f64::NAN),
                float(f64::NAN),
                float(0.5),
            ],
        );
        encode(&column, &ty).unwrap().0
    };
    let corrupt = |bytes: &[u8], validity: &Bitmap| -> String {
        match decode([1, 0, 0], bytes, validity, 4, &ty) {
            Err(DevonError::Corrupt { context }) => context,
            other => panic!("expected Corrupt, got {other:?}"),
        }
    };

    // Out-of-bounds exception row.
    let mut oob = base.clone();
    let at = oob.len() - 12;
    oob[at..at + 4].copy_from_slice(&4_u32.to_le_bytes());
    assert_eq!(
        corrupt(&oob, &validity),
        "alp exception row 4 is out of bounds for row_count 4"
    );

    // Not strictly increasing: repeat the first row.
    let mut dup = base.clone();
    let at = dup.len() - 12;
    let first_row = dup[at - 12..at - 8].to_vec();
    dup[at..at + 4].copy_from_slice(&first_row);
    assert_eq!(
        corrupt(&dup, &validity),
        "alp exception rows are not strictly increasing"
    );

    // Exception on a NULL row.
    let mut null_validity = Bitmap::all_valid(4);
    null_validity.clear(1);
    assert_eq!(
        corrupt(&base, &null_validity),
        "alp exception row 1 is a NULL row"
    );
}
