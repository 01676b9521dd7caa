use devondb_storage::encodings::bitpack_for::{
    decode, encode, pack_block, unpack_block, BLOCK_ROWS, HEADER_LEN,
};
use devondb_storage::error::{DevonError, DevonResult};
use devondb_storage::types::{Bitmap, Column, LogicalType, Value};

fn round_trip(ty: &LogicalType, rows: Vec<Value>) -> DevonResult<Column> {
    let column = Column::from_values(ty, rows);
    let (bytes, params) = encode(&column, ty)?;
    let mut validity = Bitmap::all_valid(column.len());
    for row in 0..column.len() {
        if matches!(column.value_at(row), Value::Null) {
            validity.clear(row);
        }
    }
    decode(params, &bytes, &validity, column.len(), ty)
}

#[test]
fn round_trip_covers_null_patterns_and_boundaries() {
    let block = BLOCK_ROWS as i64;
    let cases: Vec<Vec<Value>> = vec![
        vec![Value::Int64(7)],
        vec![Value::Null],
        vec![Value::Null; 3],
        vec![Value::Int64(0), Value::Null, Value::Int64(-1)],
        vec![Value::Int64(i64::MIN), Value::Int64(i64::MAX)],
        vec![Value::Int64(-5), Value::Int64(-5), Value::Null],
        (0..block).map(Value::Int64).collect(),
        (0..2 * block)
            .map(|row| {
                if row % 3 == 0 {
                    Value::Null
                } else {
                    Value::Int64(1000 + row)
                }
            })
            .collect(),
        (0..block + 1).map(|row| Value::Int64(-row)).collect(),
    ];
    for rows in cases {
        let decoded = round_trip(&LogicalType::Int64, rows.clone()).unwrap();
        assert_eq!(decoded.to_values(), rows, "round trip diverged");
        let decoded = round_trip(
            &LogicalType::Timestamp,
            rows.iter()
                .map(|value| match value {
                    Value::Int64(value) => Value::Timestamp(*value),
                    other => other.clone(),
                })
                .collect(),
        )
        .unwrap();
        assert_eq!(decoded.len(), rows.len(), "timestamp round trip length");
    }
}

#[test]
fn zero_width_means_every_value_is_the_reference() {
    let decoded = round_trip(
        &LogicalType::Int64,
        vec![Value::Int64(-9), Value::Null, Value::Int64(-9)],
    )
    .unwrap();
    let (bytes, params) = encode(
        &Column::from_values(
            &LogicalType::Int64,
            vec![Value::Int64(-9), Value::Null, Value::Int64(-9)],
        ),
        &LogicalType::Int64,
    )
    .unwrap();
    assert_eq!(decoded.len(), 3);
    assert_eq!(bytes.len(), HEADER_LEN, "bit width 0 carries no blocks");
    assert_eq!(params, [0, 0, 0]);
    assert_eq!(&bytes[..8], &(-9_i64).to_le_bytes());
}

#[test]
fn transposed_layout_places_bits_in_the_fastlanes_order() {
    // Values 0..=1023 (deltas equal values, reference 0, bit width 10):
    // slot 1's bit 0 lands at word 1 lane 0 of plane 0; slot 16's bit 4
    // lands at word 0 lane 1 of plane 4 — the 64×16 transpose.
    let column = Column::from_values(
        &LogicalType::Int64,
        (0..BLOCK_ROWS as i64).map(Value::Int64).collect(),
    );
    let (bytes, params) = encode(&column, &LogicalType::Int64).unwrap();
    assert_eq!(params[0], 10);
    assert_eq!(bytes.len(), HEADER_LEN + 10 * 128);
    let word = |plane: usize, word: usize| {
        let offset = HEADER_LEN + (plane * 16 + word) * 8;
        u64::from_le_bytes(bytes[offset..offset + 8].try_into().unwrap())
    };
    for slot in 0..BLOCK_ROWS {
        for plane in 0..10 {
            let bit = (word(plane, slot % 16) >> (slot / 16)) & 1;
            assert_eq!(bit, (slot as u64 >> plane) & 1, "slot {slot} plane {plane}");
        }
    }
}

#[test]
fn bitpack_for_corrupt_sections_are_refused_without_panicking() {
    let validity = Bitmap::all_valid(2);
    let ty = LogicalType::Int64;
    // Short header.
    assert!(matches!(
        decode([0; 3], &[0; 11], &validity, 2, &ty),
        Err(DevonError::Corrupt { .. })
    ));
    // Reserved header bytes nonzero.
    let mut bytes = vec![0_u8; HEADER_LEN];
    bytes[8] = 0; // bit width 0 → 12-byte section is exact for 2 rows
    bytes[11] = 1;
    assert!(matches!(
        decode([0; 3], &bytes, &validity, 2, &ty),
        Err(DevonError::Corrupt { .. })
    ));
    // Bit width above 64.
    let mut bytes = vec![0_u8; HEADER_LEN];
    bytes[8] = 65;
    assert!(matches!(
        decode([65, 0, 0], &bytes, &validity, 2, &ty),
        Err(DevonError::Corrupt { .. })
    ));
    // Directory parameter disagrees with the section width.
    assert!(matches!(
        decode([1, 0, 0], &[0_u8; HEADER_LEN], &validity, 2, &ty),
        Err(DevonError::Corrupt { .. })
    ));
    // p1/p2 nonzero.
    assert!(matches!(
        decode([0, 1, 0], &[0_u8; HEADER_LEN], &validity, 2, &ty),
        Err(DevonError::Corrupt { .. })
    ));
    // Section length mismatch (trailing byte past the exact law).
    let mut bytes = vec![0_u8; HEADER_LEN + 1];
    bytes[8] = 0;
    assert!(matches!(
        decode([0; 3], &bytes, &validity, 2, &ty),
        Err(DevonError::Corrupt { .. })
    ));
    // reference + delta overflows i64: reference i64::MAX, delta 1.
    let mut bytes = Vec::new();
    bytes.extend_from_slice(&i64::MAX.to_le_bytes());
    bytes.push(1);
    bytes.extend_from_slice(&[0; 3]);
    bytes.extend_from_slice(&1_u64.to_le_bytes()); // plane 0 word 0 lane 0
    bytes.extend_from_slice(&[0_u8; 15 * 8]);
    assert!(matches!(
        decode([1, 0, 0], &bytes, &validity, 2, &ty),
        Err(DevonError::Corrupt { .. })
    ));
    // Nonzero padding slot (row_count 2, block padded to 1024).
    let mut bytes = Vec::new();
    bytes.extend_from_slice(&0_i64.to_le_bytes());
    bytes.push(1);
    bytes.extend_from_slice(&[0; 3]);
    let mut block = vec![0_u8; 128];
    block[8] = 0b100; // word 1 lane 2 → slot 33, a padding slot at row_count 2
    bytes.append(&mut block);
    let mut sparse = Bitmap::all_valid(2);
    sparse.clear(1);
    assert!(matches!(
        decode([1, 0, 0], &bytes, &sparse, 2, &ty),
        Err(DevonError::Corrupt { .. })
    ));
    // reference nonzero in an all-NULL column.
    let mut bytes = Vec::new();
    bytes.extend_from_slice(&5_i64.to_le_bytes());
    bytes.push(0);
    bytes.extend_from_slice(&[0; 3]);
    let mut all_null = Bitmap::all_valid(2);
    all_null.clear(0);
    all_null.clear(1);
    assert!(matches!(
        decode([0; 3], &bytes, &all_null, 2, &ty),
        Err(DevonError::Corrupt { .. })
    ));
    // Inadmissible type.
    assert!(matches!(
        decode(
            [0; 3],
            &[0_u8; HEADER_LEN],
            &validity,
            2,
            &LogicalType::Bool
        ),
        Err(DevonError::Corrupt { .. })
    ));
}

#[test]
fn null_slot_with_nonzero_delta_is_corruption() {
    // validity clears row 1 but its packed delta is 1.
    let mut bytes = Vec::new();
    bytes.extend_from_slice(&0_i64.to_le_bytes());
    bytes.push(1);
    bytes.extend_from_slice(&[0; 3]);
    let mut block = vec![0_u8; 128];
    block[8] = 0b10; // word 1 lane 1 → slot 17, whose row is NULL
    bytes.append(&mut block);
    let mut validity = Bitmap::all_valid(18);
    validity.clear(17);
    let error = decode([1, 0, 0], &bytes, &validity, 18, &LogicalType::Int64);
    assert!(
        matches!(error, Err(DevonError::Corrupt { .. })),
        "{error:?}"
    );
}

#[test]
fn a_packed_block_unpacks_to_its_deltas() {
    for width in [0_u8, 1, 7, 33, 64] {
        let most = if width == 64 {
            u64::MAX
        } else {
            (1_u64 << width) - 1
        };
        let deltas: Vec<u64> = (0..BLOCK_ROWS as u64)
            .map(|slot| slot.wrapping_mul(0x9e37_79b9_7f4a_7c15) & most)
            .collect();
        let mut block = vec![7_u8];
        pack_block(&deltas, width, &mut block);
        assert_eq!(block.len(), 1 + 128 * width as usize);
        assert_eq!(block[0], 7);
        assert_eq!(unpack_block(&block[1..], width), deltas);
    }
}

#[test]
fn faults_of_a_section_are_spelled_out() {
    let column = Column::from_values(&LogicalType::Int64, vec![Value::Int64(1), Value::Int64(4)]);
    let (bytes, params) = encode(&column, &LogicalType::Int64).unwrap();
    let validity = Bitmap::all_valid(2);
    let text = |bytes: &[u8], params: [u8; 3]| {
        decode(params, bytes, &validity, 2, &LogicalType::Int64)
            .unwrap_err()
            .text()
            .to_owned()
    };
    let short = bytes[..bytes.len() - 1].to_vec();
    assert_eq!(
        text(&short, params),
        format!(
            "bitpack_for section is {} bytes, expected exactly {} for 2 rows at bit width 2",
            short.len(),
            bytes.len()
        )
    );
    assert_eq!(
        text(&bytes, [3, 0, 0]),
        "bitpack_for directory parameter bit width 3 disagrees with the section bit width 2"
    );
}
