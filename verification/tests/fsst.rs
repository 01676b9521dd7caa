use devondb_storage::encodings::fsst::{decode, encode, encode_bytes};
use devondb_storage::encodings::symbols::{SymbolTable, MAX_SYMBOLS};
use devondb_storage::error::{DevonError, DevonResult};
use devondb_storage::types::{Bitmap, Column, LogicalType, Value};

fn round_trip(rows: Vec<Value>) -> DevonResult<Column> {
    let column = Column::from_values(&LogicalType::String, rows);
    let (bytes, params) = encode(&column, &LogicalType::String)?;
    let mut validity = Bitmap::all_valid(column.len());
    for row in 0..column.len() {
        if matches!(column.value_at(row), Value::Null) {
            validity.clear(row);
        }
    }
    decode(
        params,
        &bytes,
        &validity,
        column.len(),
        &LogicalType::String,
    )
}

fn corrupt_context(error: &DevonError) -> &str {
    match error {
        DevonError::Corrupt { context } => context,
        other => panic!("expected Corrupt, got {other:?}"),
    }
}

#[test]
fn round_trip_covers_null_and_edge_patterns() {
    let repetitive = "devondb-fsst-symbol-table".to_owned();
    let cases: Vec<Vec<Value>> = vec![
        vec![Value::String("only".to_owned())],
        vec![Value::Null],
        vec![Value::String(String::new())],
        vec![Value::Null; 4],
        vec![
            Value::String(repetitive.clone()),
            Value::Null,
            Value::String(repetitive.clone()),
            Value::String(String::new()),
            Value::String(repetitive),
        ],
        vec![Value::String("édith 🦀 − ünïcode".to_owned()); 3],
        vec![
            Value::String("a".to_owned()),
            Value::String("12345678".to_owned()),
            Value::String("123456789".to_owned()),
            Value::String("x".repeat(1000)),
        ],
    ];
    for rows in cases {
        let decoded = round_trip(rows.clone()).unwrap();
        assert_eq!(decoded.to_values(), rows, "round trip diverged");
    }
}

#[test]
fn encoding_is_deterministic() {
    let rows: Vec<Value> = (0..64)
        .map(|index| Value::String(format!("user-{index}@example.devondb, role engineer")))
        .collect();
    let column = Column::from_values(&LogicalType::String, rows);
    let (first, first_params) = encode(&column, &LogicalType::String).unwrap();
    let (second, second_params) = encode(&column, &LogicalType::String).unwrap();
    assert_eq!(first, second, "identical input produced different bytes");
    assert_eq!(first_params, second_params);
}

#[test]
fn repetitive_strings_compress_below_plain() {
    let rows: Vec<Value> = (0..256)
        .map(|index| {
            Value::String(format!(
                "https://www.example.devondb/users/{index}/profile?tab=settings"
            ))
        })
        .collect();
    let column = Column::from_values(&LogicalType::String, rows);
    let plain: usize = (0..column.len())
        .map(|row| match column.value_at(row) {
            Value::String(text) => text.len(),
            _ => 0,
        })
        .sum();
    let (bytes, _) = encode(&column, &LogicalType::String).unwrap();
    assert!(
        bytes.len() < plain,
        "fsst section {} bytes, plain heap {plain} bytes",
        bytes.len()
    );
}

#[test]
fn table_stays_within_the_symbol_cap() {
    // More than 255 distinct bytes never occur in UTF-8, but long
    // strings with many distinct pairs exercise the truncation law.
    let rows: Vec<Value> = (0..512)
        .map(|index| Value::String(format!("row-{index:04}-{}", "abcdefgh".repeat(4))))
        .collect();
    let column = Column::from_values(&LogicalType::String, rows);
    let (bytes, params) = encode(&column, &LogicalType::String).unwrap();
    assert!((bytes[0] as usize) <= MAX_SYMBOLS);
    let validity = Bitmap::all_valid(column.len());
    let decoded = decode(
        params,
        &bytes,
        &validity,
        column.len(),
        &LogicalType::String,
    )
    .unwrap();
    assert_eq!(decoded.to_values(), column.to_values());
}

#[test]
fn corrupt_sections_report_the_region() {
    let rows = vec![
        Value::String("fsst-corruption-matrix".to_owned()),
        Value::Null,
        Value::String("fsst-corruption-matrix".to_owned()),
    ];
    let column = Column::from_values(&LogicalType::String, rows);
    let (bytes, params) = encode(&column, &LogicalType::String).unwrap();
    let mut validity = Bitmap::all_valid(3);
    validity.clear(1);
    let string = LogicalType::String;
    let decode_with = |section: &[u8]| decode(params, section, &validity, 3, &string);

    let error = decode_with(&[]).unwrap_err();
    assert_eq!(
        corrupt_context(&error),
        "fsst values section is empty, expected at least the symbol count"
    );

    let mut bad_len = bytes.clone();
    bad_len[1] = 0;
    let error = decode_with(&bad_len).unwrap_err();
    assert_eq!(
        corrupt_context(&error),
        "fsst symbol 0 length is 0, expected 1..=8"
    );

    let mut big_len = bytes.clone();
    big_len[1] = 9;
    let error = decode_with(&big_len).unwrap_err();
    assert_eq!(
        corrupt_context(&error),
        "fsst symbol 0 length is 9, expected 1..=8"
    );

    let error = decode_with(&bytes[..1]).unwrap_err();
    assert_eq!(
        corrupt_context(&error),
        "fsst symbol table is truncated at symbol 0"
    );

    let params_error = decode([1, 0, 0], &bytes, &validity, 3, &string).unwrap_err();
    assert_eq!(
        corrupt_context(&params_error),
        "encoding fsst parameters are not zero"
    );

    let wrong_type = decode(params, &bytes, &validity, 3, &LogicalType::Int64).unwrap_err();
    assert_eq!(
        corrupt_context(&wrong_type),
        "encoding fsst is not admissible for Int64"
    );
}

#[test]
fn corrupt_offsets_and_heap_codes_are_refused() {
    let rows = vec![
        Value::String("heap-heap-heap".to_owned()),
        Value::String("heap-heap-heap".to_owned()),
    ];
    let column = Column::from_values(&LogicalType::String, rows);
    let (bytes, params) = encode(&column, &LogicalType::String).unwrap();
    let validity = Bitmap::all_valid(2);
    let string = LogicalType::String;
    let symbol_count = bytes[0] as usize;
    let mut cursor = 1;
    for _ in 0..symbol_count {
        cursor += 1 + bytes[cursor] as usize;
    }
    let offsets_at = cursor;
    let heap_end =
        u32::from_le_bytes(bytes[offsets_at + 8..offsets_at + 12].try_into().unwrap()) as usize;

    // Nonzero first offset.
    let mut bad = bytes.clone();
    bad[offsets_at] = 1;
    let error = decode(params, &bad, &validity, 2, &string).unwrap_err();
    assert_eq!(
        corrupt_context(&error),
        "fsst offsets start at 1, expected 0"
    );

    // Decreasing offsets: zero the final offset so offsets[1] >
    // offsets[2] (the start-at-0 and end-at-heap checks stay happy).
    let mut bad = bytes.clone();
    bad[offsets_at + 8..offsets_at + 12].copy_from_slice(&0_u32.to_le_bytes());
    let error = decode(params, &bad, &validity, 2, &string).unwrap_err();
    assert_eq!(corrupt_context(&error), "fsst offsets decrease at row 1");

    // Last offset disagrees with the heap length.
    let mut bad = bytes.clone();
    bad[offsets_at + 8..offsets_at + 12]
        .copy_from_slice(&((heap_end as u32) + 1).to_le_bytes());
    let error = decode(params, &bad, &validity, 2, &string).unwrap_err();
    assert_eq!(
        corrupt_context(&error),
        format!(
            "fsst offsets end at {} but the heap is {heap_end} bytes",
            heap_end + 1
        )
    );

    // A code past the symbol table (not the escape): one symbol "a",
    // offsets [0, 1], heap [code 1].
    let bad = [1, 1, b'a', 0, 0, 0, 0, 1, 0, 0, 0, 1];
    let one_row = Bitmap::all_valid(1);
    let error = decode(params, &bad, &one_row, 1, &string).unwrap_err();
    assert_eq!(
        corrupt_context(&error),
        "fsst heap byte at offset 0 is code 1, but the symbol table has 1 symbols"
    );

    // An escape as the row's last code byte: heap [escape].
    let bad = [1, 1, b'a', 0, 0, 0, 0, 1, 0, 0, 0, 255];
    let error = decode(params, &bad, &one_row, 1, &string).unwrap_err();
    assert_eq!(
        corrupt_context(&error),
        "fsst escape at heap offset 0 has no literal byte"
    );

    // A NULL row with a nonempty code stream.
    let mut null_validity = Bitmap::all_valid(2);
    null_validity.clear(1);
    let error = decode(params, &bytes, &null_validity, 2, &string).unwrap_err();
    assert_eq!(
        corrupt_context(&error),
        "fsst NULL row 1 has a nonempty code stream"
    );

    // Invalid UTF-8: one symbol "a", offsets [0, 2], heap
    // [escape, 0xff] decodes to a lone 0xff literal.
    let bad = [1, 1, b'a', 0, 0, 0, 0, 2, 0, 0, 0, 255, 0xff];
    let error = decode(params, &bad, &one_row, 1, &string).unwrap_err();
    assert!(
        corrupt_context(&error).starts_with("fsst decoded row 0 is not valid UTF-8"),
        "{}",
        corrupt_context(&error)
    );
}

#[test]
fn codes_are_the_longest_symbols_that_fit() {
    let texts: Vec<Vec<u8>> = vec![b"abababab".to_vec(); 40];
    let table = SymbolTable::build(&texts, 320);
    let index = table.first_byte_index();
    let mut codes = vec![9_u8];
    encode_bytes(&table, &index, b"abababab", &mut codes);
    assert_eq!(codes[0], 9);
    assert_eq!(table.longest_match(&index, b"abababab", 0), Some(codes[1]));
    assert!(codes.len() < 1 + 8);
    let mut escaped = Vec::new();
    encode_bytes(&table, &index, b"?", &mut escaped);
    assert_eq!(escaped, vec![255, b'?']);
}
