use devondb_storage::encodings::alp;
use devondb_storage::encodings::alp::{AlpRow, MAX_EXPONENT};
use devondb_storage::encodings::select::{is_sampled, ranked_candidates, Sample};
use devondb_storage::encodings::Encoding;
use devondb_storage::error::DevonResult;
use devondb_storage::types::{Column, LogicalType, Value};

fn float(value: f64) -> Value {
    Value::Float64(value.to_bits())
}

fn power(k: u8) -> f64 {
    10_f64.powi(i32::from(k))
}

fn scale_row(bits: Option<u64>, e: u8, f: u8) -> AlpRow {
    let Some(bits) = bits else {
        return AlpRow::Null;
    };
    let value = f64::from_bits(bits);
    let rounded = ((value * power(e)) / power(f)).round();
    if !(-9223372036854775808.0..9223372036854775808.0).contains(&rounded) {
        return AlpRow::Exception(bits);
    }
    let integer = rounded as i64;
    let back = (integer as f64 / power(e)) * power(f);
    if back.to_bits() == bits {
        AlpRow::Integer(integer)
    } else {
        AlpRow::Exception(bits)
    }
}

fn scale_rows(values: &[Option<u64>], e: u8, f: u8) -> Vec<AlpRow> {
    values.iter().map(|value| scale_row(*value, e, f)).collect()
}

fn encode(column: &Column, ty: &LogicalType) -> DevonResult<(Vec<u8>, [u8; 3])> {
    let values = alp::collect_values(column, ty)?;
    let mut counts = Vec::new();
    'search: for e in 0..=MAX_EXPONENT {
        for f in 0..=MAX_EXPONENT {
            let count = alp::count_exceptions(&scale_rows(&values, e, f));
            counts.push(count);
            if count == 0 {
                break 'search;
            }
        }
    }
    let (e, f) = alp::select_parameters(&counts);
    Ok(alp::encode(&scale_rows(&values, e, f), e, f))
}

fn trial(column: &[Value]) -> Option<Vec<u8>> {
    let sample = Sample::take(column);
    let column = Column::from_values(&LogicalType::Float64, sample.values);
    encode(&column, &LogicalType::Float64).ok().map(|(section, _)| section)
}

fn ints(values: &[i64]) -> Vec<Value> {
    values.iter().map(|value| Value::Int64(*value)).collect()
}

#[test]
fn the_sample_is_the_head_plus_the_stride() {
    let rows: Vec<usize> = (0..2048).filter(|row| is_sampled(*row)).collect();
    assert_eq!(&rows[..256], &(0..256).collect::<Vec<_>>()[..]);
    assert!(rows.contains(&512));
    assert!(rows.contains(&2040));
    assert!(!rows.contains(&511));
    assert_eq!(rows.len(), 256 + 2048 / 8 - 256 / 8);
}

#[test]
fn a_constant_column_ranks_constant_first() {
    let column = ints(&[7; 512]);
    assert_eq!(
        ranked_candidates(&column, &LogicalType::Int64, &None).first(),
        Some(&Encoding::Constant)
    );
}

#[test]
fn an_all_null_column_ranks_constant_first() {
    let column = vec![Value::Null; 64];
    assert_eq!(
        ranked_candidates(&column, &LogicalType::Int64, &None).first(),
        Some(&Encoding::Constant)
    );
}

#[test]
fn a_run_heavy_column_ranks_rle() {
    // 32 runs of 64 rows each over a wide value range: bitpack_for
    // prices a 25-bit width, rle prices ~130 runs.
    let mut values = Vec::new();
    for run in 0..32_i64 {
        values.extend(std::iter::repeat_n(run * 1_000_000, 64));
    }
    let column = ints(&values);
    assert_eq!(column.len(), 2048);
    let ranked = ranked_candidates(&column, &LogicalType::Int64, &None);
    assert_eq!(ranked.first(), Some(&Encoding::Rle));
}

#[test]
fn a_narrow_range_column_ranks_bitpack_for() {
    let column: Vec<Value> = (0..2048)
        .map(|row| Value::Int64(1_000_000 + row % 61))
        .collect();
    let ranked = ranked_candidates(&column, &LogicalType::Int64, &None);
    assert_eq!(ranked.first(), Some(&Encoding::BitpackFor));
}

#[test]
fn a_low_cardinality_string_column_ranks_dictionary() {
    let names = ["alpha", "beta", "gamma", "delta"];
    let column: Vec<Value> = (0..2048)
        .map(|row| Value::String(names[row % names.len()].to_owned()))
        .collect();
    let ranked = ranked_candidates(&column, &LogicalType::String, &None);
    assert_eq!(ranked.first(), Some(&Encoding::Dictionary));
}

#[test]
fn a_repetitive_string_column_ranks_fsst() {
    let column: Vec<Value> = (0..2048)
        .map(|row| {
            Value::String(format!(
                "https://edge.example.com/sensors/reading/{row:06}/celsius"
            ))
        })
        .collect();
    let ranked = ranked_candidates(&column, &LogicalType::String, &None);
    assert!(ranked.contains(&Encoding::Fsst), "ranked: {ranked:?}");
}

#[test]
fn a_decimal_like_float_column_ranks_alp() {
    let column: Vec<Value> = (0..2048)
        .map(|row| float(row as f64 / 100.0))
        .collect();
    let ranked = ranked_candidates(&column, &LogicalType::Float64, &trial(&column));
    assert_eq!(ranked.first(), Some(&Encoding::Alp));
}

#[test]
fn all_distinct_random_strings_stay_plain() {
    let mut state = 0x243F_6A88_85A3_08D3_u64;
    let column: Vec<Value> = (0..2048)
        .map(|_| {
            // 32 characters drawn from the 94-printable-ASCII alphabet:
            // high enough entropy per byte that FSST's symbol table
            // finds no repeated n-gram worth a code.
            let mut text = String::with_capacity(32);
            for _ in 0..32 {
                state = state.wrapping_mul(6364136223846793005).wrapping_add(1);
                text.push(char::from((state >> 33) as u8 % 94 + 33));
            }
            Value::String(text)
        })
        .collect();
    assert!(
        ranked_candidates(&column, &LogicalType::String, &None).is_empty(),
        "incompressible strings must not qualify any candidate"
    );
}

#[test]
fn selection_is_deterministic() {
    let column: Vec<Value> = (0..2048).map(|row| Value::Int64(row % 9)).collect();
    assert_eq!(
        ranked_candidates(&column, &LogicalType::Int64, &None),
        ranked_candidates(&column, &LogicalType::Int64, &None)
    );
}

#[test]
fn plain_only_types_never_rank() {
    let column = vec![Value::Null; 8];
    for ty in [
        LogicalType::Bytes,
        LogicalType::Json,
        LogicalType::GeoPoint,
        LogicalType::Vector { dim: 4 },
    ] {
        assert!(ranked_candidates(&column, &ty, &None).is_empty(), "{ty:?}");
    }
}
