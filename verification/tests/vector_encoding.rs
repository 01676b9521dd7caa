use devondb_storage::vector_encoding::{
    decode_b1_signs, decode_f16, decode_i8_metadata, decode_i8_parts, encode_f16,
    encode_i8_parts, f16_bits_to_f32, f32_to_f16_bits, pack_signs, validate_b1, validate_i8,
    I8Metadata, RotationSchedule, VectorEncodingError, B1_ROTATION_ROUNDS,
};

fn bits(values: &[f32]) -> Vec<u32> {
    values.iter().map(|value| value.to_bits()).collect()
}

#[test]
fn halves_round_to_the_nearest_even() {
    let cases: [(f32, u16); 12] = [
        (0.0, 0x0000),
        (-0.0, 0x8000),
        (1.0, 0x3c00),
        (-2.0, 0xc000),
        (65504.0, 0x7bff),
        (65519.9, 0x7bff),
        (65520.0, 0x7c00),
        (f32::INFINITY, 0x7c00),
        (f32::NEG_INFINITY, 0xfc00),
        (5.960_464_5e-8, 0x0001),
        (2.980_232_2e-8, 0x0000),
        (6.103_515_6e-5, 0x0400),
    ];
    for (single, half) in cases {
        assert_eq!(f32_to_f16_bits(single.to_bits()), half, "{single}");
    }
    // Halfway between two halves: the even one.
    assert_eq!(f32_to_f16_bits((1.0_f32 + 1.0 / 2048.0).to_bits()), 0x3c00);
    assert_eq!(f32_to_f16_bits((1.0_f32 + 3.0 / 2048.0).to_bits()), 0x3c02);
    let nan = f32_to_f16_bits(f32::NAN.to_bits());
    assert_eq!(nan & 0x7c00, 0x7c00);
    assert_ne!(nan & 0x03ff, 0);
}

#[test]
fn every_half_survives_widening() {
    for half in 0..=u16::MAX {
        let single = f16_bits_to_f32(half);
        if half & 0x7c00 == 0x7c00 && half & 0x03ff != 0 {
            assert!(f32::from_bits(single).is_nan());
        } else {
            assert_eq!(f32_to_f16_bits(single), half);
        }
    }
    assert_eq!(f32::from_bits(f16_bits_to_f32(0x3555)), 0.333_251_95);
}

#[test]
fn half_vectors_read_back() {
    let encoded = encode_f16(&bits(&[1.0, -0.5, 0.25]));
    assert_eq!(encoded, vec![0x00, 0x3c, 0x00, 0xb8, 0x00, 0x34]);
    assert_eq!(decode_f16(&encoded).unwrap(), bits(&[1.0, -0.5, 0.25]));
    assert!(matches!(
        decode_f16(&[1, 2, 3]),
        Err(VectorEncodingError::InvalidLength { actual: 3, .. })
    ));
}

#[test]
fn quantized_parts_read_back() {
    let metadata = I8Metadata {
        scale: 0.5_f32.to_bits(),
        offset: (-1.0_f32).to_bits(),
    };
    let encoded = encode_i8_parts(metadata, &[0, 1, 127]);
    assert_eq!(encoded.len(), 11);
    assert_eq!(decode_i8_metadata(&encoded).unwrap(), metadata);
    assert_eq!(I8Metadata::from_le_bytes(&metadata.to_le_bytes()), metadata);
    let (read, codes) = decode_i8_parts(&encoded).unwrap();
    assert_eq!(read, metadata);
    assert_eq!(codes, [0, 1, 127]);
    assert!(matches!(
        decode_i8_metadata(&[0; 7]),
        Err(VectorEncodingError::InvalidLength { actual: 7, .. })
    ));
}

#[test]
fn quantized_parts_are_checked() {
    let good = I8Metadata {
        scale: 1.0_f32.to_bits(),
        offset: 0.0_f32.to_bits(),
    };
    assert!(validate_i8(good, &[0, 255]).is_ok());
    assert_eq!(
        validate_i8(good, &[0x80]),
        Err(VectorEncodingError::InvalidI8)
    );
    for scale in [f32::NAN, f32::INFINITY, -1.0] {
        let metadata = I8Metadata {
            scale: scale.to_bits(),
            ..good
        };
        assert_eq!(
            validate_i8(metadata, &[0]),
            Err(VectorEncodingError::InvalidI8),
            "{scale}"
        );
    }
    let flat = I8Metadata {
        scale: 0.0_f32.to_bits(),
        ..good
    };
    assert!(validate_i8(flat, &[0, 0]).is_ok());
    assert_eq!(
        validate_i8(flat, &[0, 1]),
        Err(VectorEncodingError::InvalidI8)
    );
}

#[test]
fn signs_read_back() {
    let signs = vec![
        true, false, true, true, false, false, false, true, true, false,
    ];
    let packed = pack_signs(&signs);
    assert_eq!(packed.len(), 2);
    assert_eq!(decode_b1_signs(&packed, 10).unwrap(), signs);
    assert!(validate_b1(&packed, 10).is_ok());
    assert!(matches!(
        validate_b1(&packed, 20),
        Err(VectorEncodingError::InvalidLength { actual: 2, expected: 3, .. })
    ));
    assert_eq!(
        validate_b1(&[0xff, 0xff], 10),
        Err(VectorEncodingError::NonZeroB1Padding { dimension: 10 })
    );
}

#[test]
fn a_schedule_orders_and_restores() {
    let schedule = RotationSchedule::new(7, 42);
    let values = bits(&[1.0, 2.0, 3.0, 4.0, 5.0, 6.0, 7.0]);
    let flipped = schedule.flip(&values);
    assert_eq!(schedule.flip(&flipped), values);
    for (before, after) in values.iter().zip(&flipped) {
        assert!(after == before || *after == before ^ 0x8000_0000);
    }
    for round in 0..B1_ROTATION_ROUNDS {
        let gathered = schedule.gather(round, &values);
        let mut sorted = gathered.clone();
        sorted.sort();
        assert_eq!(sorted, values);
        assert_eq!(schedule.scatter(round, &gathered), values);
    }
    let same = RotationSchedule::new(7, 42);
    assert_eq!(same.gather(0, &values), schedule.gather(0, &values));
}

#[test]
fn wrong_lengths_name_the_encoding() {
    let wrong = |encoding, actual, expected| VectorEncodingError::InvalidLength {
        encoding,
        actual,
        expected,
    };
    assert_eq!(decode_f16(&[1, 2, 3]), Err(wrong("f16", 3, 4)));
    assert_eq!(decode_i8_metadata(&[0; 7]), Err(wrong("i8 metadata", 7, 8)));
    assert_eq!(validate_b1(&[0; 2], 17), Err(wrong("b1", 2, 3)));
    assert_eq!(decode_b1_signs(&[0; 2], 8), Err(wrong("b1", 2, 1)));
}
