use lz_encoder::token::SEPARATOR;
use lz_encoder::width::WIDTH_LIMIT;
use lz_encoder::{next_pow2, short_be_bytes, to_code, EncodeError};

#[test]
fn test_to_code() {
    let (length, distance) = (256, 20);
    let coord = to_code(length, distance);

    // `256:20`.
    assert_eq!(coord, Ok(vec![1, 0, 58, 20]));
    assert_eq!(to_code(1, 1), Ok(vec![1, 58, 1]));
}

#[test]
fn separator_is_an_ascii_colon() {
    assert_eq!(SEPARATOR, 0x3A);
    assert_eq!(SEPARATOR, b':');
}

#[test]
fn to_code_puts_the_separator_between_the_integers() {
    assert_eq!(to_code(4, 4), Ok(vec![4, 0x3A, 4]));
    assert_eq!(to_code(0, 0), Ok(vec![0, 0x3A, 0]));
    assert_eq!(to_code(0x3A, 0x3A3A), Ok(vec![0x3A, 0x3A, 0x3A, 0x3A]));
    assert_eq!(to_code(65536, 255), Ok(vec![1, 0, 0, 0x3A, 255]));
    assert_eq!(
        to_code(0xFFFF_FFFF, 0x0102_0304),
        Ok(vec![255, 255, 255, 255, 0x3A, 1, 2, 3, 4])
    );
}

#[test]
fn to_code_refuses_a_wide_length_or_distance() {
    let wide = u32::MAX as usize + 1;
    assert_eq!(to_code(wide, 1), Err(EncodeError::ValueTooWide));
    assert_eq!(to_code(1, wide), Err(EncodeError::ValueTooWide));
    assert_eq!(to_code(wide, wide), Err(EncodeError::ValueTooWide));
    assert_eq!(to_code(usize::MAX, 0), Err(EncodeError::ValueTooWide));
}

#[test]
fn every_value_up_to_255_takes_one_byte() {
    for v in 0..=255usize {
        assert_eq!(short_be_bytes(v), Ok(vec![v as u8]));
    }
}

#[test]
fn value_256_takes_two_bytes() {
    let bytes = short_be_bytes(256).unwrap();
    assert_eq!(bytes.len(), 2);
    assert_eq!(bytes, vec![1, 0]);
}

#[test]
fn zero_and_one_take_one_byte() {
    assert_eq!(short_be_bytes(0), Ok(vec![0]));
    assert_eq!(short_be_bytes(1), Ok(vec![1]));
}

#[test]
fn width_grows_by_one_byte_at_each_power_of_256() {
    assert_eq!(short_be_bytes(257), Ok(vec![1, 1]));
    assert_eq!(short_be_bytes(0xFFFF), Ok(vec![255, 255]));
    assert_eq!(short_be_bytes(0x1_0000), Ok(vec![1, 0, 0]));
    assert_eq!(short_be_bytes(0xFF_FFFF), Ok(vec![255, 255, 255]));
    assert_eq!(short_be_bytes(0x100_0000), Ok(vec![1, 0, 0, 0]));
    assert_eq!(short_be_bytes(0x1234_5678), Ok(vec![0x12, 0x34, 0x56, 0x78]));
    assert_eq!(short_be_bytes(0xFFFF_FFFF), Ok(vec![255, 255, 255, 255]));
}

#[test]
fn short_be_bytes_spells_the_value_in_the_fewest_bytes() {
    let samples = [
        0usize, 1, 2, 127, 128, 129, 200, 255, 256, 511, 512, 4095, 32768, 65535, 65536, 70000,
        0x7F_FFFF, 0x80_0000, 0xFF_FFFF, 0x100_0000, 0x7FFF_FFFF, 0x8000_0000, 0xFFFF_FFFF,
    ];
    for &v in samples.iter() {
        let bytes = short_be_bytes(v).unwrap();
        let mut value = 0usize;
        for &b in bytes.iter() {
            value = value * 256 + b as usize;
        }
        assert_eq!(value, v);
        assert!(bytes.len() >= 1);
        assert!(bytes.len() == 1 || bytes[0] != 0);
    }
}

#[test]
fn short_be_bytes_refuses_values_at_the_width_limit() {
    let limit = u32::MAX as usize + 1;
    assert_eq!(limit as u64, WIDTH_LIMIT);
    assert_eq!(short_be_bytes(limit), Err(EncodeError::ValueTooWide));
    assert_eq!(short_be_bytes(limit + 1), Err(EncodeError::ValueTooWide));
    assert_eq!(short_be_bytes(usize::MAX), Err(EncodeError::ValueTooWide));
}

#[test]
fn next_pow2_rounds_up_to_a_power_of_two() {
    assert_eq!(next_pow2(1), Ok(1));
    assert_eq!(next_pow2(2), Ok(2));
    assert_eq!(next_pow2(3), Ok(4));
    assert_eq!(next_pow2(4), Ok(4));
    assert_eq!(next_pow2(5), Ok(8));
    assert_eq!(next_pow2(255), Ok(256));
    assert_eq!(next_pow2(256), Ok(256));
    assert_eq!(next_pow2(257), Ok(512));
    assert_eq!(next_pow2(65_537), Ok(131_072));
    assert_eq!(next_pow2(0x8000_0000), Ok(0x8000_0000));
    assert_eq!(next_pow2(0x8000_0001), Ok(0x1_0000_0000));
    assert_eq!(next_pow2(0xFFFF_FFFF), Ok(0x1_0000_0000));
    assert_eq!(next_pow2(0x1_0000_0000), Ok(0x1_0000_0000));
}

#[test]
fn next_pow2_of_zero_is_one() {
    assert_eq!(next_pow2(0), Ok(1));
}

#[test]
fn next_pow2_result_is_the_least_power_not_below() {
    for n in 1..=5000u64 {
        let p = next_pow2(n).unwrap();
        assert!(p.is_power_of_two());
        assert!(p >= n);
        assert!(p / 2 < n);
    }
}

#[test]
fn next_pow2_refuses_values_above_the_width_limit() {
    assert_eq!(next_pow2(0x1_0000_0001), Err(EncodeError::ValueTooWide));
    assert_eq!(next_pow2(u64::MAX), Err(EncodeError::ValueTooWide));
}
