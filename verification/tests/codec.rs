use num_bigint::BigInt;
use num_bigint::Sign;
use poolwatch::Int256;

/// Two's-complement 32-byte big-endian encoding of a signed value.
fn word_from_bigint(v: &BigInt) -> Vec<u8> {
    let wrap = BigInt::from(1u8) << 256u32;
    let adjusted = if v.sign() == Sign::Minus { v + &wrap } else { v.clone() };
    let (_, bytes) = adjusted.to_bytes_be();
    assert!(bytes.len() <= 32);
    let mut out = vec![0u8; 32 - bytes.len()];
    out.extend_from_slice(&bytes);
    out
}

fn int256_of(v: &BigInt) -> Int256 {
    Int256::from_be_bytes(&word_from_bigint(v))
}

#[test]
fn events_test_ethereum_int_to_bigint_positive() {
    let mut word = vec![0u8; 32];
    word[30] = 0x03;
    word[31] = 0xE8;
    let value = Int256::from_be_bytes(&word);
    assert_eq!(value.to_decimal_string(), BigInt::from(1000).to_string());
}

#[test]
fn events_test_ethereum_int_to_bigint_negative() {
    // In two's complement, -50 is represented as 2^256 - 50.
    let mut word = vec![0xFFu8; 32];
    word[31] = 0xFF - 49;
    let value = Int256::from_be_bytes(&word);
    assert_eq!(value.to_decimal_string(), BigInt::from(-50).to_string());
}

#[test]
fn test_convert_amount_no_decimal() {
    // When the amount is exactly divisible by 10^decimals.
    let factor = BigInt::from(10u32).pow(18);
    let amount = BigInt::from(1234) * &factor;
    let result = int256_of(&amount).render(18);
    // Expect no fractional part if remainder is zero.
    assert_eq!(result, "1234");
}

#[test]
fn test_convert_amount_with_decimal() {
    // Represent 1.5 as an amount with 18 decimals:
    // 1.5 * 10^18 = 1500000000000000000.
    let factor = BigInt::from(10u32).pow(18);
    let amount = BigInt::from(15) * &factor / BigInt::from(10);
    let result = int256_of(&amount).render(18);
    // With trailing zeros trimmed, we expect "1.5".
    assert_eq!(result, "1.5");
}

#[test]
fn main_test_ethereum_int_to_bigint_positive() {
    let mut word = vec![0u8; 32];
    word[30] = 0x03;
    word[31] = 0xE8;
    let result = Int256::from_be_bytes(&word);
    assert_eq!(result.to_decimal_string(), "1000");
}

#[test]
fn main_test_ethereum_int_to_bigint_negative() {
    // For a 256-bit integer, -1 is represented as 2^256 - 1.
    let word = vec![0xFFu8; 32];
    let result = Int256::from_be_bytes(&word);
    assert_eq!(result.to_decimal_string(), BigInt::from(-1).to_string());
}

#[test]
fn test_convert_amount() {
    // For example, 1500000000000000000 represented with 18 decimals should be "1.5".
    let factor = BigInt::from(10).pow(18);
    let amount = &BigInt::from(15) * &factor / 10;
    let converted = int256_of(&amount).render(18);
    assert_eq!(converted, "1.5");
}

#[test]
fn signed_word_boundary_below() {
    // 2^255 - 1 is the largest positive value.
    let v = (BigInt::from(1u8) << 255u32) - 1;
    assert_eq!(int256_of(&v).to_decimal_string(), v.to_string());
}

#[test]
fn signed_word_boundary_at() {
    // The word 2^255 wraps to 2^255 - 2^256 = -2^255.
    let mut word = vec![0u8; 32];
    word[0] = 0x80;
    let value = Int256::from_be_bytes(&word);
    let expected: BigInt = -(BigInt::from(1u8) << 255u32);
    assert_eq!(value.to_decimal_string(), expected.to_string());
}

#[test]
fn signed_word_zero() {
    let word = vec![0u8; 32];
    assert_eq!(Int256::from_be_bytes(&word).to_decimal_string(), "0");
}

#[test]
fn render_negative_fraction() {
    let amount = BigInt::from(-15) * BigInt::from(10u32).pow(17);
    assert_eq!(int256_of(&amount).render(18), "-1.5");
}

#[test]
fn render_whole_multiples() {
    // An exact multiple of the factor renders as the plain integer.
    for (k, d) in [(0i64, 6u32), (7, 0), (-7, 3), (123456, 9)] {
        let amount = BigInt::from(k) * BigInt::from(10u32).pow(d);
        let rendered = int256_of(&amount).render(d);
        assert_eq!(rendered, BigInt::from(k).to_string());
        assert!(!rendered.contains('.'));
    }
}

#[test]
fn render_trims_trailing_zeros() {
    // 1.25 with 18 decimals: the remainder 25 * 10^16 loses its zeros.
    let amount = BigInt::from(125) * BigInt::from(10u32).pow(16);
    assert_eq!(int256_of(&amount).render(18), "1.25");
}

#[test]
fn render_small_remainder_drops_leading_zeros() {
    // The fractional part is the remainder's decimal digits, so a remainder
    // far below the factor keeps no leading zeros: 5 at 3 decimals is "0.5".
    let amount = BigInt::from(5);
    assert_eq!(int256_of(&amount).render(3), "0.5");
}

#[test]
fn div_rem_pow10_truncates_toward_zero() {
    let amount = BigInt::from(-1234567);
    let (q, r) = int256_of(&amount).div_rem_pow10(3);
    assert_eq!(q.to_decimal_string(), "-1234");
    assert_eq!(r.to_decimal_string(), "-567");
}

#[test]
fn extreme_words_render() {
    // The most negative and most positive 256-bit values round-trip through
    // the decimal renderer at zero decimals.
    let min: BigInt = -(BigInt::from(1u8) << 255u32);
    let max = (BigInt::from(1u8) << 255u32) - 1;
    assert_eq!(int256_of(&min).render(0), min.to_string());
    assert_eq!(int256_of(&max).render(0), max.to_string());
}
