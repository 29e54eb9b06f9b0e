use dwat::fixed_point::{format_signed, FormatError, MAX_DECIMALS};
use dwat::word::Word;

fn render(v: u128, decimals: u32) -> String {
    dwat::fixed_point::format(&Word::from_u128(v), decimals).unwrap()
}

#[test]
fn formats_zero_with_six_places() {
    assert_eq!(render(0, 6), "0.000000");
}

#[test]
fn formats_one_million_with_six_places() {
    assert_eq!(render(1_000_000, 6), "1.000000");
}

#[test]
fn formats_small_value_with_eighteen_places() {
    let s = render(123456789, 18);
    assert_eq!(s, "0.000000000123456789");
    let (whole, frac) = s.split_once('.').unwrap();
    assert_eq!(whole, "0");
    assert_eq!(frac.len(), 18);
}

#[test]
fn formats_with_no_places_without_point() {
    assert_eq!(render(42, 0), "42");
    assert_eq!(render(0, 0), "0");
}

#[test]
fn formats_exact_split() {
    assert_eq!(render(1234567, 2), "12345.67");
    assert_eq!(render(5, 3), "0.005");
    assert_eq!(render(1_500_000_000_000_000_000, 18), "1.500000000000000000");
}

#[test]
fn formats_largest_word() {
    let w = Word { bytes: [0xff; 32] };
    assert_eq!(
        dwat::fixed_point::format(&w, 0).unwrap(),
        "115792089237316195423570985008687907853269984665640564039457584007913129639935"
    );
    assert_eq!(
        dwat::fixed_point::format(&w, MAX_DECIMALS).unwrap(),
        "1.15792089237316195423570985008687907853269984665640564039457584007913129639935"
    );
}

#[test]
fn refuses_too_many_places() {
    assert_eq!(
        dwat::fixed_point::format(&Word::from_u128(1), MAX_DECIMALS + 1),
        Err(FormatError::DecimalsOutOfRange)
    );
}

#[test]
fn from_u128_is_big_endian() {
    let w = Word::from_u128(0x0102);
    assert_eq!(w.bytes[31], 0x02);
    assert_eq!(w.bytes[30], 0x01);
    assert!(w.bytes[..30].iter().all(|b| *b == 0));
    assert_eq!(Word::zero().bytes, [0u8; 32]);
}

fn neg_word(v: i128) -> Word {
    let mut bytes = if v < 0 { [0xffu8; 32] } else { [0u8; 32] };
    bytes[16..].copy_from_slice(&v.to_be_bytes());
    Word { bytes }
}

#[test]
fn formats_signed_values() {
    assert_eq!(format_signed(&neg_word(-1_500_000), 6).unwrap(), "-1.500000");
    assert_eq!(format_signed(&neg_word(1_500_000), 6).unwrap(), "1.500000");
    assert_eq!(format_signed(&neg_word(-1), 0).unwrap(), "-1");
    assert_eq!(format_signed(&neg_word(0), 2).unwrap(), "0.00");
    let mut most_negative = [0u8; 32];
    most_negative[0] = 0x80;
    assert_eq!(
        format_signed(&Word { bytes: most_negative }, 0).unwrap(),
        "-57896044618658097711785492504343953926634992332820282019728792003956564819968"
    );
    assert_eq!(
        format_signed(&neg_word(-5), MAX_DECIMALS + 1),
        Err(FormatError::DecimalsOutOfRange)
    );
}
