use glow_lotto::decimal::{Decimal, FRACTIONAL};
use glow_lotto::sequence::{count_seq_matches, is_valid_sequence, SEQUENCE_DIGITS};

#[test]
fn valid_sequences() {
    assert!(is_valid_sequence("34280", SEQUENCE_DIGITS));
    assert!(is_valid_sequence("00000", 5));
    assert!(!is_valid_sequence("3428", 5));
    assert!(!is_valid_sequence("342801", 5));
    assert!(!is_valid_sequence("34a80", 5));
    assert!(!is_valid_sequence("", 5));
    assert!(is_valid_sequence("", 0));
    assert!(!is_valid_sequence("3428٣", 5));
}

#[test]
fn matching_digits() {
    assert_eq!(count_seq_matches("34280", "34280"), 5);
    assert_eq!(count_seq_matches("34281", "34280"), 4);
    assert_eq!(count_seq_matches("12345", "54321"), 1);
    assert_eq!(count_seq_matches("00000", "11111"), 0);
    assert_eq!(count_seq_matches("", "11111"), 0);
    assert_eq!(count_seq_matches("123", "12399"), 3);
}

#[test]
fn decimal_product_rounds_down() {
    let a = Decimal { atomics: 3 * FRACTIONAL / 2 };
    let b = Decimal { atomics: 2 * FRACTIONAL };
    assert_eq!(a.checked_mul(b), Some(Decimal { atomics: 3 * FRACTIONAL }));
    let tiny = Decimal { atomics: 1 };
    assert_eq!(tiny.checked_mul(tiny), Some(Decimal { atomics: 0 }));
    let big = Decimal { atomics: u128::MAX / 2 };
    assert_eq!(big.checked_mul(Decimal { atomics: 4 * FRACTIONAL }), None);
    // a product whose intermediate exceeds 128 bits
    let x = Decimal { atomics: 10u128.pow(30) };
    assert_eq!(x.checked_mul(Decimal { atomics: 10u128.pow(20) }), Some(Decimal { atomics: 10u128.pow(32) }));
}

#[test]
fn decimal_quotient_rounds_down() {
    let one = Decimal::one();
    let three = Decimal { atomics: 3 * FRACTIONAL };
    assert_eq!(one.checked_div(three), Some(Decimal { atomics: FRACTIONAL / 3 }));
    assert_eq!(three.checked_div(Decimal::zero()), None);
    let x = Decimal { atomics: 10u128.pow(30) };
    assert_eq!(x.checked_div(Decimal { atomics: 10u128.pow(25) }), Some(Decimal { atomics: 10u128.pow(23) }));
}

#[test]
fn whole_amounts() {
    assert_eq!(Decimal::from_amount(7), Some(Decimal { atomics: 7 * FRACTIONAL }));
    assert_eq!(Decimal::from_amount(u128::MAX), None);
    assert_eq!(Decimal { atomics: 7 * FRACTIONAL + 5 }.to_amount(), 7);
}
