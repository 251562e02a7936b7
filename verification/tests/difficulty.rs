use reorg_calc::rational::Ratio;
use reorg_calc::target::{difficulty_from_compact_target, MAX_TARGET_BITS};

#[test]
fn reference_encoding_has_difficulty_one() {
    let d = difficulty_from_compact_target(MAX_TARGET_BITS).unwrap();
    assert_eq!(d.num(), 1);
    assert_eq!(d.den(), 1);
}

#[test]
fn max_target_bits_value() {
    assert_eq!(MAX_TARGET_BITS, 0x1dffffff);
}

#[test]
fn difficulty_is_positive_for_nonzero_mantissa() {
    let samples = [0x1c7fffffu32, 0x1d7fffff, 0x1e123456, 0x1b00ffff, 0x21000001];
    for bits in samples {
        let d = difficulty_from_compact_target(bits).unwrap();
        assert!(d.num() >= 1);
        assert!(d.den() >= 1);
        assert!(d.is_positive());
    }
}

#[test]
fn difficulty_exact_values() {
    let d = difficulty_from_compact_target(0x1c7fffff).unwrap();
    assert_eq!(d.num(), 4294967040);
    assert_eq!(d.den(), 8388607);

    let d = difficulty_from_compact_target(0x1d7fffff).unwrap();
    assert_eq!(d.num(), 16777215);
    assert_eq!(d.den(), 8388607);
}

#[test]
fn zero_mantissa_has_no_difficulty() {
    assert!(difficulty_from_compact_target(0x1d000000).is_none());
    assert!(difficulty_from_compact_target(0x00000000).is_none());
}

#[test]
fn tiny_exponent_difficulty_is_unrepresentable() {
    assert!(difficulty_from_compact_target(0x03000001).is_none());
    assert!(difficulty_from_compact_target(0x0f7fffff).is_none());
}

#[test]
fn huge_exponent_difficulty_is_unrepresentable() {
    assert!(difficulty_from_compact_target(0xff000001).is_none());
    assert!(difficulty_from_compact_target(0x2babcdef).is_none());
}

#[test]
fn ratio_addition_reduces() {
    let a = Ratio::new(1, 3);
    let b = Ratio::new(1, 6);
    let c = a.checked_add(&b).unwrap();
    assert_eq!(c.num(), 1);
    assert_eq!(c.den(), 2);
}

#[test]
fn ratio_multiplication_reduces() {
    let a = Ratio::new(2, 3);
    let b = Ratio::new(9, 4);
    let c = a.checked_mul(&b).unwrap();
    assert_eq!(c.num(), 3);
    assert_eq!(c.den(), 2);
}

#[test]
fn ratio_division_reduces() {
    let a = Ratio::new(1, 2);
    let b = Ratio::new(1, 3);
    let c = a.checked_div(&b).unwrap();
    assert_eq!(c.num(), 3);
    assert_eq!(c.den(), 2);
}

#[test]
fn ratio_division_by_zero_fails() {
    let a = Ratio::new(1, 2);
    let b = Ratio::new(0, 1);
    assert!(a.checked_div(&b).is_none());
}

#[test]
fn ratio_addition_overflow_fails() {
    let a = Ratio::new(u64::MAX, 1);
    let b = Ratio::new(1, 1);
    assert!(a.checked_add(&b).is_none());
}

#[test]
fn ratio_comparison() {
    let a = Ratio::new(1, 3);
    let b = Ratio::new(2, 6);
    let c = Ratio::new(1, 2);
    assert!(a.le(&b));
    assert!(b.le(&a));
    assert!(a.le(&c));
    assert!(!c.le(&a));
}

#[test]
fn ratio_ceiling_division() {
    assert_eq!(Ratio::new(10, 1).div_ceil(&Ratio::new(3, 1)), 4);
    assert_eq!(Ratio::new(9, 1).div_ceil(&Ratio::new(3, 1)), 3);
    assert_eq!(Ratio::new(0, 1).div_ceil(&Ratio::new(3, 1)), 0);
    assert_eq!(Ratio::new(1, 2).div_ceil(&Ratio::new(1, 3)), 2);
    assert_eq!(Ratio::new(22, 1).div_ceil(&Ratio::new(2, 1)), 11);
}
