use lemonmath::fraction::Fraction;
use lemonmath::helper::gcd_u128;
use lemonmath::helper::BetterExponent;
use lemonmath::helper::GCD;
use lemonmath::helper::VecToFraction;

#[test]
fn gcd_zero_left() {
    assert_eq!(0i128.gcd(5), 5);
}

#[test]
fn gcd_zero_right() {
    assert_eq!(5i128.gcd(0), 5);
}

#[test]
fn gcd_ordinary() {
    assert_eq!(12i128.gcd(18), 6);
}

#[test]
fn gcd_sign_independent() {
    assert_eq!((-12i128).gcd(18), 6);
    assert_eq!(12i128.gcd(-18), 6);
    assert_eq!((-12i128).gcd(-18), 6);
}

#[test]
fn gcd_other_widths() {
    assert_eq!((-12i8).gcd(18), 6);
    assert_eq!((-12i16).gcd(18), 6);
    assert_eq!((-12i32).gcd(18), 6);
    assert_eq!((-12i64).gcd(18), 6);
    assert_eq!((-12isize).gcd(18), 6);
}

#[test]
fn gcd_unsigned_core() {
    assert_eq!(gcd_u128(0, 5), 5);
    assert_eq!(gcd_u128(5, 0), 5);
    assert_eq!(gcd_u128(0, 0), 0);
    assert_eq!(gcd_u128(12, 18), 6);
    assert_eq!(gcd_u128(1 << 100, 1 << 64), 1 << 64);
    assert_eq!(gcd_u128(102082, 10000), 2);
}

#[test]
fn gcd_of_minimum_value() {
    assert_eq!(i128::MIN.gcd(6), 2);
    assert_eq!(6i128.gcd(i128::MIN), 2);
    assert_eq!(i64::MIN.gcd(6), 2);
}

#[test]
fn power_small_values() {
    assert_eq!(2u32.power(3), 8);
    assert_eq!(10u64.power(0), 1);
    assert_eq!(10u128.power(20), 100000000000000000000u128);
    assert_eq!(3u8.power(5), 243);
    assert_eq!(2u16.power(15), 32768);
}

#[test]
fn vec_to_fraction_integers() {
    let x = vec![1u8, 2u8, 3u8, 4u8, 5u8].to_fraction();
    assert_eq!(x[0], Fraction::new(1, 1));
    assert_eq!(x[1], Fraction::new(2, 1));
    assert_eq!(x[2], Fraction::new(3, 1));
    assert_eq!(x[3], Fraction::new(4, 1));
    assert_eq!(x[4], Fraction::new(5, 1));
}

#[test]
fn vec_to_fraction_signed() {
    let x = vec![-3i64, 0, 7].to_fraction();
    assert_eq!(x[0], Fraction::new(-3, 1));
    assert_eq!(x[1], Fraction::new(0, 1));
    assert_eq!(x[2], Fraction::new(7, 1));
}
