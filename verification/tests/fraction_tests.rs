use lemonmath::fraction::Fraction;

/// Splits a float's decimal rendering into integer part, fractional
/// digits and the count of digits after the point.
fn decimal_parts(value: f64) -> (i128, u128, u32) {
    let s = format!("{}", value);
    match s.split_once('.') {
        Some((int_part, frac_part)) => (
            int_part.parse::<i128>().unwrap(),
            frac_part.parse::<u128>().unwrap(),
            frac_part.len() as u32,
        ),
        None => (s.parse::<i128>().unwrap(), 0, 0),
    }
}

fn fraction_from_float(value: f64) -> Fraction {
    let (int_part, frac_part, digits) = decimal_parts(value);
    Fraction::from_decimal(int_part, frac_part, digits)
}

#[test]
fn new_reduces_to_lowest_terms() {
    let x = Fraction::new(2, 4);
    assert_eq!(x, Fraction::new(1, 2));
    assert_eq!(x.numerator, 1);
    assert_eq!(x.denominator, 2);
}

#[test]
fn new_drops_denominator_sign() {
    let x = Fraction::new(1, -2);
    assert_eq!(x.numerator, 1);
    assert_eq!(x.denominator, 2);
    let y = Fraction::new(-2, 4);
    assert_eq!(y.numerator, -1);
    assert_eq!(y.denominator, 2);
}

#[test]
fn zero_reduces_to_zero_over_one() {
    let x = Fraction::new(0, 5);
    assert_eq!(x.numerator, 0);
    assert_eq!(x.denominator, 1);
}

#[test]
fn add_scenario() {
    let x = Fraction::new(1, 2);
    let y = Fraction::new(2, 3);
    assert_eq!(x.add_number(y), Fraction::new(7, 6));
}

#[test]
fn sub_scenario() {
    let x = Fraction::new(1, 2);
    let y = Fraction::new(2, 3);
    assert_eq!(x.sub_number(y), Fraction::new(-1, 6));
}

#[test]
fn mul_scenario() {
    let x = Fraction::new(1, 2);
    let y = Fraction::new(2, 3);
    assert_eq!(x.mul_number(y), Fraction::new(1, 3));
}

#[test]
fn div_scenario() {
    let x = Fraction::new(1, 2);
    let y = Fraction::new(2, 3);
    assert_eq!(x.div_number(y), Fraction::new(3, 4));
}

#[test]
fn assign_operations() {
    let y = Fraction::new(2, 3);
    let mut x = Fraction::new(1, 2);
    x.add_assign(y);
    assert_eq!(x, Fraction::new(7, 6));
    let mut x = Fraction::new(1, 2);
    x.sub_assign(y);
    assert_eq!(x, Fraction::new(-1, 6));
    let mut x = Fraction::new(1, 2);
    x.mul_assign(y);
    assert_eq!(x, Fraction::new(1, 3));
    let mut x = Fraction::new(1, 2);
    x.div_assign(y);
    assert_eq!(x, Fraction::new(3, 4));
}

#[test]
fn display_slash_form() {
    let x = Fraction::new(1, 2);
    assert_eq!(x.to_display_string(), "1/2");
}

#[test]
fn display_whole_number_form() {
    let x = Fraction::new(8, 2);
    assert_eq!(x.to_display_string(), "4");
}

#[test]
fn display_negative() {
    let x = Fraction::new(-1, 2);
    assert_eq!(x.to_display_string(), "-1/2");
    let y = Fraction::new(-9, 3);
    assert_eq!(y.to_display_string(), "-3");
}

#[test]
fn default_is_zero() {
    let x = Fraction::default();
    assert_eq!(x, Fraction::new(0, 1));
    assert_eq!(x.numerator, 0);
    assert_eq!(x.denominator, 1);
}

#[test]
fn canonical_form_invariant() {
    let samples = vec![
        Fraction::new(2, 4),
        Fraction::new(-12, 18),
        Fraction::new(0, 7),
        Fraction::new(100, -75),
        Fraction::new(1, 2).add_number(Fraction::new(1, 2)),
        Fraction::new(5, 6).mul_number(Fraction::new(12, 5)),
    ];
    for f in samples {
        assert!(f.denominator > 0);
        if f.numerator == 0 {
            assert_eq!(f.denominator, 1);
        } else {
            assert_eq!(lemonmath::helper::gcd_u128(f.numerator.unsigned_abs(), f.denominator.unsigned_abs()), 1);
        }
    }
}

#[test]
fn add_and_mul_commute_on_values() {
    let a = Fraction::new(3, 7);
    let b = Fraction::new(-5, 11);
    assert_eq!(a.add_number(b), b.add_number(a));
    assert_eq!(a.mul_number(b), b.mul_number(a));
}

#[test]
fn sub_swaps_to_negation() {
    let a = Fraction::new(3, 7);
    let b = Fraction::new(5, 11);
    let d1 = a.sub_number(b);
    let d2 = b.sub_number(a);
    assert_eq!(d1, Fraction::new(-d2.numerator, d2.denominator));
}

#[test]
fn div_drops_divisor_sign() {
    // The reciprocal is built through the constructor, which drops the
    // sign of its denominator, so dividing ignores the divisor's sign.
    let a = Fraction::new(1, 2);
    assert_eq!(a.div_number(Fraction::new(-2, 3)), Fraction::new(3, 4));
    assert_eq!(a.mul_number(Fraction::new(-2, 3)).div_number(Fraction::new(-2, 3)), Fraction::new(-1, 2));
}

#[test]
fn div_undoes_mul() {
    let a = Fraction::new(-3, 7);
    let b = Fraction::new(2, 3);
    assert_eq!(a.mul_number(b).div_number(b), a);
}

#[test]
fn from_decimal_exact_value() {
    let f = Fraction::from_decimal(10, 2082, 4);
    assert_eq!(f, Fraction::new(51041, 5000));
    let g = Fraction::from_decimal(1, 0, 0);
    assert_eq!(g, Fraction::new(1, 1));
    let h = Fraction::from_decimal(1, 5, 2);
    assert_eq!(h, Fraction::new(21, 20));
}

#[test]
fn from_decimal_round_trip() {
    let value = 10.2082f64;
    let f = fraction_from_float(value);
    let s = f.to_display_string();
    assert_eq!(s, "51041/5000");
    let (num, den) = match s.split_once('/') {
        Some((n, d)) => (n.parse::<i128>().unwrap(), d.parse::<i128>().unwrap()),
        None => (s.parse::<i128>().unwrap(), 1),
    };
    let approx = num as f64 / den as f64;
    assert_eq!(approx, value);
}

#[test]
fn from_decimal_round_trip_more_values() {
    for value in [0.5f64, 1.0, 10.2044982, 3.25, 123.456] {
        let f = fraction_from_float(value);
        let s = f.to_display_string();
        let (num, den) = match s.split_once('/') {
            Some((n, d)) => (n.parse::<i128>().unwrap(), d.parse::<i128>().unwrap()),
            None => (s.parse::<i128>().unwrap(), 1),
        };
        assert_eq!(num as f64 / den as f64, value);
    }
}
