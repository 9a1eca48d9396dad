//! Canonical-form rational numbers over 128-bit signed integers.
//!
//! A [`Fraction`] stores a numerator and a denominator; every constructor
//! and every arithmetic operation returns a value in canonical form: the
//! denominator is positive and shares no factor with the numerator. The
//! mathematical value of a fraction is its [`Ratio`], a pair of unbounded
//! integers, and every contract is stated over that model.

use vstd::prelude::*;

verus! {

use vstd::math::abs;
use vstd::arithmetic::power::pow;
use vstd::arithmetic::power::lemma_pow_increases;
use vstd::arithmetic::power::lemma_pow_positive;
use vstd::arithmetic::power::lemma_pow_adds;
use vstd::arithmetic::power::lemma_pow0;
use vstd::arithmetic::power::lemma_pow1;
use crate::number_theory::divides;
use crate::number_theory::gcd;
use crate::number_theory::lemma_abs_mul;
use crate::number_theory::lemma_coprime_after_reduction;
use crate::number_theory::lemma_coprime_divides_factor;
use crate::number_theory::lemma_divides_antisymmetric;
use crate::number_theory::lemma_exact_div_signed;
use crate::number_theory::lemma_gcd_commutative;
use crate::number_theory::lemma_gcd_divides;
use crate::number_theory::lemma_gcd_positive;
use crate::number_theory::lemma_gcd_one;
use crate::number_theory::lemma_gcd_zero_left;
use vstd::arithmetic::div_mod::lemma_div_multiples_vanish;
use vstd::string::StringExecFns;
use crate::decimal::append_i128;
use crate::decimal::int_str;
use crate::helper::gcd_u128;
use crate::helper::mag_i128;
use crate::helper::from_sign_mag;

/// The mathematical value of a fraction: a numerator and a denominator as
/// unbounded integers.
pub ghost struct Ratio {
    pub n: int,
    pub d: int,
}

impl Ratio {
    /// Canonical form: positive denominator, no common factor.
    pub open spec fn wf(self) -> bool {
        self.d > 0 && gcd(abs(self.n), self.d as nat) == 1
    }

    /// Numerator and denominator divided by their greatest common divisor.
    pub open spec fn reduced(self) -> Ratio {
        let g = gcd(abs(self.n), abs(self.d)) as int;
        Ratio { n: self.n / g, d: self.d / g }
    }

    /// The same value with the numerator's sign flipped.
    pub open spec fn neg(self) -> Ratio {
        Ratio { n: -self.n, d: self.d }
    }
}

/// The value a fraction constructed from `n` over `d` reduces to: the
/// denominator's sign is dropped, then both parts are divided by their gcd.
pub open spec fn ratio_new(n: int, d: int) -> Ratio {
    (Ratio { n: n, d: abs(d) as int }).reduced()
}

/// The canonical sum of two ratios.
pub open spec fn ratio_add(x: Ratio, y: Ratio) -> Ratio {
    (Ratio { n: x.n * y.d + y.n * x.d, d: x.d * y.d }).reduced()
}

/// The canonical product of two ratios.
pub open spec fn ratio_mul(x: Ratio, y: Ratio) -> Ratio {
    (Ratio { n: x.n * y.n, d: x.d * y.d }).reduced()
}

/// The canonical difference: the sum with the negated subtrahend.
pub open spec fn ratio_sub(x: Ratio, y: Ratio) -> Ratio {
    ratio_add(x, y.neg())
}

/// The reciprocal as the constructor builds it: numerator and denominator
/// swapped, the new denominator's sign dropped.
pub open spec fn ratio_recip(y: Ratio) -> Ratio {
    ratio_new(y.d, y.n)
}

/// The canonical quotient: the product with the reciprocal.
pub open spec fn ratio_div(x: Ratio, y: Ratio) -> Ratio {
    ratio_mul(x, ratio_recip(y))
}

/// Whether an unbounded integer fits the stored 128-bit width.
pub open spec fn fits_i128(x: int) -> bool {
    i128::MIN <= x <= i128::MAX
}

/// The intermediate products of an addition stay within 128 bits.
pub open spec fn add_fits(x: Ratio, y: Ratio) -> bool {
    &&& fits_i128(x.n * y.d)
    &&& fits_i128(y.n * x.d)
    &&& fits_i128(x.n * y.d + y.n * x.d)
    &&& fits_i128(x.d * y.d)
}

/// The intermediate products of a multiplication stay within 128 bits.
pub open spec fn mul_fits(x: Ratio, y: Ratio) -> bool {
    &&& fits_i128(x.n * y.n)
    &&& fits_i128(x.d * y.d)
}

/// The intermediate products of a subtraction stay within 128 bits.
pub open spec fn sub_fits(x: Ratio, y: Ratio) -> bool {
    add_fits(x, y.neg())
}

/// The intermediate products of a division stay within 128 bits.
pub open spec fn div_fits(x: Ratio, y: Ratio) -> bool {
    mul_fits(x, ratio_recip(y))
}

/// An exact rational number in canonical form.
#[derive(Clone, Copy, Debug, PartialEq, Eq, Structural)]
pub struct Fraction {
    pub numerator: i128,
    pub denominator: i128,
}

impl View for Fraction {
    type V = Ratio;

    open spec fn view(&self) -> Ratio {
        Ratio { n: self.numerator as int, d: self.denominator as int }
    }
}

/// Reduction keeps the denominator positive, lands in lowest terms, and
/// preserves the value (as a cross-multiplication equality).
pub proof fn lemma_reduced_props(x: Ratio)
    requires
        x.d > 0,
    ensures
        x.reduced().wf(),
        x.reduced().n * x.d == x.n * x.reduced().d,
{
    let g = gcd(abs(x.n), x.d as nat) as int;
    lemma_gcd_positive(abs(x.n), x.d as nat);
    lemma_gcd_divides(abs(x.n), x.d as nat);
    lemma_exact_div_signed(x.n, g);
    lemma_exact_div_signed(x.d, g);
    assert(x.d / g > 0) by (nonlinear_arith)
        requires
            g * (x.d / g) == x.d,
            x.d > 0,
            g > 0,
    ;
    lemma_coprime_after_reduction(abs(x.n), x.d as nat);
    assert((x.n / g) * x.d == x.n * (x.d / g)) by (nonlinear_arith)
        requires
            g * (x.n / g) == x.n,
            g * (x.d / g) == x.d,
    ;
}

/// Canonical form is unique: two well-formed ratios with the same value
/// are identical.
pub proof fn lemma_ratio_unique(x: Ratio, y: Ratio)
    requires
        x.wf(),
        y.wf(),
        x.n * y.d == y.n * x.d,
    ensures
        x == y,
{
    lemma_abs_mul(x.n, y.d);
    lemma_abs_mul(y.n, x.d);
    assert(abs(y.n) * (x.d as nat) == (x.d as nat) * abs(y.n)) by (nonlinear_arith);
    assert(divides(x.d as nat, abs(x.n) * (y.d as nat)));
    lemma_gcd_commutative(abs(x.n), x.d as nat);
    lemma_coprime_divides_factor(x.d as nat, abs(x.n), y.d as nat);
    assert(abs(x.n) * (y.d as nat) == (y.d as nat) * abs(x.n)) by (nonlinear_arith);
    assert(divides(y.d as nat, abs(y.n) * (x.d as nat)));
    lemma_gcd_commutative(abs(y.n), y.d as nat);
    lemma_coprime_divides_factor(y.d as nat, abs(y.n), x.d as nat);
    lemma_divides_antisymmetric(x.d as nat, y.d as nat);
    assert(x.n == y.n) by (nonlinear_arith)
        requires
            x.n * y.d == y.n * x.d,
            x.d == y.d,
            x.d > 0,
    ;
}

/// Negating the numerator commutes with reduction.
pub proof fn lemma_reduced_neg(x: Ratio)
    requires
        x.d > 0,
    ensures
        x.neg().reduced() == x.reduced().neg(),
{
    let g = gcd(abs(x.n), x.d as nat) as int;
    lemma_gcd_positive(abs(x.n), x.d as nat);
    lemma_gcd_divides(abs(x.n), x.d as nat);
    lemma_exact_div_signed(x.n, g);
    lemma_exact_div_signed(-x.n, g);
}

impl Fraction {
    /// Canonical form: positive denominator, no shared factor.
    pub open spec fn wf(self) -> bool {
        self@.wf()
    }

    /// Divides numerator and denominator by their greatest common divisor.
    /// The sign of each part is kept; a fraction built with a positive
    /// denominator comes out in canonical form.
    pub fn reduce(&self) -> (r: Fraction)
        requires
            !(self.numerator == 0 && self.denominator == 0),
        ensures
            r@ == self@.reduced(),
            self.denominator > 0 ==> r.wf(),
    {
        let num_mag = mag_i128(self.numerator);
        let den_mag = mag_i128(self.denominator);
        let g = gcd_u128(num_mag, den_mag);
        proof {
            lemma_gcd_positive(abs(self.numerator as int), abs(self.denominator as int));
            lemma_gcd_divides(abs(self.numerator as int), abs(self.denominator as int));
            lemma_exact_div_signed(self.numerator as int, g as int);
            lemma_exact_div_signed(self.denominator as int, g as int);
            assert((num_mag / g) as nat == abs(self.numerator as int) / (g as nat));
            assert((den_mag / g) as nat == abs(self.denominator as int) / (g as nat));
            assert(num_mag / g <= num_mag && den_mag / g <= den_mag) by (nonlinear_arith)
                requires
                    g >= 1,
                    num_mag >= 0,
                    den_mag >= 0,
            ;
        }
        let new_num = from_sign_mag(self.numerator < 0, num_mag / g);
        let new_den = from_sign_mag(self.denominator < 0, den_mag / g);
        let r = Fraction { numerator: new_num, denominator: new_den };
        proof {
            if self.denominator > 0 {
                lemma_reduced_props(self@);
            }
        }
        r
    }

    /// Builds the canonical fraction with value `numerator / |denominator|`:
    /// the denominator's sign is dropped (the numerator is not flipped), and
    /// the result is reduced to lowest terms.
    pub fn new(numerator: i128, denominator: i128) -> (r: Fraction)
        requires
            denominator != 0,
            denominator != i128::MIN,
        ensures
            r@ == ratio_new(numerator as int, denominator as int),
            r.wf(),
    {
        let den = if denominator < 0 {
            -denominator
        } else {
            denominator
        };
        let f = Fraction { numerator, denominator: den };
        f.reduce()
    }
}

impl Fraction {
    /// Builds the exact fraction for a base-ten decimal, given as its
    /// integer part, the digits after the point read as an integer, and
    /// how many such digits there are: the value is
    /// `(integer_part * 10^digits + fractional_part) / 10^digits`,
    /// reduced to canonical form. Two decimals that render differently
    /// convert to different fractions even when they are equal as binary
    /// floating-point values; leading zeros of the fractional digits
    /// count toward `fractional_digits`.
    pub fn from_decimal(integer_part: i128, fractional_part: u128, fractional_digits: u32) -> (r:
        Fraction)
        requires
            pow(10, fractional_digits as nat) <= i128::MAX,
            fractional_part < pow(10, fractional_digits as nat),
            fits_i128(integer_part * pow(10, fractional_digits as nat)),
            fits_i128(integer_part * pow(10, fractional_digits as nat) + fractional_part),
        ensures
            r@ == ratio_new(
                integer_part * pow(10, fractional_digits as nat) + fractional_part,
                pow(10, fractional_digits as nat),
            ),
            r.wf(),
    {
        let mut ten_pow: i128 = 1;
        let mut i: u32 = 0;
        proof {
            lemma_pow0(10);
        }
        while i < fractional_digits
            invariant
                i <= fractional_digits,
                ten_pow == pow(10, i as nat),
                pow(10, fractional_digits as nat) <= i128::MAX,
            decreases fractional_digits - i,
        {
            proof {
                lemma_pow_increases(10, (i + 1) as nat, fractional_digits as nat);
                lemma_pow_positive(10, i as nat);
                lemma_pow_adds(10, i as nat, 1);
                lemma_pow1(10);
                assert(pow(10, (i + 1) as nat) == pow(10, i as nat) * 10);
            }
            ten_pow = ten_pow * 10;
            i = i + 1;
        }
        proof {
            lemma_pow_positive(10, fractional_digits as nat);
        }
        let numerator = integer_part * ten_pow + (fractional_part as i128);
        Fraction::new(numerator, ten_pow)
    }

    /// Adds two canonical fractions: cross-multiplied sum over the product
    /// of the denominators, reduced to canonical form.
    pub fn add_number(&self, other: Self) -> (r: Self)
        requires
            self.wf(),
            other.wf(),
            add_fits(self@, other@),
        ensures
            r@ == ratio_add(self@, other@),
            r.wf(),
    {
        let numerator = self.numerator * other.denominator + other.numerator * self.denominator;
        let denominator = self.denominator * other.denominator;
        proof {
            assert(self.denominator * other.denominator > 0) by (nonlinear_arith)
                requires
                    self.denominator > 0,
                    other.denominator > 0,
            ;
        }
        Fraction::new(numerator, denominator)
    }

    /// Multiplies two canonical fractions: the products of the numerators
    /// and of the denominators, reduced to canonical form.
    pub fn mul_number(&self, other: Self) -> (r: Self)
        requires
            self.wf(),
            other.wf(),
            mul_fits(self@, other@),
        ensures
            r@ == ratio_mul(self@, other@),
            r.wf(),
    {
        let numerator = self.numerator * other.numerator;
        let denominator = self.denominator * other.denominator;
        proof {
            assert(self.denominator * other.denominator > 0) by (nonlinear_arith)
                requires
                    self.denominator > 0,
                    other.denominator > 0,
            ;
        }
        Fraction::new(numerator, denominator)
    }

    /// Subtracts `other` from `self`: the sum with the negated subtrahend.
    pub fn sub_number(&self, other: Self) -> (r: Self)
        requires
            self.wf(),
            other.wf(),
            other.numerator != i128::MIN,
            sub_fits(self@, other@),
        ensures
            r@ == ratio_sub(self@, other@),
            r.wf(),
    {
        let negated = Fraction { numerator: -other.numerator, denominator: other.denominator };
        self.add_number(negated)
    }

    /// Divides `self` by `other`: the product with the reciprocal, where the
    /// reciprocal swaps `other`'s numerator and denominator and drops the
    /// sign of the new denominator.
    pub fn div_number(&self, other: Self) -> (r: Self)
        requires
            self.wf(),
            other.wf(),
            other.numerator != 0,
            other.numerator != i128::MIN,
            div_fits(self@, other@),
        ensures
            r@ == ratio_div(self@, other@),
            r.wf(),
    {
        let recip = Fraction::new(other.denominator, other.numerator);
        self.mul_number(recip)
    }

    /// Replaces `self` with the sum `self + other`.
    pub fn add_assign(&mut self, other: Fraction)
        requires
            old(self).wf(),
            other.wf(),
            add_fits(old(self)@, other@),
        ensures
            final(self)@ == ratio_add(old(self)@, other@),
            final(self).wf(),
    {
        let s = *self;
        *self = s.add_number(other);
    }

    /// Replaces `self` with the difference `self - other`.
    pub fn sub_assign(&mut self, other: Fraction)
        requires
            old(self).wf(),
            other.wf(),
            other.numerator != i128::MIN,
            sub_fits(old(self)@, other@),
        ensures
            final(self)@ == ratio_sub(old(self)@, other@),
            final(self).wf(),
    {
        let s = *self;
        *self = s.sub_number(other);
    }

    /// Replaces `self` with the product `self * other`.
    pub fn mul_assign(&mut self, other: Fraction)
        requires
            old(self).wf(),
            other.wf(),
            mul_fits(old(self)@, other@),
        ensures
            final(self)@ == ratio_mul(old(self)@, other@),
            final(self).wf(),
    {
        let s = *self;
        *self = s.mul_number(other);
    }

    /// Replaces `self` with the quotient `self / other`.
    pub fn div_assign(&mut self, other: Fraction)
        requires
            old(self).wf(),
            other.wf(),
            other.numerator != 0,
            other.numerator != i128::MIN,
            div_fits(old(self)@, other@),
        ensures
            final(self)@ == ratio_div(old(self)@, other@),
            final(self).wf(),
    {
        let s = *self;
        *self = s.div_number(other);
    }
}

/// How a fraction renders: the numerator alone when the denominator is
/// one, else numerator and denominator separated by a slash.
pub open spec fn display_str(r: Ratio) -> Seq<char> {
    if r.d == 1 {
        int_str(r.n)
    } else {
        int_str(r.n) + seq!['/'] + int_str(r.d)
    }
}

impl Fraction {
    /// Renders the fraction as `"numerator"` when the denominator is one
    /// and as `"numerator/denominator"` otherwise.
    pub fn to_display_string(&self) -> (r: String)
        ensures
            r@ == display_str(self@),
    {
        let mut s = String::new();
        append_i128(&mut s, self.numerator);
        if self.denominator != 1 {
            let ghost with_num = s@;
            s.append("/");
            proof {
                reveal_strlit("/");
                assert(s@ =~= with_num + seq!['/']);
            }
            append_i128(&mut s, self.denominator);
            proof {
                assert(s@ =~= int_str(self.numerator as int) + seq!['/'] + int_str(
                self.denominator as int));
            }
        }
        s
    }
}

/// A fraction built over denominator one keeps its numerator: whole
/// numbers are already in lowest terms.
pub proof fn lemma_ratio_new_integer(v: int)
    ensures
        ratio_new(v, 1) == (Ratio { n: v, d: 1 }),
{
    lemma_gcd_one(abs(v));
    lemma_div_multiples_vanish(v, 1);
    lemma_div_multiples_vanish(1, 1);
    assert(1 * v == v);
    assert(1 * 1 == 1);
}

/// A well-formed fraction whose numerator is zero has denominator one:
/// the zero value has exactly one canonical representation.
pub proof fn lemma_zero_is_canonical(a: Fraction)
    requires
        a.wf(),
        a.numerator == 0,
    ensures
        a.denominator == 1,
{
    lemma_gcd_zero_left(a.denominator as nat);
}

/// Addition of fractions is commutative.
pub proof fn lemma_add_commutative(a: Fraction, b: Fraction)
    ensures
        ratio_add(a@, b@) == ratio_add(b@, a@),
{
    assert(a@.d * b@.d == b@.d * a@.d) by (nonlinear_arith);
}

/// Multiplication of fractions is commutative.
pub proof fn lemma_mul_commutative(a: Fraction, b: Fraction)
    ensures
        ratio_mul(a@, b@) == ratio_mul(b@, a@),
{
    assert(a@.n * b@.n == b@.n * a@.n) by (nonlinear_arith);
    assert(a@.d * b@.d == b@.d * a@.d) by (nonlinear_arith);
}

/// Swapping the operands of a subtraction negates the result.
pub proof fn lemma_sub_negate(a: Fraction, b: Fraction)
    requires
        a.wf(),
        b.wf(),
    ensures
        ratio_sub(a@, b@) == ratio_sub(b@, a@).neg(),
{
    let x = a@;
    let y = b@;
    assert(x.n * y.d + (-y.n) * x.d == -(y.n * x.d + (-x.n) * y.d)) by (nonlinear_arith);
    assert(x.d * y.d == y.d * x.d) by (nonlinear_arith);
    assert(y.d * x.d > 0) by (nonlinear_arith)
        requires
            x.d > 0,
            y.d > 0,
    ;
    lemma_reduced_neg(Ratio { n: y.n * x.d + (-x.n) * y.d, d: y.d * x.d });
}

/// Multiplying by a fraction with a positive numerator and then dividing
/// by it gives back the original value.
pub proof fn lemma_div_of_mul(a: Fraction, b: Fraction)
    requires
        a.wf(),
        b.wf(),
        b.numerator > 0,
    ensures
        ratio_div(ratio_mul(a@, b@), b@) == a@,
{
    let x = a@;
    let y = b@;
    let m = ratio_mul(x, y);
    let r = ratio_recip(y);
    assert(x.d * y.d > 0 && y.n * y.d > 0) by (nonlinear_arith)
        requires
            x.d > 0,
            y.d > 0,
            y.n > 0,
    ;
    lemma_reduced_props(Ratio { n: x.n * y.n, d: x.d * y.d });
    lemma_reduced_props(Ratio { n: y.d, d: y.n });
    let inner = Ratio { n: m.n * r.n, d: m.d * r.d };
    assert(inner.d > 0) by (nonlinear_arith)
        requires
            inner.d == m.d * r.d,
            m.d > 0,
            r.d > 0,
    ;
    lemma_reduced_props(inner);
    let res = inner.reduced();
    assert(((m.n * r.n) * x.d) * (y.n * y.d) == (m.n * (x.d * y.d)) * (r.n * y.n)) by (nonlinear_arith);
    assert((m.n * (x.d * y.d)) * (r.n * y.n) == ((x.n * y.n) * m.d) * (y.d * r.d)) by (nonlinear_arith)
        requires
            m.n * (x.d * y.d) == (x.n * y.n) * m.d,
            r.n * y.n == y.d * r.d,
    ;
    assert(((x.n * y.n) * m.d) * (y.d * r.d) == ((m.d * r.d) * x.n) * (y.n * y.d)) by (nonlinear_arith);
    assert(inner.n * x.d == inner.d * x.n) by (nonlinear_arith)
        requires
            (inner.n * x.d) * (y.n * y.d) == (inner.d * x.n) * (y.n * y.d),
            inner.n == m.n * r.n,
            inner.d == m.d * r.d,
            y.n * y.d > 0,
    ;
    assert(res.n * x.d == x.n * res.d) by (nonlinear_arith)
        requires
            res.n * inner.d == inner.n * res.d,
            inner.n * x.d == inner.d * x.n,
            inner.d > 0,
    ;
    lemma_ratio_unique(res, x);
}

impl Default for Fraction {
    /// The zero fraction, `0 / 1`.
    fn default() -> (r: Fraction)
        ensures
            r@ == (Ratio { n: 0, d: 1 }),
            r.wf(),
    {
        proof {
            lemma_gcd_zero_left(1);
        }
        Fraction { numerator: 0, denominator: 1 }
    }
}

} // verus!
