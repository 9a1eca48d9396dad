//! Integer helpers: magnitudes, the binary GCD, powers and conversions.

use vstd::prelude::*;

verus! {

use vstd::math::abs;
use vstd::arithmetic::power::pow;
use vstd::arithmetic::power::lemma_pow0;
use vstd::arithmetic::power::lemma_pow1;
use vstd::arithmetic::power::lemma0_pow;
use vstd::arithmetic::power::lemma_pow_adds;
use vstd::arithmetic::power::lemma_pow_increases;
use crate::fraction::Fraction;
use crate::fraction::Ratio;
use crate::fraction::lemma_ratio_new_integer;
use crate::number_theory::gcd;
use crate::number_theory::lemma_divides_le;
use crate::number_theory::lemma_gcd_commutative;
use crate::number_theory::lemma_gcd_divides;
use crate::number_theory::lemma_gcd_halve;
use crate::number_theory::lemma_gcd_scale;
use crate::number_theory::lemma_gcd_self;
use crate::number_theory::lemma_gcd_subtract;
use crate::number_theory::lemma_gcd_zero_left;

/// The absolute value of `i128::MIN`, which has no signed representation.
pub const I128_MIN_MAGNITUDE: u128 = 170141183460469231731687303715884105728;

/// Magnitude of a signed 128-bit integer, as an unsigned value.
pub fn mag_i128(x: i128) -> (r: u128)
    ensures
        r as nat == abs(x as int),
{
    if x >= 0 {
        x as u128
    } else if x == i128::MIN {
        I128_MIN_MAGNITUDE
    } else {
        (-x) as u128
    }
}

/// Rebuild a signed 128-bit integer from a sign and a magnitude.
pub fn from_sign_mag(negative: bool, magnitude: u128) -> (r: i128)
    requires
        negative ==> magnitude <= I128_MIN_MAGNITUDE,
        !negative ==> magnitude <= i128::MAX,
    ensures
        r as int == if negative {
            -(magnitude as int)
        } else {
            magnitude as int
        },
{
    if negative {
        if magnitude == I128_MIN_MAGNITUDE {
            i128::MIN
        } else {
            -(magnitude as i128)
        }
    } else {
        magnitude as i128
    }
}

/// Greatest common divisor of two unsigned 128-bit integers by the binary
/// (Stein's) algorithm: shared factors of two are pulled out first, then the
/// remaining odd cores shrink by subtraction, each step stripping factors of
/// two again, so no intermediate value ever grows.
pub fn gcd_u128(a: u128, b: u128) -> (r: u128)
    ensures
        r as nat == gcd(a as nat, b as nat),
{
    if a == 0 {
        proof {
            lemma_gcd_zero_left(b as nat);
        }
        return b;
    }
    if b == 0 {
        return a;
    }
    let mut m = a;
    let mut n = b;
    let mut p: u128 = 1;
    // pull the shared factors of two out into p
    while m % 2 == 0 && n % 2 == 0
        invariant
            m > 0,
            n > 0,
            p > 0,
            a == p * m,
            b == p * n,
            gcd(a as nat, b as nat) == p * gcd(m as nat, n as nat),
        decreases m,
    {
        proof {
            lemma_gcd_scale(2, (m / 2) as nat, (n / 2) as nat);
            assert(p * m == (p * 2) * (m / 2) && p * n == (p * 2) * (n / 2) && p * (
            2 * gcd((m / 2) as nat, (n / 2) as nat)) == (p * 2) * gcd((m / 2) as nat, (n / 2) as nat)
                && p * 2 <= p * m) by (nonlinear_arith)
                requires
                    m > 0,
                    n > 0,
                    p > 0,
                    m % 2 == 0,
                    n % 2 == 0,
            ;
        }
        m = m / 2;
        n = n / 2;
        p = p * 2;
    }
    // make m odd; n stays put, and is odd whenever this loop runs
    while m % 2 == 0
        invariant
            m > 0,
            n > 0,
            m % 2 == 1 || n % 2 == 1,
            gcd(a as nat, b as nat) == p * gcd(m as nat, n as nat),
        decreases m,
    {
        proof {
            lemma_gcd_halve((m / 2) as nat, n as nat);
        }
        m = m / 2;
    }
    // make n odd as well
    while n % 2 == 0
        invariant
            m > 0,
            n > 0,
            m % 2 == 1,
            gcd(a as nat, b as nat) == p * gcd(m as nat, n as nat),
        decreases n,
    {
        proof {
            lemma_gcd_commutative(m as nat, n as nat);
            lemma_gcd_halve((n / 2) as nat, m as nat);
            lemma_gcd_commutative((n / 2) as nat, m as nat);
        }
        n = n / 2;
    }
    // subtract the smaller odd core from the larger, restoring oddness
    while m != n
        invariant
            m > 0,
            n > 0,
            m % 2 == 1,
            n % 2 == 1,
            gcd(a as nat, b as nat) == p * gcd(m as nat, n as nat),
        decreases m + n,
    {
        if m > n {
            proof {
                lemma_gcd_subtract(m as nat, n as nat);
            }
            m = m - n;
            let ghost m_mid = m;
            while m % 2 == 0
                invariant
                    m > 0,
                    n > 0,
                    n % 2 == 1,
                    m <= m_mid,
                    gcd(a as nat, b as nat) == p * gcd(m as nat, n as nat),
                decreases m,
            {
                proof {
                    lemma_gcd_halve((m / 2) as nat, n as nat);
                }
                m = m / 2;
            }
        } else {
            proof {
                lemma_gcd_commutative(m as nat, n as nat);
                lemma_gcd_subtract(n as nat, m as nat);
                lemma_gcd_commutative((n - m) as nat, m as nat);
            }
            n = n - m;
            let ghost n_mid = n;
            while n % 2 == 0
                invariant
                    m > 0,
                    n > 0,
                    m % 2 == 1,
                    n <= n_mid,
                    gcd(a as nat, b as nat) == p * gcd(m as nat, n as nat),
                decreases n,
            {
                proof {
                    lemma_gcd_commutative(m as nat, n as nat);
                    lemma_gcd_halve((n / 2) as nat, m as nat);
                    lemma_gcd_commutative((n / 2) as nat, m as nat);
                }
                n = n / 2;
            }
        }
    }
    proof {
        lemma_gcd_self(m as nat);
        lemma_gcd_divides(a as nat, b as nat);
        lemma_divides_le(gcd(a as nat, b as nat), a as nat);
        assert(m * p == p * m) by (nonlinear_arith);
    }
    m * p
}

/// The gcd fits under any bound that one positive argument fits under.
pub proof fn lemma_gcd_le_bound(a: nat, b: nat, bound: nat)
    requires
        (0 < a && a <= bound) || (0 < b && b <= bound),
    ensures
        gcd(a, b) <= bound,
{
    lemma_gcd_divides(a, b);
    if 0 < a && a <= bound {
        lemma_divides_le(gcd(a, b), a);
    } else {
        lemma_divides_le(gcd(a, b), b);
    }
}

/// Greatest common divisor as a method on signed integers. The result is
/// computed from the absolute values, so the signs of the inputs never
/// affect it; with one zero argument it is the magnitude of the other.
pub trait GCD: Sized {
    /// The input pairs whose gcd is representable: excluded are exactly
    /// the pairs whose gcd would be the magnitude of the minimum value.
    spec fn gcd_ok(self, other: Self) -> bool;

    /// The mathematical gcd of the two magnitudes.
    spec fn gcd_spec(self, other: Self) -> Self;

    /// Computes the greatest common divisor of two signed integers.
    fn gcd(self, other: Self) -> (r: Self)
        requires
            self.gcd_ok(other),
        ensures
            r == self.gcd_spec(other),
    ;
}

impl GCD for i8 {
    open spec fn gcd_ok(self, other: Self) -> bool {
        !(self == i8::MIN && (other == i8::MIN || other == 0)) && !(self == 0 && other
            == i8::MIN)
    }

    open spec fn gcd_spec(self, other: Self) -> Self {
        gcd(abs(self as int), abs(other as int)) as i8
    }

    fn gcd(self, other: Self) -> (r: Self) {
        let g = gcd_u128(mag_i128(self as i128), mag_i128(other as i128));
        proof {
            if self != 0 && self != i8::MIN {
                lemma_gcd_le_bound(abs(self as int), abs(other as int), i8::MAX as nat);
            } else if other != 0 && other != i8::MIN {
                lemma_gcd_le_bound(abs(self as int), abs(other as int), i8::MAX as nat);
            }
        }
        g as i8
    }
}

impl GCD for i16 {
    open spec fn gcd_ok(self, other: Self) -> bool {
        !(self == i16::MIN && (other == i16::MIN || other == 0)) && !(self == 0 && other
            == i16::MIN)
    }

    open spec fn gcd_spec(self, other: Self) -> Self {
        gcd(abs(self as int), abs(other as int)) as i16
    }

    fn gcd(self, other: Self) -> (r: Self) {
        let g = gcd_u128(mag_i128(self as i128), mag_i128(other as i128));
        proof {
            if self != 0 && self != i16::MIN {
                lemma_gcd_le_bound(abs(self as int), abs(other as int), i16::MAX as nat);
            } else if other != 0 && other != i16::MIN {
                lemma_gcd_le_bound(abs(self as int), abs(other as int), i16::MAX as nat);
            }
        }
        g as i16
    }
}

impl GCD for i32 {
    open spec fn gcd_ok(self, other: Self) -> bool {
        !(self == i32::MIN && (other == i32::MIN || other == 0)) && !(self == 0 && other
            == i32::MIN)
    }

    open spec fn gcd_spec(self, other: Self) -> Self {
        gcd(abs(self as int), abs(other as int)) as i32
    }

    fn gcd(self, other: Self) -> (r: Self) {
        let g = gcd_u128(mag_i128(self as i128), mag_i128(other as i128));
        proof {
            if self != 0 && self != i32::MIN {
                lemma_gcd_le_bound(abs(self as int), abs(other as int), i32::MAX as nat);
            } else if other != 0 && other != i32::MIN {
                lemma_gcd_le_bound(abs(self as int), abs(other as int), i32::MAX as nat);
            }
        }
        g as i32
    }
}

impl GCD for i64 {
    open spec fn gcd_ok(self, other: Self) -> bool {
        !(self == i64::MIN && (other == i64::MIN || other == 0)) && !(self == 0 && other
            == i64::MIN)
    }

    open spec fn gcd_spec(self, other: Self) -> Self {
        gcd(abs(self as int), abs(other as int)) as i64
    }

    fn gcd(self, other: Self) -> (r: Self) {
        let g = gcd_u128(mag_i128(self as i128), mag_i128(other as i128));
        proof {
            if self != 0 && self != i64::MIN {
                lemma_gcd_le_bound(abs(self as int), abs(other as int), i64::MAX as nat);
            } else if other != 0 && other != i64::MIN {
                lemma_gcd_le_bound(abs(self as int), abs(other as int), i64::MAX as nat);
            }
        }
        g as i64
    }
}

impl GCD for i128 {
    open spec fn gcd_ok(self, other: Self) -> bool {
        !(self == i128::MIN && (other == i128::MIN || other == 0)) && !(self == 0 && other
            == i128::MIN)
    }

    open spec fn gcd_spec(self, other: Self) -> Self {
        gcd(abs(self as int), abs(other as int)) as i128
    }

    fn gcd(self, other: Self) -> (r: Self) {
        let g = gcd_u128(mag_i128(self as i128), mag_i128(other as i128));
        proof {
            if self != 0 && self != i128::MIN {
                lemma_gcd_le_bound(abs(self as int), abs(other as int), i128::MAX as nat);
            } else if other != 0 && other != i128::MIN {
                lemma_gcd_le_bound(abs(self as int), abs(other as int), i128::MAX as nat);
            }
        }
        g as i128
    }
}

impl GCD for isize {
    open spec fn gcd_ok(self, other: Self) -> bool {
        !(self == isize::MIN && (other == isize::MIN || other == 0)) && !(self == 0 && other
            == isize::MIN)
    }

    open spec fn gcd_spec(self, other: Self) -> Self {
        gcd(abs(self as int), abs(other as int)) as isize
    }

    fn gcd(self, other: Self) -> (r: Self) {
        let g = gcd_u128(mag_i128(self as i128), mag_i128(other as i128));
        proof {
            if self != 0 && self != isize::MIN {
                lemma_gcd_le_bound(abs(self as int), abs(other as int), isize::MAX as nat);
            } else if other != 0 && other != isize::MIN {
                lemma_gcd_le_bound(abs(self as int), abs(other as int), isize::MAX as nat);
            }
        }
        g as isize
    }
}

/// Integer exponentiation as a method on unsigned integers.
pub trait BetterExponent: Sized {
    /// The inputs whose power fits in the type.
    spec fn power_ok(self, number: usize) -> bool;

    /// The mathematical power.
    spec fn power_spec(self, number: usize) -> Self;

    /// Raises `self` to the power `number` by repeated multiplication.
    fn power(self, number: usize) -> (r: Self)
        requires
            self.power_ok(number),
        ensures
            r == self.power_spec(number),
    ;
}

impl BetterExponent for u8 {
    open spec fn power_ok(self, number: usize) -> bool {
        pow(self as int, number as nat) <= u8::MAX
    }

    open spec fn power_spec(self, number: usize) -> Self {
        pow(self as int, number as nat) as u8
    }

    fn power(self, number: usize) -> (r: Self) {
        let mut result: u8 = 1;
        let mut i: usize = 0;
        proof {
            lemma_pow0(self as int);
        }
        while i < number
            invariant
                i <= number,
                result == pow(self as int, i as nat),
                pow(self as int, number as nat) <= u8::MAX,
            decreases number - i,
        {
            proof {
                lemma_pow_adds(self as int, i as nat, 1);
                lemma_pow1(self as int);
                if self > 0 {
                    lemma_pow_increases(self as nat, (i + 1) as nat, number as nat);
                } else {
                    lemma0_pow((i + 1) as nat);
                }
            }
            result = result * self;
            i = i + 1;
        }
        result
    }
}

impl BetterExponent for u16 {
    open spec fn power_ok(self, number: usize) -> bool {
        pow(self as int, number as nat) <= u16::MAX
    }

    open spec fn power_spec(self, number: usize) -> Self {
        pow(self as int, number as nat) as u16
    }

    fn power(self, number: usize) -> (r: Self) {
        let mut result: u16 = 1;
        let mut i: usize = 0;
        proof {
            lemma_pow0(self as int);
        }
        while i < number
            invariant
                i <= number,
                result == pow(self as int, i as nat),
                pow(self as int, number as nat) <= u16::MAX,
            decreases number - i,
        {
            proof {
                lemma_pow_adds(self as int, i as nat, 1);
                lemma_pow1(self as int);
                if self > 0 {
                    lemma_pow_increases(self as nat, (i + 1) as nat, number as nat);
                } else {
                    lemma0_pow((i + 1) as nat);
                }
            }
            result = result * self;
            i = i + 1;
        }
        result
    }
}

impl BetterExponent for u32 {
    open spec fn power_ok(self, number: usize) -> bool {
        pow(self as int, number as nat) <= u32::MAX
    }

    open spec fn power_spec(self, number: usize) -> Self {
        pow(self as int, number as nat) as u32
    }

    fn power(self, number: usize) -> (r: Self) {
        let mut result: u32 = 1;
        let mut i: usize = 0;
        proof {
            lemma_pow0(self as int);
        }
        while i < number
            invariant
                i <= number,
                result == pow(self as int, i as nat),
                pow(self as int, number as nat) <= u32::MAX,
            decreases number - i,
        {
            proof {
                lemma_pow_adds(self as int, i as nat, 1);
                lemma_pow1(self as int);
                if self > 0 {
                    lemma_pow_increases(self as nat, (i + 1) as nat, number as nat);
                } else {
                    lemma0_pow((i + 1) as nat);
                }
            }
            result = result * self;
            i = i + 1;
        }
        result
    }
}

impl BetterExponent for u64 {
    open spec fn power_ok(self, number: usize) -> bool {
        pow(self as int, number as nat) <= u64::MAX
    }

    open spec fn power_spec(self, number: usize) -> Self {
        pow(self as int, number as nat) as u64
    }

    fn power(self, number: usize) -> (r: Self) {
        let mut result: u64 = 1;
        let mut i: usize = 0;
        proof {
            lemma_pow0(self as int);
        }
        while i < number
            invariant
                i <= number,
                result == pow(self as int, i as nat),
                pow(self as int, number as nat) <= u64::MAX,
            decreases number - i,
        {
            proof {
                lemma_pow_adds(self as int, i as nat, 1);
                lemma_pow1(self as int);
                if self > 0 {
                    lemma_pow_increases(self as nat, (i + 1) as nat, number as nat);
                } else {
                    lemma0_pow((i + 1) as nat);
                }
            }
            result = result * self;
            i = i + 1;
        }
        result
    }
}

impl BetterExponent for u128 {
    open spec fn power_ok(self, number: usize) -> bool {
        pow(self as int, number as nat) <= u128::MAX
    }

    open spec fn power_spec(self, number: usize) -> Self {
        pow(self as int, number as nat) as u128
    }

    fn power(self, number: usize) -> (r: Self) {
        let mut result: u128 = 1;
        let mut i: usize = 0;
        proof {
            lemma_pow0(self as int);
        }
        while i < number
            invariant
                i <= number,
                result == pow(self as int, i as nat),
                pow(self as int, number as nat) <= u128::MAX,
            decreases number - i,
        {
            proof {
                lemma_pow_adds(self as int, i as nat, 1);
                lemma_pow1(self as int);
                if self > 0 {
                    lemma_pow_increases(self as nat, (i + 1) as nat, number as nat);
                } else {
                    lemma0_pow((i + 1) as nat);
                }
            }
            result = result * self;
            i = i + 1;
        }
        result
    }
}

/// Conversion of a list of integers into the list of the whole-number
/// fractions with the same values.
pub trait VecToFraction: Sized {
    /// The element values, as unbounded integers.
    spec fn element_values(&self) -> Seq<int>;

    /// Whether every element is representable as a 128-bit numerator.
    spec fn to_fraction_ok(&self) -> bool;

    /// Converts each element into the canonical fraction `element / 1`.
    fn to_fraction(self) -> (r: Vec<Fraction>)
        requires
            self.to_fraction_ok(),
        ensures
            r@.len() == self.element_values().len(),
            forall|k: int|
                0 <= k < r@.len() ==> (#[trigger] r@[k])@ == (Ratio {
                    n: self.element_values()[k],
                    d: 1,
                }) && r@[k].wf(),
    ;
}

impl VecToFraction for Vec<u8> {
    open spec fn element_values(&self) -> Seq<int> {
        self@.map_values(|x: u8| x as int)
    }

    open spec fn to_fraction_ok(&self) -> bool {
        true
    }

    fn to_fraction(self) -> (r: Vec<Fraction>) {
        let mut result: Vec<Fraction> = Vec::new();
        let mut idx: usize = 0;
        while idx < self.len()
            invariant
                idx <= self@.len(),
                result@.len() == idx,
                self.to_fraction_ok(),
                forall|k: int|
                    0 <= k < idx ==> (#[trigger] result@[k])@ == (Ratio {
                        n: self@[k] as int,
                        d: 1,
                    }) && result@[k].wf(),
            decreases self@.len() - idx,
        {
            let f = Fraction::new(self[idx] as i128, 1);
            proof {
                lemma_ratio_new_integer(self@[idx as int] as int);
            }
            result.push(f);
            idx = idx + 1;
        }
        result
    }
}

impl VecToFraction for Vec<u16> {
    open spec fn element_values(&self) -> Seq<int> {
        self@.map_values(|x: u16| x as int)
    }

    open spec fn to_fraction_ok(&self) -> bool {
        true
    }

    fn to_fraction(self) -> (r: Vec<Fraction>) {
        let mut result: Vec<Fraction> = Vec::new();
        let mut idx: usize = 0;
        while idx < self.len()
            invariant
                idx <= self@.len(),
                result@.len() == idx,
                self.to_fraction_ok(),
                forall|k: int|
                    0 <= k < idx ==> (#[trigger] result@[k])@ == (Ratio {
                        n: self@[k] as int,
                        d: 1,
                    }) && result@[k].wf(),
            decreases self@.len() - idx,
        {
            let f = Fraction::new(self[idx] as i128, 1);
            proof {
                lemma_ratio_new_integer(self@[idx as int] as int);
            }
            result.push(f);
            idx = idx + 1;
        }
        result
    }
}

impl VecToFraction for Vec<u32> {
    open spec fn element_values(&self) -> Seq<int> {
        self@.map_values(|x: u32| x as int)
    }

    open spec fn to_fraction_ok(&self) -> bool {
        true
    }

    fn to_fraction(self) -> (r: Vec<Fraction>) {
        let mut result: Vec<Fraction> = Vec::new();
        let mut idx: usize = 0;
        while idx < self.len()
            invariant
                idx <= self@.len(),
                result@.len() == idx,
                self.to_fraction_ok(),
                forall|k: int|
                    0 <= k < idx ==> (#[trigger] result@[k])@ == (Ratio {
                        n: self@[k] as int,
                        d: 1,
                    }) && result@[k].wf(),
            decreases self@.len() - idx,
        {
            let f = Fraction::new(self[idx] as i128, 1);
            proof {
                lemma_ratio_new_integer(self@[idx as int] as int);
            }
            result.push(f);
            idx = idx + 1;
        }
        result
    }
}

impl VecToFraction for Vec<u64> {
    open spec fn element_values(&self) -> Seq<int> {
        self@.map_values(|x: u64| x as int)
    }

    open spec fn to_fraction_ok(&self) -> bool {
        true
    }

    fn to_fraction(self) -> (r: Vec<Fraction>) {
        let mut result: Vec<Fraction> = Vec::new();
        let mut idx: usize = 0;
        while idx < self.len()
            invariant
                idx <= self@.len(),
                result@.len() == idx,
                self.to_fraction_ok(),
                forall|k: int|
                    0 <= k < idx ==> (#[trigger] result@[k])@ == (Ratio {
                        n: self@[k] as int,
                        d: 1,
                    }) && result@[k].wf(),
            decreases self@.len() - idx,
        {
            let f = Fraction::new(self[idx] as i128, 1);
            proof {
                lemma_ratio_new_integer(self@[idx as int] as int);
            }
            result.push(f);
            idx = idx + 1;
        }
        result
    }
}

impl VecToFraction for Vec<usize> {
    open spec fn element_values(&self) -> Seq<int> {
        self@.map_values(|x: usize| x as int)
    }

    open spec fn to_fraction_ok(&self) -> bool {
        true
    }

    fn to_fraction(self) -> (r: Vec<Fraction>) {
        let mut result: Vec<Fraction> = Vec::new();
        let mut idx: usize = 0;
        while idx < self.len()
            invariant
                idx <= self@.len(),
                result@.len() == idx,
                self.to_fraction_ok(),
                forall|k: int|
                    0 <= k < idx ==> (#[trigger] result@[k])@ == (Ratio {
                        n: self@[k] as int,
                        d: 1,
                    }) && result@[k].wf(),
            decreases self@.len() - idx,
        {
            let f = Fraction::new(self[idx] as i128, 1);
            proof {
                lemma_ratio_new_integer(self@[idx as int] as int);
            }
            result.push(f);
            idx = idx + 1;
        }
        result
    }
}

impl VecToFraction for Vec<i8> {
    open spec fn element_values(&self) -> Seq<int> {
        self@.map_values(|x: i8| x as int)
    }

    open spec fn to_fraction_ok(&self) -> bool {
        true
    }

    fn to_fraction(self) -> (r: Vec<Fraction>) {
        let mut result: Vec<Fraction> = Vec::new();
        let mut idx: usize = 0;
        while idx < self.len()
            invariant
                idx <= self@.len(),
                result@.len() == idx,
                self.to_fraction_ok(),
                forall|k: int|
                    0 <= k < idx ==> (#[trigger] result@[k])@ == (Ratio {
                        n: self@[k] as int,
                        d: 1,
                    }) && result@[k].wf(),
            decreases self@.len() - idx,
        {
            let f = Fraction::new(self[idx] as i128, 1);
            proof {
                lemma_ratio_new_integer(self@[idx as int] as int);
            }
            result.push(f);
            idx = idx + 1;
        }
        result
    }
}

impl VecToFraction for Vec<i16> {
    open spec fn element_values(&self) -> Seq<int> {
        self@.map_values(|x: i16| x as int)
    }

    open spec fn to_fraction_ok(&self) -> bool {
        true
    }

    fn to_fraction(self) -> (r: Vec<Fraction>) {
        let mut result: Vec<Fraction> = Vec::new();
        let mut idx: usize = 0;
        while idx < self.len()
            invariant
                idx <= self@.len(),
                result@.len() == idx,
                self.to_fraction_ok(),
                forall|k: int|
                    0 <= k < idx ==> (#[trigger] result@[k])@ == (Ratio {
                        n: self@[k] as int,
                        d: 1,
                    }) && result@[k].wf(),
            decreases self@.len() - idx,
        {
            let f = Fraction::new(self[idx] as i128, 1);
            proof {
                lemma_ratio_new_integer(self@[idx as int] as int);
            }
            result.push(f);
            idx = idx + 1;
        }
        result
    }
}

impl VecToFraction for Vec<i32> {
    open spec fn element_values(&self) -> Seq<int> {
        self@.map_values(|x: i32| x as int)
    }

    open spec fn to_fraction_ok(&self) -> bool {
        true
    }

    fn to_fraction(self) -> (r: Vec<Fraction>) {
        let mut result: Vec<Fraction> = Vec::new();
        let mut idx: usize = 0;
        while idx < self.len()
            invariant
                idx <= self@.len(),
                result@.len() == idx,
                self.to_fraction_ok(),
                forall|k: int|
                    0 <= k < idx ==> (#[trigger] result@[k])@ == (Ratio {
                        n: self@[k] as int,
                        d: 1,
                    }) && result@[k].wf(),
            decreases self@.len() - idx,
        {
            let f = Fraction::new(self[idx] as i128, 1);
            proof {
                lemma_ratio_new_integer(self@[idx as int] as int);
            }
            result.push(f);
            idx = idx + 1;
        }
        result
    }
}

impl VecToFraction for Vec<i64> {
    open spec fn element_values(&self) -> Seq<int> {
        self@.map_values(|x: i64| x as int)
    }

    open spec fn to_fraction_ok(&self) -> bool {
        true
    }

    fn to_fraction(self) -> (r: Vec<Fraction>) {
        let mut result: Vec<Fraction> = Vec::new();
        let mut idx: usize = 0;
        while idx < self.len()
            invariant
                idx <= self@.len(),
                result@.len() == idx,
                self.to_fraction_ok(),
                forall|k: int|
                    0 <= k < idx ==> (#[trigger] result@[k])@ == (Ratio {
                        n: self@[k] as int,
                        d: 1,
                    }) && result@[k].wf(),
            decreases self@.len() - idx,
        {
            let f = Fraction::new(self[idx] as i128, 1);
            proof {
                lemma_ratio_new_integer(self@[idx as int] as int);
            }
            result.push(f);
            idx = idx + 1;
        }
        result
    }
}

impl VecToFraction for Vec<i128> {
    open spec fn element_values(&self) -> Seq<int> {
        self@.map_values(|x: i128| x as int)
    }

    open spec fn to_fraction_ok(&self) -> bool {
        true
    }

    fn to_fraction(self) -> (r: Vec<Fraction>) {
        let mut result: Vec<Fraction> = Vec::new();
        let mut idx: usize = 0;
        while idx < self.len()
            invariant
                idx <= self@.len(),
                result@.len() == idx,
                self.to_fraction_ok(),
                forall|k: int|
                    0 <= k < idx ==> (#[trigger] result@[k])@ == (Ratio {
                        n: self@[k] as int,
                        d: 1,
                    }) && result@[k].wf(),
            decreases self@.len() - idx,
        {
            let f = Fraction::new(self[idx] as i128, 1);
            proof {
                lemma_ratio_new_integer(self@[idx as int] as int);
            }
            result.push(f);
            idx = idx + 1;
        }
        result
    }
}

impl VecToFraction for Vec<u128> {
    open spec fn element_values(&self) -> Seq<int> {
        self@.map_values(|x: u128| x as int)
    }

    open spec fn to_fraction_ok(&self) -> bool {
        forall|k: int| 0 <= k < self@.len() ==> (#[trigger] self@[k]) <= i128::MAX
    }

    fn to_fraction(self) -> (r: Vec<Fraction>) {
        let mut result: Vec<Fraction> = Vec::new();
        let mut idx: usize = 0;
        while idx < self.len()
            invariant
                idx <= self@.len(),
                result@.len() == idx,
                self.to_fraction_ok(),
                forall|k: int|
                    0 <= k < idx ==> (#[trigger] result@[k])@ == (Ratio {
                        n: self@[k] as int,
                        d: 1,
                    }) && result@[k].wf(),
            decreases self@.len() - idx,
        {
            let f = Fraction::new(self[idx] as i128, 1);
            proof {
                lemma_ratio_new_integer(self@[idx as int] as int);
            }
            result.push(f);
            idx = idx + 1;
        }
        result
    }
}

} // verus!
