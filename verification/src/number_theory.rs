//! Divisibility and the greatest common divisor.
//!
//! The specification-level theory behind fraction reduction: an exact
//! notion of divisibility, the Euclidean definition of `gcd`, and the
//! lemmas about scaling, halving and subtraction that the binary GCD
//! implementation and the canonical-form arguments rely on.

use vstd::prelude::*;

verus! {

use vstd::arithmetic::div_mod::lemma_fundamental_div_mod;
use vstd::math::abs;
use vstd::arithmetic::div_mod::lemma_div_multiples_vanish;
use vstd::arithmetic::div_mod::lemma_mod_multiples_basic;
use vstd::arithmetic::div_mod::lemma_mod_multiples_vanish;

/// `d` divides `n`: some natural multiple of `d` equals `n`.
pub open spec fn divides(d: nat, n: nat) -> bool {
    exists|k: nat| n == #[trigger] (d * k)
}

/// Greatest common divisor of two naturals, by the Euclidean recursion.
pub open spec fn gcd(a: nat, b: nat) -> nat
    decreases b,
{
    if b == 0 {
        a
    } else {
        gcd(b, a % b)
    }
}

/// Every number divides itself.
pub proof fn lemma_divides_refl(a: nat)
    ensures
        divides(a, a),
{
    assert(a == a * 1);
}

/// Every number divides zero.
pub proof fn lemma_divides_zero(d: nat)
    ensures
        divides(d, 0),
{
    assert(0nat == d * 0);
}

/// Only zero is divisible by zero.
pub proof fn lemma_zero_divides(n: nat)
    requires
        divides(0, n),
    ensures
        n == 0,
{
    let k = choose|k: nat| n == #[trigger] (0nat * k);
    assert(0nat * k == 0);
}

/// A divisor of a positive number is positive and no larger than it.
pub proof fn lemma_divides_le(d: nat, n: nat)
    requires
        divides(d, n),
        n > 0,
    ensures
        0 < d <= n,
{
    let k = choose|k: nat| n == #[trigger] (d * k);
    assert(0 < d && d <= d * k) by (nonlinear_arith)
        requires
            n == d * k,
            n > 0,
    ;
}

/// Two numbers that divide each other are equal.
pub proof fn lemma_divides_antisymmetric(a: nat, b: nat)
    requires
        divides(a, b),
        divides(b, a),
    ensures
        a == b,
{
    if a == 0 {
        lemma_zero_divides(b);
    } else if b == 0 {
        lemma_zero_divides(a);
    } else {
        lemma_divides_le(a, b);
        lemma_divides_le(b, a);
    }
}

/// Divisibility is transitive.
pub proof fn lemma_divides_transitive(a: nat, b: nat, c: nat)
    requires
        divides(a, b),
        divides(b, c),
    ensures
        divides(a, c),
{
    let k1 = choose|k: nat| b == #[trigger] (a * k);
    let k2 = choose|k: nat| c == #[trigger] (b * k);
    assert(c == a * (k1 * k2)) by (nonlinear_arith)
        requires
            b == a * k1,
            c == b * k2,
    ;
}

/// Scaling both sides preserves divisibility.
pub proof fn lemma_divides_scale(k: nat, d: nat, n: nat)
    requires
        divides(d, n),
    ensures
        divides(k * d, k * n),
{
    let j = choose|j: nat| n == #[trigger] (d * j);
    assert(k * n == (k * d) * j) by (nonlinear_arith)
        requires
            n == d * j,
    ;
}

/// A common positive factor can be cancelled from a divisibility.
pub proof fn lemma_divides_unscale(k: nat, d: nat, n: nat)
    requires
        k > 0,
        divides(k * d, k * n),
    ensures
        divides(d, n),
{
    let j = choose|j: nat| k * n == #[trigger] ((k * d) * j);
    assert(n == d * j) by (nonlinear_arith)
        requires
            k > 0,
            k * n == (k * d) * j,
    ;
}

/// A common divisor of `b` and `r` divides `b * q + r`.
pub proof fn lemma_divides_sum_multiple(d: nat, b: nat, q: nat, r: nat)
    requires
        divides(d, b),
        divides(d, r),
    ensures
        divides(d, b * q + r),
{
    let k1 = choose|k: nat| b == #[trigger] (d * k);
    let k2 = choose|k: nat| r == #[trigger] (d * k);
    assert(b * q + r == d * (k1 * q + k2)) by (nonlinear_arith)
        requires
            b == d * k1,
            r == d * k2,
    ;
}

/// A common divisor of `a` and `b` divides the remainder `a % b`.
pub proof fn lemma_divides_mod(d: nat, a: nat, b: nat)
    requires
        b > 0,
        divides(d, a),
        divides(d, b),
    ensures
        divides(d, a % b),
{
    if d == 0 {
        lemma_zero_divides(b);
    } else {
        let ka = choose|k: nat| a == #[trigger] (d * k);
        let kb = choose|k: nat| b == #[trigger] (d * k);
        lemma_fundamental_div_mod(a as int, b as int);
        let q = a as int / b as int;
        let w = ka as int - kb as int * q;
        assert(a % b == d * w) by (nonlinear_arith)
            requires
                a == d * ka,
                b == d * kb,
                a % b == a - b * q,
                w == ka - kb * q,
        ;
        assert(w >= 0) by (nonlinear_arith)
            requires
                a % b == d * w,
                a % b >= 0,
                d > 0,
        ;
        assert(a % b == d * (w as nat));
    }
}

/// The gcd divides both of its arguments.
pub proof fn lemma_gcd_divides(a: nat, b: nat)
    ensures
        divides(gcd(a, b), a),
        divides(gcd(a, b), b),
    decreases b,
{
    if b == 0 {
        lemma_divides_refl(a);
        lemma_divides_zero(a);
    } else {
        lemma_gcd_divides(b, a % b);
        let g = gcd(b, a % b);
        lemma_fundamental_div_mod(a as int, b as int);
        assert(a == b * (a / b) + a % b);
        lemma_divides_sum_multiple(g, b, a / b, a % b);
    }
}

/// Every common divisor of `a` and `b` divides their gcd.
pub proof fn lemma_gcd_greatest(a: nat, b: nat, e: nat)
    requires
        divides(e, a),
        divides(e, b),
    ensures
        divides(e, gcd(a, b)),
    decreases b,
{
    if b != 0 {
        lemma_divides_mod(e, a, b);
        lemma_gcd_greatest(b, a % b, e);
    }
}

/// The gcd is positive unless both arguments are zero.
pub proof fn lemma_gcd_positive(a: nat, b: nat)
    ensures
        gcd(a, b) == 0 <==> a == 0 && b == 0,
{
    lemma_gcd_divides(a, b);
    if gcd(a, b) == 0 {
        lemma_zero_divides(a);
        lemma_zero_divides(b);
    }
}

/// The gcd does not depend on the order of its arguments.
pub proof fn lemma_gcd_commutative(a: nat, b: nat)
    ensures
        gcd(a, b) == gcd(b, a),
{
    lemma_gcd_divides(a, b);
    lemma_gcd_divides(b, a);
    lemma_gcd_greatest(b, a, gcd(a, b));
    lemma_gcd_greatest(a, b, gcd(b, a));
    lemma_divides_antisymmetric(gcd(a, b), gcd(b, a));
}

/// A zero on the left leaves the other argument.
pub proof fn lemma_gcd_zero_left(b: nat)
    ensures
        gcd(0, b) == b,
{
    reveal_with_fuel(gcd, 2);
    if b > 0 {
        assert(0nat % b == 0);
    }
}

/// The gcd of a number with itself is that number.
pub proof fn lemma_gcd_self(a: nat)
    ensures
        gcd(a, a) == a,
{
    reveal_with_fuel(gcd, 2);
    if a > 0 {
        assert(a % a == 0);
    }
}

/// Everything is coprime to one.
pub proof fn lemma_gcd_one(a: nat)
    ensures
        gcd(a, 1) == 1,
{
    reveal_with_fuel(gcd, 2);
    assert(a % 1 == 0);
}

/// Subtracting the smaller argument from the larger keeps the gcd.
pub proof fn lemma_gcd_subtract(a: nat, b: nat)
    requires
        b > 0,
        a >= b,
    ensures
        gcd((a - b) as nat, b) == gcd(a, b),
{
    lemma_mod_multiples_vanish(-1, a as int, b as int);
    assert(((a - b) as nat) % b == a % b);
}

/// A common factor scales the gcd.
pub proof fn lemma_gcd_scale(k: nat, a: nat, b: nat)
    ensures
        gcd(k * a, k * b) == k * gcd(a, b),
{
    if k == 0 {
        assert(k * a == 0 && k * b == 0 && k * gcd(a, b) == 0);
    } else {
        let g = gcd(a, b);
        let big = gcd(k * a, k * b);
        lemma_gcd_divides(a, b);
        lemma_divides_scale(k, g, a);
        lemma_divides_scale(k, g, b);
        lemma_gcd_greatest(k * a, k * b, k * g);
        assert(divides(k, k * a));
        assert(divides(k, k * b));
        lemma_gcd_greatest(k * a, k * b, k);
        let h = choose|h: nat| big == #[trigger] (k * h);
        lemma_gcd_divides(k * a, k * b);
        lemma_divides_unscale(k, h, a);
        lemma_divides_unscale(k, h, b);
        lemma_gcd_greatest(a, b, h);
        lemma_divides_scale(k, h, g);
        lemma_divides_antisymmetric(k * g, big);
    }
}

/// Evenness is divisibility by two.
pub proof fn lemma_even_iff_divides_two(n: nat)
    ensures
        divides(2, n) <==> n % 2 == 0,
{
    if n % 2 == 0 {
        lemma_fundamental_div_mod(n as int, 2);
        assert(n == 2 * (n / 2));
    }
    if divides(2, n) {
        let k = choose|k: nat| n == #[trigger] (2nat * k);
        lemma_mod_multiples_basic(k as int, 2);
        assert(n == k * 2);
    }
}

/// The product of two odd numbers is odd.
pub proof fn lemma_odd_times_odd(x: nat, y: nat)
    requires
        x % 2 == 1,
        y % 2 == 1,
    ensures
        (x * y) % 2 == 1,
{
    lemma_fundamental_div_mod(x as int, 2);
    lemma_fundamental_div_mod(y as int, 2);
    let i = x / 2;
    let j = y / 2;
    let m = 2 * (i * j) + i + j;
    assert(x * y == 2 * m + 1) by (nonlinear_arith)
        requires
            x == 2 * i + 1,
            y == 2 * j + 1,
            m == 2 * (i * j) + i + j,
    ;
    lemma_mod_multiples_vanish(m as int, 1, 2);
}

/// Doubling one argument changes nothing when the other is odd.
pub proof fn lemma_gcd_halve(a: nat, b: nat)
    requires
        b % 2 == 1,
    ensures
        gcd(2 * a, b) == gcd(a, b),
{
    let g = gcd(a, b);
    let big = gcd(2 * a, b);
    lemma_gcd_divides(a, b);
    lemma_gcd_divides(2 * a, b);
    assert(2 * a == a * 2);
    assert(divides(a, 2 * a));
    lemma_divides_transitive(g, a, 2 * a);
    lemma_gcd_greatest(2 * a, b, g);
    if big % 2 == 0 {
        lemma_even_iff_divides_two(big);
        lemma_divides_transitive(2, big, b);
        lemma_even_iff_divides_two(b);
        assert(false);
    }
    let k = choose|k: nat| 2 * a == #[trigger] (big * k);
    if k % 2 == 1 {
        lemma_odd_times_odd(big, k);
        lemma_mod_multiples_basic(a as int, 2);
        assert(2 * a == a * 2);
        assert(false);
    }
    lemma_fundamental_div_mod(k as int, 2);
    let k2 = (k / 2) as nat;
    assert(a == big * k2) by (nonlinear_arith)
        requires
            2 * a == big * k,
            k == 2 * k2,
    ;
    assert(divides(big, a));
    lemma_gcd_greatest(a, b, big);
    lemma_divides_antisymmetric(g, big);
}

/// Dividing both arguments by their gcd leaves coprime quotients.
pub proof fn lemma_coprime_after_reduction(a: nat, b: nat)
    requires
        b > 0,
    ensures
        gcd(a / gcd(a, b), b / gcd(a, b)) == 1,
{
    let g = gcd(a, b);
    lemma_gcd_positive(a, b);
    lemma_gcd_divides(a, b);
    let ka = choose|k: nat| a == #[trigger] (g * k);
    let kb = choose|k: nat| b == #[trigger] (g * k);
    lemma_div_multiples_vanish(ka as int, g as int);
    lemma_div_multiples_vanish(kb as int, g as int);
    assert(a / g == ka);
    assert(b / g == kb);
    let h = gcd(ka, kb);
    lemma_gcd_divides(ka, kb);
    lemma_divides_scale(g, h, ka);
    lemma_divides_scale(g, h, kb);
    lemma_gcd_greatest(a, b, g * h);
    lemma_divides_le(g * h, g);
    assert(h <= 1) by (nonlinear_arith)
        requires
            g * h <= g,
            g > 0,
    ;
    assert(kb > 0) by (nonlinear_arith)
        requires
            b == g * kb,
            b > 0,
    ;
    lemma_gcd_positive(ka, kb);
}

/// The magnitude of a product is the product of the magnitudes.
pub proof fn lemma_abs_mul(x: int, y: int)
    ensures
        abs(x * y) == abs(x) * abs(y),
{
    if x >= 0 && y >= 0 {
        assert(x * y >= 0) by (nonlinear_arith)
            requires
                x >= 0,
                y >= 0,
        ;
    } else if x >= 0 && y < 0 {
        assert(x * y <= 0 && x * (-y) == -(x * y)) by (nonlinear_arith)
            requires
                x >= 0,
                y < 0,
        ;
    } else if x < 0 && y >= 0 {
        assert(x * y <= 0 && (-x) * y == -(x * y)) by (nonlinear_arith)
            requires
                x < 0,
                y >= 0,
        ;
    } else {
        assert(x * y >= 0 && (-x) * (-y) == x * y) by (nonlinear_arith)
            requires
                x < 0,
                y < 0,
        ;
    }
}

/// Signed division by a positive divisor of the magnitude is exact and
/// agrees with dividing the magnitude.
pub proof fn lemma_exact_div_signed(x: int, g: int)
    requires
        g > 0,
        divides(g as nat, abs(x)),
    ensures
        g * (x / g) == x,
        abs(x / g) == abs(x) / (g as nat),
        x / g == if x >= 0 {
            (abs(x) / (g as nat)) as int
        } else {
            -((abs(x) / (g as nat)) as int)
        },
{
    let k = choose|k: nat| abs(x) == #[trigger] ((g as nat) * k);
    lemma_div_multiples_vanish(k as int, g);
    assert(abs(x) / (g as nat) == k);
    if x >= 0 {
        assert(x == g * k);
    } else {
        assert(x == g * (-(k as int))) by (nonlinear_arith)
            requires
                -x == g * k,
        ;
        lemma_div_multiples_vanish(-(k as int), g);
    }
}

/// A number coprime to `a` that divides `a * b` divides `b`.
pub proof fn lemma_coprime_divides_factor(c: nat, a: nat, b: nat)
    requires
        gcd(c, a) == 1,
        divides(c, a * b),
    ensures
        divides(c, b),
{
    lemma_gcd_scale(b, a, c);
    lemma_gcd_commutative(a, c);
    assert(a * b == b * a) by (nonlinear_arith);
    assert(b * c == c * b) by (nonlinear_arith);
    assert(divides(c, b * c));
    lemma_gcd_greatest(b * a, b * c, c);
    assert(b * 1 == b);
}

} // verus!
