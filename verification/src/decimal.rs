//! Decimal rendering of integers, for the fraction display format.

use vstd::prelude::*;

verus! {

use vstd::math::abs;
use vstd::string::StringExecFns;
use crate::helper::mag_i128;

/// The character for one decimal digit.
pub open spec fn digit_char(d: nat) -> char {
    if d == 0 {
        '0'
    } else if d == 1 {
        '1'
    } else if d == 2 {
        '2'
    } else if d == 3 {
        '3'
    } else if d == 4 {
        '4'
    } else if d == 5 {
        '5'
    } else if d == 6 {
        '6'
    } else if d == 7 {
        '7'
    } else if d == 8 {
        '8'
    } else {
        '9'
    }
}

/// The decimal digits of a natural number, most significant first.
pub open spec fn dec_str(n: nat) -> Seq<char>
    decreases n,
{
    if n < 10 {
        seq![digit_char(n)]
    } else {
        dec_str(n / 10).push(digit_char(n % 10))
    }
}

/// The decimal rendering of an integer: a minus sign for negative values,
/// then the digits of the magnitude.
pub open spec fn int_str(x: int) -> Seq<char> {
    if x < 0 {
        seq!['-'] + dec_str(abs(x))
    } else {
        dec_str(abs(x))
    }
}

/// The collected digits, least significant first, read back as characters
/// in display order.
spec fn rev_digit_seq(ds: Seq<u128>) -> Seq<char> {
    Seq::new(ds.len(), |i: int| digit_char(ds[ds.len() - 1 - i] as nat))
}

/// A one-character string for one decimal digit.
fn digit_str(d: u128) -> (r: &'static str)
    requires
        d < 10,
    ensures
        r@ == seq![digit_char(d as nat)],
{
    let r: &'static str = if d == 0 {
        "0"
    } else if d == 1 {
        "1"
    } else if d == 2 {
        "2"
    } else if d == 3 {
        "3"
    } else if d == 4 {
        "4"
    } else if d == 5 {
        "5"
    } else if d == 6 {
        "6"
    } else if d == 7 {
        "7"
    } else if d == 8 {
        "8"
    } else {
        "9"
    };
    proof {
        reveal_strlit("0");
        reveal_strlit("1");
        reveal_strlit("2");
        reveal_strlit("3");
        reveal_strlit("4");
        reveal_strlit("5");
        reveal_strlit("6");
        reveal_strlit("7");
        reveal_strlit("8");
        reveal_strlit("9");
        assert(r@ =~= seq![digit_char(d as nat)]);
    }
    r
}

/// Appends the decimal digits of `n` to `s`.
pub fn append_decimal(s: &mut String, n: u128)
    ensures
        final(s)@ == old(s)@ + dec_str(n as nat),
{
    let mut digits: Vec<u128> = Vec::new();
    let mut m = n;
    while m >= 10
        invariant
            forall|i: int| 0 <= i < digits@.len() ==> digits@[i] < 10,
            dec_str(n as nat) =~= dec_str(m as nat) + rev_digit_seq(digits@),
        decreases m,
    {
        let ghost before = digits@;
        digits.push(m % 10);
        proof {
            assert(rev_digit_seq(digits@) =~= seq![digit_char((m % 10) as nat)] + rev_digit_seq(
            before));
            assert(dec_str(m as nat) =~= dec_str((m / 10) as nat) + seq![
                digit_char((m % 10) as nat),
            ]);
            assert(dec_str(n as nat) =~= dec_str((m / 10) as nat) + rev_digit_seq(digits@));
        }
        m = m / 10;
    }
    let ghost before = digits@;
    digits.push(m);
    proof {
        assert(rev_digit_seq(digits@) =~= seq![digit_char(m as nat)] + rev_digit_seq(before));
        assert(dec_str(n as nat) =~= rev_digit_seq(digits@));
    }
    let ghost target = rev_digit_seq(digits@);
    let mut i: usize = digits.len();
    while i > 0
        invariant
            i <= digits@.len(),
            forall|j: int| 0 <= j < digits@.len() ==> digits@[j] < 10,
            target == rev_digit_seq(digits@),
            s@ == old(s)@ + target.subrange(0, digits@.len() - i),
        decreases i,
    {
        i = i - 1;
        let d = digits[i];
        let ghost count = digits@.len() - i - 1;
        s.append(digit_str(d));
        proof {
            assert(target[count] == digit_char(digits@[i as int] as nat));
            assert(s@ =~= old(s)@ + target.subrange(0, count + 1));
        }
    }
    proof {
        assert(target.subrange(0, target.len() as int) =~= target);
    }
}

/// Appends the decimal rendering of a signed value to `s`.
pub fn append_i128(s: &mut String, x: i128)
    ensures
        final(s)@ == old(s)@ + int_str(x as int),
{
    let ghost start = s@;
    if x < 0 {
        s.append("-");
        proof {
            reveal_strlit("-");
            assert(s@ =~= start + seq!['-']);
        }
    }
    let m = mag_i128(x);
    append_decimal(s, m);
    proof {
        if x < 0 {
            assert(s@ =~= start + (seq!['-'] + dec_str(abs(x as int))));
        }
    }
}

} // verus!
