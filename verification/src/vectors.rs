//! Mathematical vectors: a thin generic container with elementwise
//! arithmetic for fraction elements.
//!
//! A vector is a list of elements together with an orientation flag
//! (column or row). The arithmetic operations are defined for vectors of
//! [`Fraction`] elements and are stated over the same ratio model as the
//! fraction type itself.

use vstd::prelude::*;

verus! {

use vstd::string::StringExecFns;
use vstd::string::StrSliceExecFns;
use crate::fraction::Fraction;
use crate::fraction::Ratio;
use crate::fraction::display_str;
use crate::fraction::add_fits;
use crate::fraction::div_fits;
use crate::fraction::mul_fits;
use crate::fraction::sub_fits;
use crate::fraction::ratio_add;
use crate::fraction::ratio_div;
use crate::fraction::ratio_mul;
use crate::fraction::ratio_sub;

/// A column or row vector over an element type `T`.
#[derive(Clone, Debug, PartialEq)]
pub struct Vector<T> {
    pub content: Vec<T>,
    pub column_or_row: bool,
}

impl<T> Vector<T> {
    /// The orientation flag: `true` for a column vector, `false` for a row.
    pub open spec fn is_column(&self) -> bool {
        self.column_or_row
    }

    /// Builds a vector from its elements and an orientation flag
    /// (`true` for a column vector).
    pub fn new(content: Vec<T>, column_or_row: bool) -> (r: Self)
        ensures
            r.content == content,
            r.is_column() == column_or_row,
    {
        Vector { content, column_or_row }
    }

    /// Appends one element at the end.
    pub fn push(&mut self, value: T)
        ensures
            final(self).content@ == old(self).content@.push(value),
            final(self).is_column() == old(self).is_column(),
    {
        self.content.push(value);
    }

    /// Flips the orientation between column and row.
    pub fn transpose(&mut self)
        ensures
            final(self).content == old(self).content,
            final(self).is_column() == !old(self).is_column(),
    {
        self.column_or_row = !self.column_or_row;
    }
}

/// Every element is a canonical fraction.
pub open spec fn elements_wf(s: Seq<Fraction>) -> bool {
    forall|k: int| 0 <= k < s.len() ==> (#[trigger] s[k]).wf()
}

/// Elementwise sums stay within 128 bits.
pub open spec fn add_pairs_fit(s: Seq<Fraction>, t: Seq<Fraction>) -> bool {
    forall|k: int| 0 <= k < s.len() ==> add_fits((#[trigger] s[k])@, t[k]@)
}

/// Elementwise differences stay within 128 bits, and no subtrahend
/// numerator is the minimum value (whose negation does not exist).
pub open spec fn sub_pairs_fit(s: Seq<Fraction>, t: Seq<Fraction>) -> bool {
    forall|k: int|
        0 <= k < s.len() ==> (#[trigger] t[k]).numerator != i128::MIN && sub_fits(s[k]@, t[k]@)
}

/// Elementwise quotients are defined and stay within 128 bits.
pub open spec fn div_pairs_fit(s: Seq<Fraction>, t: Seq<Fraction>) -> bool {
    forall|k: int|
        0 <= k < s.len() ==> (#[trigger] t[k]).numerator != 0 && t[k].numerator != i128::MIN
            && div_fits(s[k]@, t[k]@)
}

/// The canonical value of the dot product over the first `k` element
/// pairs, accumulated left to right from zero.
pub open spec fn dot_prefix(s: Seq<Fraction>, t: Seq<Fraction>, k: nat) -> Ratio
    decreases k,
{
    if k == 0 {
        Ratio { n: 0, d: 1 }
    } else {
        ratio_add(dot_prefix(s, t, (k - 1) as nat), ratio_mul(s[k - 1]@, t[k - 1]@))
    }
}

/// Every intermediate product and running sum of the dot product stays
/// within 128 bits.
pub open spec fn dot_fits(s: Seq<Fraction>, t: Seq<Fraction>) -> bool {
    forall|k: int|
        0 <= k < s.len() ==> mul_fits((#[trigger] s[k])@, t[k]@) && add_fits(
            dot_prefix(s, t, k as nat),
            ratio_mul(s[k]@, t[k]@),
        )
}

/// A run of `k` space characters.
pub open spec fn spaces(k: nat) -> Seq<char>
    decreases k,
{
    if k == 0 {
        Seq::<char>::empty()
    } else {
        spaces((k - 1) as nat).push(' ')
    }
}

/// The widest rendering among the first `k` elements, and at least one.
pub open spec fn max_elem_width(s: Seq<Fraction>, k: nat) -> nat
    decreases k,
{
    if k == 0 {
        1
    } else {
        let prev = max_elem_width(s, (k - 1) as nat);
        let cur = display_str(s[k - 1]@).len();
        if cur > prev {
            cur
        } else {
            prev
        }
    }
}

/// One line of a column vector's rendering: a bracket piece, the element
/// padded to the common width, the closing bracket piece, and a line
/// break everywhere but on the last line.
pub open spec fn col_line(s: Seq<Fraction>, w: nat, i: int) -> Seq<char> {
    let e = display_str(s[i]@);
    let pad = spaces((w - e.len()) as nat);
    if i == 0 {
        seq!['⎡', ' '] + e + pad + seq![' ', '⎤', '\n']
    } else if i + 1 == s.len() {
        seq!['⎣', ' '] + e + pad + seq![' ', '⎦']
    } else {
        seq!['⎢', ' '] + e + pad + seq![' ', '⎥', '\n']
    }
}

/// The first `k` lines of a column vector's rendering.
pub open spec fn col_body(s: Seq<Fraction>, w: nat, k: nat) -> Seq<char>
    decreases k,
{
    if k == 0 {
        Seq::<char>::empty()
    } else {
        col_body(s, w, (k - 1) as nat) + col_line(s, w, k - 1)
    }
}

/// The first `k` elements of a row vector's rendering, each followed by
/// a space.
pub open spec fn row_body(s: Seq<Fraction>, k: nat) -> Seq<char>
    decreases k,
{
    if k == 0 {
        Seq::<char>::empty()
    } else {
        row_body(s, (k - 1) as nat) + display_str(s[k - 1]@) + seq![' ']
    }
}

/// How a vector renders: a padded block of bracket-drawn lines for a
/// column vector, a single bracketed line for a row vector.
pub open spec fn vector_display_str(s: Seq<Fraction>, column: bool) -> Seq<char> {
    if column {
        col_body(s, max_elem_width(s, s.len()), s.len())
    } else {
        seq!['[', ' '] + row_body(s, s.len()) + seq![']']
    }
}

/// No element renders wider than the common column width.
proof fn lemma_max_width_bound(s: Seq<Fraction>, k: nat, i: int)
    requires
        0 <= i < k,
    ensures
        display_str(s[i]@).len() <= max_elem_width(s, k),
    decreases k,
{
    if i < k - 1 {
        lemma_max_width_bound(s, (k - 1) as nat, i);
    }
}

/// Appends `count` spaces to `s`.
fn append_spaces(s: &mut String, count: usize)
    ensures
        final(s)@ == old(s)@ + spaces(count as nat),
{
    proof {
        assert(old(s)@ + spaces(0) =~= old(s)@);
    }
    let mut j: usize = 0;
    while j < count
        invariant
            j <= count,
            s@ == old(s)@ + spaces(j as nat),
        decreases count - j,
    {
        s.append(" ");
        j = j + 1;
        proof {
            reveal_strlit(" ");
            assert(s@ =~= old(s)@ + spaces(j as nat));
        }
    }
}

impl Vector<Fraction> {
    /// Renders the vector: a row vector as its elements between brackets
    /// on one line, a column vector as one bracket-drawn line per
    /// element, each padded to the width of the widest rendering.
    pub fn to_display_string(&self) -> (r: String)
        ensures
            r@ == vector_display_str(self.content@, self.is_column()),
    {
        let mut out = String::new();
        if self.column_or_row {
            let mut rendered: Vec<String> = Vec::new();
            let mut idx: usize = 0;
            while idx < self.content.len()
                invariant
                    idx <= self.content@.len(),
                    rendered@.len() == idx,
                    forall|k: int|
                        0 <= k < idx ==> (#[trigger] rendered@[k])@ == display_str(
                            self.content@[k]@,
                        ),
                decreases self.content@.len() - idx,
            {
                rendered.push(self.content[idx].to_display_string());
                idx = idx + 1;
            }
            let mut width: usize = 1;
            let mut j: usize = 0;
            while j < rendered.len()
                invariant
                    j <= rendered@.len(),
                    rendered@.len() == self.content@.len(),
                    forall|k: int|
                        0 <= k < rendered@.len() ==> (#[trigger] rendered@[k])@ == display_str(
                            self.content@[k]@,
                        ),
                    width as nat == max_elem_width(self.content@, j as nat),
                decreases rendered@.len() - j,
            {
                let l = rendered[j].as_str().unicode_len();
                if l > width {
                    width = l;
                }
                j = j + 1;
            }
            let ghost w = width as nat;
            let mut i: usize = 0;
            while i < rendered.len()
                invariant
                    i <= rendered@.len(),
                    rendered@.len() == self.content@.len(),
                    forall|k: int|
                        0 <= k < rendered@.len() ==> (#[trigger] rendered@[k])@ == display_str(
                            self.content@[k]@,
                        ),
                    w == width as nat,
                    w == max_elem_width(self.content@, self.content@.len()),
                    out@ == col_body(self.content@, w, i as nat),
                decreases rendered@.len() - i,
            {
                proof {
                    lemma_max_width_bound(self.content@, self.content@.len(), i as int);
                }
                let ghost line_start = out@;
                let last = i + 1 == rendered.len();
                if i == 0 {
                    out.append("⎡ ");
                } else if last {
                    out.append("⎣ ");
                } else {
                    out.append("⎢ ");
                }
                out.append(rendered[i].as_str());
                let shown = rendered[i].as_str().unicode_len();
                append_spaces(&mut out, width - shown);
                if i == 0 {
                    out.append(" ⎤\n");
                } else if last {
                    out.append(" ⎦");
                } else {
                    out.append(" ⎥\n");
                }
                proof {
                    reveal_strlit("⎡ ");
                    reveal_strlit("⎣ ");
                    reveal_strlit("⎢ ");
                    reveal_strlit(" ⎤\n");
                    reveal_strlit(" ⎦");
                    reveal_strlit(" ⎥\n");
                    assert(out@ =~= line_start + col_line(self.content@, w, i as int));
                    assert(out@ =~= col_body(self.content@, w, (i + 1) as nat));
                }
                i = i + 1;
            }
        } else {
            out.append("[ ");
            proof {
                reveal_strlit("[ ");
                assert(out@ =~= seq!['[', ' '] + row_body(self.content@, 0));
            }
            let mut i: usize = 0;
            while i < self.content.len()
                invariant
                    i <= self.content@.len(),
                    out@ == seq!['[', ' '] + row_body(self.content@, i as nat),
                decreases self.content@.len() - i,
            {
                let e = self.content[i].to_display_string();
                out.append(e.as_str());
                out.append(" ");
                proof {
                    reveal_strlit(" ");
                    assert(out@ =~= seq!['[', ' '] + row_body(self.content@, (i + 1) as nat));
                }
                i = i + 1;
            }
            out.append("]");
            proof {
                reveal_strlit("]");
                assert(out@ =~= seq!['[', ' '] + row_body(self.content@, self.content@.len())
                    + seq![']']);
            }
        }
        out
    }

    /// Elementwise sum of two vectors of the same length.
    pub fn add_vector(&self, other: &Vector<Fraction>) -> (r: Vector<Fraction>)
        requires
            self.content@.len() == other.content@.len(),
            elements_wf(self.content@),
            elements_wf(other.content@),
            add_pairs_fit(self.content@, other.content@),
        ensures
            r.is_column() == self.is_column(),
            r.content@.len() == self.content@.len(),
            forall|k: int|
                0 <= k < r.content@.len() ==> (#[trigger] r.content@[k])@ == ratio_add(
                    self.content@[k]@,
                    other.content@[k]@,
                ) && r.content@[k].wf(),
    {
        let mut content: Vec<Fraction> = Vec::new();
        let mut idx: usize = 0;
        while idx < self.content.len()
            invariant
                idx <= self.content@.len(),
                self.content@.len() == other.content@.len(),
                content@.len() == idx,
                elements_wf(self.content@),
                elements_wf(other.content@),
                add_pairs_fit(self.content@, other.content@),
                forall|k: int|
                    0 <= k < idx ==> (#[trigger] content@[k])@ == ratio_add(
                        self.content@[k]@,
                        other.content@[k]@,
                    ) && content@[k].wf(),
            decreases self.content@.len() - idx,
        {
            content.push(self.content[idx].add_number(other.content[idx]));
            idx = idx + 1;
        }
        Vector { content, column_or_row: self.column_or_row }
    }

    /// Elementwise difference of two vectors of the same length.
    pub fn sub_vector(&self, other: &Vector<Fraction>) -> (r: Vector<Fraction>)
        requires
            self.content@.len() == other.content@.len(),
            elements_wf(self.content@),
            elements_wf(other.content@),
            sub_pairs_fit(self.content@, other.content@),
        ensures
            r.is_column() == self.is_column(),
            r.content@.len() == self.content@.len(),
            forall|k: int|
                0 <= k < r.content@.len() ==> (#[trigger] r.content@[k])@ == ratio_sub(
                    self.content@[k]@,
                    other.content@[k]@,
                ) && r.content@[k].wf(),
    {
        let mut content: Vec<Fraction> = Vec::new();
        let mut idx: usize = 0;
        while idx < self.content.len()
            invariant
                idx <= self.content@.len(),
                self.content@.len() == other.content@.len(),
                content@.len() == idx,
                elements_wf(self.content@),
                elements_wf(other.content@),
                sub_pairs_fit(self.content@, other.content@),
                forall|k: int|
                    0 <= k < idx ==> (#[trigger] content@[k])@ == ratio_sub(
                        self.content@[k]@,
                        other.content@[k]@,
                    ) && content@[k].wf(),
            decreases self.content@.len() - idx,
        {
            content.push(self.content[idx].sub_number(other.content[idx]));
            idx = idx + 1;
        }
        Vector { content, column_or_row: self.column_or_row }
    }

    /// Dot product of a column vector with a row vector (or the other way
    /// round): the sum of the elementwise products, accumulated from zero.
    pub fn dot_product(&self, other: &Vector<Fraction>) -> (r: Fraction)
        requires
            self.content@.len() == other.content@.len(),
            self.is_column() != other.is_column(),
            elements_wf(self.content@),
            elements_wf(other.content@),
            dot_fits(self.content@, other.content@),
        ensures
            r@ == dot_prefix(self.content@, other.content@, self.content@.len()),
            r.wf(),
    {
        let mut result = Fraction::default();
        let mut idx: usize = 0;
        while idx < self.content.len()
            invariant
                idx <= self.content@.len(),
                self.content@.len() == other.content@.len(),
                elements_wf(self.content@),
                elements_wf(other.content@),
                dot_fits(self.content@, other.content@),
                result@ == dot_prefix(self.content@, other.content@, idx as nat),
                result.wf(),
            decreases self.content@.len() - idx,
        {
            let prod = self.content[idx].mul_number(other.content[idx]);
            result.add_assign(prod);
            idx = idx + 1;
        }
        result
    }

    /// Elementwise quotient of two vectors of the same length.
    pub fn div_vector(&self, other: &Vector<Fraction>) -> (r: Vector<Fraction>)
        requires
            self.content@.len() == other.content@.len(),
            elements_wf(self.content@),
            elements_wf(other.content@),
            div_pairs_fit(self.content@, other.content@),
        ensures
            r.is_column() == self.is_column(),
            r.content@.len() == self.content@.len(),
            forall|k: int|
                0 <= k < r.content@.len() ==> (#[trigger] r.content@[k])@ == ratio_div(
                    self.content@[k]@,
                    other.content@[k]@,
                ) && r.content@[k].wf(),
    {
        let mut content: Vec<Fraction> = Vec::new();
        let mut idx: usize = 0;
        while idx < self.content.len()
            invariant
                idx <= self.content@.len(),
                self.content@.len() == other.content@.len(),
                content@.len() == idx,
                elements_wf(self.content@),
                elements_wf(other.content@),
                div_pairs_fit(self.content@, other.content@),
                forall|k: int|
                    0 <= k < idx ==> (#[trigger] content@[k])@ == ratio_div(
                        self.content@[k]@,
                        other.content@[k]@,
                    ) && content@[k].wf(),
            decreases self.content@.len() - idx,
        {
            content.push(self.content[idx].div_number(other.content[idx]));
            idx = idx + 1;
        }
        Vector { content, column_or_row: self.column_or_row }
    }
}

} // verus!
