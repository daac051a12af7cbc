//! Shares between zero and one, kept as exact fractions.
use vstd::prelude::*;
use vstd::std_specs::cmp::PartialEqSpecImpl;

verus! {

/// A share as a mathematical value: `num` parts of `den`.
pub struct Fraction {
    pub num: nat,
    pub den: nat,
}

/// Whether `f` is a share between zero and one.
pub open spec fn is_share(f: Fraction) -> bool {
    0 < f.den && f.num <= f.den
}

/// Whether `a` is less than `b`, for fractions with denominators above zero.
pub open spec fn frac_less(a: Fraction, b: Fraction) -> bool {
    a.num * b.den < b.num * a.den
}

/// The larger of two fractions, and the first of two that are as large.
pub open spec fn frac_max(a: Fraction, b: Fraction) -> Fraction {
    if frac_less(a, b) {
        b
    } else {
        a
    }
}

/// Whether `f` is the whole: one.
pub open spec fn is_whole(f: Fraction) -> bool {
    f.den > 0 && f.num == f.den
}

/// The share that is zero.
pub open spec fn no_share() -> Fraction {
    Fraction { num: 0, den: 1 }
}

/// A line matches another where its weight is above 2/5.
pub const THRESHOLD_NUM: usize = 2;

/// The denominator of the threshold.
pub const THRESHOLD_DEN: usize = 5;

/// Whether `f` is above the threshold of 2/5.
pub open spec fn above_threshold(f: Fraction) -> bool {
    THRESHOLD_DEN * f.num > THRESHOLD_NUM * f.den
}

/// Whether two fractions with denominators above zero have the same value.
pub open spec fn frac_equal(a: Fraction, b: Fraction) -> bool {
    a.num * b.den == b.num * a.den
}

/// Nothing is no larger than any fraction.
pub proof fn lemma_frac_max_nothing(a: Fraction)
    ensures
        frac_max(a, no_share()) == a,
{
    assert(!(a.num * 1 < 0 * a.den)) by (nonlinear_arith);
}

/// The larger of two shares is a share.
pub proof fn lemma_frac_max_share(a: Fraction, b: Fraction)
    requires
        is_share(a),
        is_share(b),
    ensures
        is_share(frac_max(a, b)),
        !frac_less(frac_max(a, b), a),
        !frac_less(frac_max(a, b), b),
{
    if !frac_less(a, b) {
    } else {
        assert(!(b.num * a.den < a.num * b.den)) by (nonlinear_arith)
            requires
                a.num * b.den < b.num * a.den,
        ;
    }
}

/// Nothing is larger than the whole: the larger of the whole and a share is whole.
pub proof fn lemma_frac_max_whole(a: Fraction, b: Fraction)
    requires
        is_share(a),
        is_share(b),
        is_whole(a) || is_whole(b),
    ensures
        is_whole(frac_max(a, b)),
{
    if is_whole(a) {
        // a.num == a.den: a < b would need b.den < b.num.
        assert(!frac_less(a, b)) by (nonlinear_arith)
            requires
                a.num == a.den,
                0 < a.den,
                b.num <= b.den,
        ;
    } else {
        if !frac_less(a, b) {
            assert(a.num >= a.den) by (nonlinear_arith)
                requires
                    !(a.num * b.den < b.num * a.den),
                    b.num == b.den,
                    0 < b.den,
            ;
        }
    }
}

/// An order of fractions: what is not less than a second value, which is not
/// less than a third, is not less than the third.
pub proof fn lemma_frac_not_less_transitive(a: Fraction, b: Fraction, c: Fraction)
    requires
        0 < a.den,
        0 < b.den,
        0 < c.den,
        !frac_less(a, b),
        !frac_less(b, c),
    ensures
        !frac_less(a, c),
{
    // b/bd <= a/ad and c/cd <= b/bd, so c/cd <= a/ad.
    assert(c.num * a.den <= a.num * c.den) by (nonlinear_arith)
        requires
            0 < a.den,
            0 < b.den,
            0 < c.den,
            b.num * a.den <= a.num * b.den,
            c.num * b.den <= b.num * c.den,
    {
        assert(c.num * b.den * a.den <= b.num * c.den * a.den);
        assert(b.num * a.den * c.den <= a.num * b.den * c.den);
        assert((c.num * a.den) * b.den <= (a.num * c.den) * b.den);
    }
}

/// A share between zero and one: `num` parts of `den`. Two shares are equal
/// where they have the same value, as one half and two quarters have.
#[derive(Debug, Clone, Copy)]
pub struct Ratio {
    num: usize,
    den: usize,
}

impl PartialEq for Ratio {
    fn eq(&self, other: &Ratio) -> (same: bool) {
        widen_product(self.num, other.den) == widen_product(other.num, self.den)
    }
}

impl Eq for Ratio {

}

impl PartialEqSpecImpl for Ratio {
    open spec fn obeys_eq_spec() -> bool {
        true
    }

    open spec fn eq_spec(&self, other: &Ratio) -> bool {
        frac_equal(self@, other@)
    }
}

impl View for Ratio {
    type V = Fraction;

    closed spec fn view(&self) -> Fraction {
        Fraction { num: self.num as nat, den: self.den as nat }
    }
}

impl Ratio {
    /// What holds of every ratio: it is a share.
    #[verifier::type_invariant]
    pub closed spec fn wf(&self) -> bool {
        0 < self.den && self.num <= self.den
    }

    /// A well-formed ratio is a share.
    pub proof fn lemma_share(&self)
        requires
            self.wf(),
        ensures
            is_share(self@),
    {
    }

    /// `num` parts of `den`, where that is a share between zero and one.
    pub fn new(num: usize, den: usize) -> (ratio: Option<Ratio>)
        ensures
            ratio is Some <==> 0 < den && num <= den,
            ratio matches Some(r) ==> r@ == (Fraction { num: num as nat, den: den as nat }),
    {
        if 0 < den && num <= den {
            Some(Ratio { num, den })
        } else {
            None
        }
    }

    /// `num` parts of `den`.
    pub(crate) fn of(num: usize, den: usize) -> (ratio: Ratio)
        requires
            0 < den,
            num <= den,
        ensures
            ratio@ == (Fraction { num: num as nat, den: den as nat }),
    {
        Ratio { num, den }
    }

    /// No share at all.
    pub fn zero() -> (ratio: Ratio)
        ensures
            ratio@ == no_share(),
    {
        Ratio { num: 0, den: 1 }
    }

    /// The whole.
    pub fn one() -> (ratio: Ratio)
        ensures
            ratio@ == (Fraction { num: 1, den: 1 }),
    {
        Ratio { num: 1, den: 1 }
    }

    /// The number of parts.
    pub fn num(&self) -> (num: usize)
        ensures
            num == self@.num,
            is_share(self@),
    {
        proof {
            use_type_invariant(self);
        }
        self.num
    }

    /// The number of parts that make the whole.
    pub fn den(&self) -> (den: usize)
        ensures
            den == self@.den,
            is_share(self@),
    {
        proof {
            use_type_invariant(self);
        }
        self.den
    }

    /// Whether the share is less than `other`.
    pub fn less_than(&self, other: &Ratio) -> (less: bool)
        ensures
            less == frac_less(self@, other@),
    {
        let left: u128 = widen_product(self.num, other.den);
        let right: u128 = widen_product(other.num, self.den);
        left < right
    }

    /// The larger of the share and `other`.
    pub fn max(self, other: Ratio) -> (larger: Ratio)
        ensures
            larger@ == frac_max(self@, other@),
    {
        if self.less_than(&other) {
            other
        } else {
            self
        }
    }

    /// Whether the share is above the threshold of 2/5.
    pub fn is_match(&self) -> (above: bool)
        ensures
            above == above_threshold(self@),
    {
        widen_product(THRESHOLD_DEN, self.num) > widen_product(THRESHOLD_NUM, self.den)
    }

    /// Whether the share is the whole.
    pub fn is_one(&self) -> (whole: bool)
        ensures
            whole == is_whole(self@),
    {
        proof {
            use_type_invariant(self);
        }
        self.num == self.den
    }
}

/// The product of two numbers, which never leaves 128 bits.
fn widen_product(a: usize, b: usize) -> (product: u128)
    ensures
        product == a * b,
{
    assert(a * b <= u128::MAX) by (nonlinear_arith)
        requires
            a <= u64::MAX,
            b <= u64::MAX,
    ;
    a as u128 * b as u128
}

} // verus!
