//! Confidence of a match, as an exact fraction.

use vstd::prelude::*;

verus! {

/// How sure a match is: the fraction `numerator / denominator`, between 0 and 1.
///
/// The fraction is kept as it was computed, not reduced. Two confidences are
/// equal (`==`) when they are the same number: 9/10 equals 18/20.
#[derive(Clone, Copy, Debug)]
pub struct Confidence {
    pub numerator: u128,
    pub denominator: u128,
}

impl PartialEq for Confidence {
    /// Two confidences are equal when they are the same number.
    fn eq(&self, other: &Confidence) -> (equal: bool) {
        if self.denominator == 0 || other.denominator == 0 {
            self.numerator == other.numerator && self.denominator == other.denominator
        } else {
            same_ratio(self.numerator, self.denominator, other.numerator, other.denominator)
        }
    }
}

impl vstd::std_specs::cmp::PartialEqSpecImpl for Confidence {
    open spec fn obeys_eq_spec() -> bool {
        true
    }

    open spec fn eq_spec(&self, other: &Confidence) -> bool {
        self.same(*other)
    }
}

impl Eq for Confidence {

}

/// Whether `a / b` and `c / d` are the same number. The products `a * d` and
/// `c * b` may not fit in any machine integer: the fractions are compared by
/// their whole parts, and where these agree and something is left, by the
/// inverses of what is left, as in Euclid's algorithm.
fn same_ratio(a: u128, b: u128, c: u128, d: u128) -> (same: bool)
    requires
        b > 0,
        d > 0,
    ensures
        same == (a * d == c * b),
    decreases b,
{
    let q1 = a / b;
    let r1 = a % b;
    let q2 = c / d;
    let r2 = c % d;
    proof {
        lemma_ratio(a as int, b as int, c as int, d as int);
    }
    if q1 != q2 {
        false
    } else if r1 == 0 || r2 == 0 {
        assert(r1 == 0 && r2 == 0 ==> r1 * d == r2 * b) by (nonlinear_arith);
        r1 == 0 && r2 == 0
    } else {
        let same = same_ratio(b, r1, d, r2);
        assert((b * r2 == d * r1) <==> (r1 * d == r2 * b)) by (nonlinear_arith);
        same
    }
}

proof fn lemma_ratio(a: int, b: int, c: int, d: int)
    requires
        0 <= a,
        0 < b,
        0 <= c,
        0 < d,
    ensures
        a / b != c / d ==> a * d != c * b,
        a / b == c / d ==> ((a * d == c * b) <==> ((a % b) * d == (c % d) * b)),
        0 <= a % b < b,
        0 <= c % d < d,
        (a % b == 0 && c % d != 0) ==> (a % b) * d != (c % d) * b,
        (a % b != 0 && c % d == 0) ==> (a % b) * d != (c % d) * b,
{
    let q1 = a / b;
    let r1 = a % b;
    let q2 = c / d;
    let r2 = c % d;
    vstd::arithmetic::div_mod::lemma_fundamental_div_mod(a, b);
    vstd::arithmetic::div_mod::lemma_fundamental_div_mod(c, d);
    vstd::arithmetic::div_mod::lemma_mod_bound(a, b);
    vstd::arithmetic::div_mod::lemma_mod_bound(c, d);
    assert(a == b * q1 + r1);
    assert(c == d * q2 + r2);
    assert(a * d == q1 * (b * d) + r1 * d) by (nonlinear_arith)
        requires
            a == b * q1 + r1,
    ;
    assert(c * b == q2 * (b * d) + r2 * b) by (nonlinear_arith)
        requires
            c == d * q2 + r2,
    ;
    assert(0 <= r1 * d < b * d) by (nonlinear_arith)
        requires
            0 <= r1 < b,
            0 < d,
    ;
    assert(0 <= r2 * b < b * d) by (nonlinear_arith)
        requires
            0 <= r2 < d,
            0 < b,
    ;
    if q1 < q2 {
        assert(q1 * (b * d) + b * d <= q2 * (b * d)) by (nonlinear_arith)
            requires
                q1 < q2,
                0 < b * d,
        ;
    }
    if q2 < q1 {
        assert(q2 * (b * d) + b * d <= q1 * (b * d)) by (nonlinear_arith)
            requires
                q2 < q1,
                0 < b * d,
        ;
    }
    if r1 == 0 && r2 != 0 {
        assert(r2 * b > 0) by (nonlinear_arith)
            requires
                r2 > 0,
                b > 0,
        ;
    }
    if r1 != 0 && r2 == 0 {
        assert(r1 * d > 0) by (nonlinear_arith)
            requires
                r1 > 0,
                d > 0,
        ;
    }
}

impl Confidence {
    /// Whether two confidences are the same number. Fractions without a
    /// denominator are no numbers: they are the same only where they are
    /// alike.
    pub open spec fn same(self, other: Confidence) -> bool {
        if self.denominator == 0 || other.denominator == 0 {
            self.numerator == other.numerator && self.denominator == other.denominator
        } else {
            self.numerator * other.denominator == other.numerator * self.denominator
        }
    }

    /// A confidence is well formed when it stands for a number in `[0, 1]`.
    pub open spec fn wf(self) -> bool {
        0 < self.denominator && self.numerator <= self.denominator
    }

    /// `self > n / d`, for a positive `d`.
    pub open spec fn above(self, n: int, d: int) -> bool {
        self.numerator * d > n * self.denominator
    }

    /// `self <= n / d`, for a positive `d`.
    pub open spec fn at_most(self, n: int, d: int) -> bool {
        self.numerator * d <= n * self.denominator
    }

    /// `self == n / d`, for a positive `d`.
    pub open spec fn equals(self, n: int, d: int) -> bool {
        self.numerator * d == n * self.denominator
    }

    /// The confidence `numerator / denominator`, if that is a number in `[0, 1]`.
    pub fn new(numerator: u128, denominator: u128) -> (r: Option<Confidence>)
        ensures
            r is Some <==> 0 < denominator && numerator <= denominator,
            r is Some ==> r->0 == (Confidence { numerator, denominator }),
            r is Some ==> r->0.wf(),
    {
        if 0 < denominator && numerator <= denominator {
            Some(Confidence { numerator, denominator })
        } else {
            None
        }
    }
}

} // verus!
