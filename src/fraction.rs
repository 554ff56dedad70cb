//! Exact rational numbers with a positive denominator.
use vstd::prelude::*;

verus! {

/// The exact rational number `num / den`; `den` is positive.
#[derive(Clone, Copy, Debug)]
pub struct Fraction {
    pub num: i128,
    pub den: i128,
}

/// A rational number in spec code: `(numerator, denominator)`.
pub type Ratio = (int, int);

/// `a <= b` for rationals with positive denominators.
pub open spec fn ratio_le(a: Ratio, b: Ratio) -> bool {
    a.0 * b.1 <= b.0 * a.1
}

/// `a == b` as rationals, whatever the representation.
pub open spec fn ratio_eq(a: Ratio, b: Ratio) -> bool {
    a.0 * b.1 == b.0 * a.1
}

/// `a - b`.
pub open spec fn ratio_sub(a: Ratio, b: Ratio) -> Ratio {
    (a.0 * b.1 - b.0 * a.1, a.1 * b.1)
}

/// `(a + b) / 2`.
pub open spec fn ratio_midpoint(a: Ratio, b: Ratio) -> Ratio {
    (a.0 * b.1 + b.0 * a.1, 2 * a.1 * b.1)
}

impl Fraction {
    /// The rational number this fraction stands for.
    pub open spec fn ratio(&self) -> Ratio {
        (self.num as int, self.den as int)
    }
}

/// If the minuend does not grow and the subtrahend does not shrink, the
/// difference does not grow.
pub proof fn lemma_ratio_sub_monotone(a1: Ratio, b1: Ratio, a2: Ratio, b2: Ratio)
    requires
        a1.1 > 0,
        b1.1 > 0,
        a2.1 > 0,
        b2.1 > 0,
        ratio_le(a2, a1),
        ratio_le(b1, b2),
    ensures
        ratio_le(ratio_sub(a2, b2), ratio_sub(a1, b1)),
{
    let p = b1.1 * b2.1;
    assert(p > 0) by (nonlinear_arith)
        requires
            b1.1 > 0,
            b2.1 > 0,
            p == b1.1 * b2.1,
    ;
    let q = a1.1 * a2.1;
    assert(q > 0) by (nonlinear_arith)
        requires
            a1.1 > 0,
            a2.1 > 0,
            q == a1.1 * a2.1,
    ;
    assert(a2.0 * a1.1 * p <= a1.0 * a2.1 * p) by (nonlinear_arith)
        requires
            a2.0 * a1.1 <= a1.0 * a2.1,
            p > 0,
    ;
    assert(b1.0 * b2.1 * q <= b2.0 * b1.1 * q) by (nonlinear_arith)
        requires
            b1.0 * b2.1 <= b2.0 * b1.1,
            q > 0,
    ;
    lemma_cross_expand(a2.0, b2.1, b2.0, a2.1, a1.1, b1.1);
    lemma_cross_expand(a1.0, b1.1, b1.0, a1.1, a2.1, b2.1);
    assert(a1.0 * a2.1 * (b2.1 * b1.1) == a1.0 * a2.1 * p) by {
        vstd::arithmetic::mul::lemma_mul_is_commutative(b2.1, b1.1);
    }
    assert(b1.0 * b2.1 * (a1.1 * a2.1) == b1.0 * b2.1 * q);
    assert(a2.0 * a1.1 * (b1.1 * b2.1) == a2.0 * a1.1 * p);
    assert(b2.0 * b1.1 * (a1.1 * a2.1) == b2.0 * b1.1 * q);
}

proof fn lemma_cross_expand(x: int, y: int, z: int, w: int, u: int, v: int)
    ensures
        (x * y - z * w) * (u * v) == x * u * (v * y) - z * v * (u * w),
{
    vstd::arithmetic::mul::lemma_mul_is_distributive_sub_other_way(u * v, x * y, z * w);
    assert(x * y * (u * v) == x * u * (v * y)) by (nonlinear_arith);
    assert(z * w * (u * v) == z * v * (u * w)) by (nonlinear_arith);
}

/// A product of two bounded integers is bounded by the product of the bounds.
pub proof fn lemma_abs_mul_le(x: int, y: int, bx: int, by_: int)
    requires
        -bx <= x <= bx,
        -by_ <= y <= by_,
    ensures
        -(bx * by_) <= x * y <= bx * by_,
{
    assert(-(bx * by_) <= x * y <= bx * by_) by (nonlinear_arith)
        requires
            -bx <= x <= bx,
            -by_ <= y <= by_,
    ;
}

} // verus!
