//! Continuous zero-sum games on the unit square with the quadratic kernel
//! `H(x, y) = a x^2 + b y^2 + c x y + d x + e y`, and their exact
//! analytical solution.
use vstd::prelude::*;

use crate::fraction::{lemma_abs_mul_le, ratio_eq, Fraction};

verus! {

/// The largest magnitude of a numerator or denominator that `compute`,
/// `h_x` and `h_y` accept.
pub const MAX_POINT_PART: i128 = 16_777_216;

/// The largest magnitude of a numerator or denominator that the formulas
/// of `x` and `y` accept.
pub const MAX_FORMULA_PART: i128 = 0x1_0000_0000_0000_0000_0000_0000;

/// `T^2 * H(X / T, Y / T)` for the kernel with coefficients `k`.
pub open spec fn scaled_kernel(k: Seq<int>, x: int, y: int, t: int) -> int {
    k[0] * x * x + k[1] * y * y + k[2] * x * y + k[3] * x * t + k[4] * y * t
}

/// `T * dH/dx (X / T, Y / T)`.
pub open spec fn scaled_h_x(k: Seq<int>, x: int, y: int, t: int) -> int {
    2 * k[0] * x + k[2] * y + k[3] * t
}

/// `T * dH/dy (X / T, Y / T)`.
pub open spec fn scaled_h_y(k: Seq<int>, x: int, y: int, t: int) -> int {
    2 * k[1] * y + k[2] * x + k[4] * t
}

/// `x` as a function of `y` at a stationary point: `x = (-c y - d) / (2 a)`.
#[derive(Clone, Copy, Debug, PartialEq, Eq, Hash, Structural)]
pub struct XFormula {
    pub a: i16,
    pub c: i16,
    pub d: i16,
}

/// `y` as a function of `x` at a stationary point: `y = (-c x - e) / (2 b)`.
#[derive(Clone, Copy, Debug, PartialEq, Eq, Hash, Structural)]
pub struct YFormula {
    pub b: i16,
    pub c: i16,
    pub e: i16,
}

/// A fraction whose parts fit the bound `m`.
pub open spec fn fits(f: Fraction, m: int) -> bool {
    0 < f.den <= m && -m <= f.num <= m
}

/// Turns `num / den` with a non-zero denominator into a fraction with a
/// positive one.
fn normalized(num: i128, den: i128) -> (r: Fraction)
    requires
        den != 0,
        num > i128::MIN,
        den > i128::MIN,
    ensures
        r.den > 0,
        ratio_eq(r.ratio(), (num as int, den as int)),
{
    if den < 0 {
        proof {
            assert((-num) * den == num * (-den)) by (nonlinear_arith);
        }
        Fraction { num: -num, den: -den }
    } else {
        Fraction { num, den }
    }
}

impl XFormula {
    /// The value of `x` for the given `y`.
    pub fn compute(&self, y: Fraction) -> (r: Fraction)
        requires
            self.a != 0,
            fits(y, MAX_FORMULA_PART as int),
        ensures
            r.den > 0,
            ratio_eq(
                r.ratio(),
                (-self.c * y.num - self.d * y.den, 2 * self.a * y.den),
            ),
    {
        proof {
            lemma_abs_mul_le(self.c as int, y.num as int, 32768, MAX_FORMULA_PART as int);
            lemma_abs_mul_le(self.d as int, y.den as int, 32768, MAX_FORMULA_PART as int);
            lemma_abs_mul_le(2 * self.a, y.den as int, 65536, MAX_FORMULA_PART as int);
            assert(2 * self.a * y.den != 0) by (nonlinear_arith)
                requires
                    self.a != 0,
                    y.den > 0,
            ;
        }
        let cv = self.c as i128 * y.num;
        let wv = self.d as i128 * y.den;
        let den = 2 * self.a as i128 * y.den;
        proof {
            assert(-cv - wv == -self.c * y.num - self.d * y.den) by (nonlinear_arith)
                requires
                    cv == self.c * y.num,
                    wv == self.d * y.den,
            ;
        }
        normalized(-cv - wv, den)
    }
}

impl YFormula {
    /// The value of `y` for the given `x`.
    pub fn compute(&self, x: Fraction) -> (r: Fraction)
        requires
            self.b != 0,
            fits(x, MAX_FORMULA_PART as int),
        ensures
            r.den > 0,
            ratio_eq(
                r.ratio(),
                (-self.c * x.num - self.e * x.den, 2 * self.b * x.den),
            ),
    {
        proof {
            lemma_abs_mul_le(self.c as int, x.num as int, 32768, MAX_FORMULA_PART as int);
            lemma_abs_mul_le(self.e as int, x.den as int, 32768, MAX_FORMULA_PART as int);
            lemma_abs_mul_le(2 * self.b, x.den as int, 65536, MAX_FORMULA_PART as int);
            assert(2 * self.b * x.den != 0) by (nonlinear_arith)
                requires
                    self.b != 0,
                    x.den > 0,
            ;
        }
        let cv = self.c as i128 * x.num;
        let wv = self.e as i128 * x.den;
        let den = 2 * self.b as i128 * x.den;
        proof {
            assert(-cv - wv == -self.c * x.num - self.e * x.den) by (nonlinear_arith)
                requires
                    cv == self.c * x.num,
                    wv == self.e * x.den,
            ;
        }
        normalized(-cv - wv, den)
    }
}

/// A solution `(x, y)` of the game with its value `h = H(x, y)`.
#[derive(Clone, Copy, Debug)]
pub struct GameSolution {
    pub x: Fraction,
    pub y: Fraction,
    pub h: Fraction,
}

/// A zero-sum game on the unit square with the kernel
/// `H(x, y) = a x^2 + b y^2 + c x y + d x + e y`, given by `[a, b, c, d, e]`.
#[derive(Clone, Copy, Debug)]
pub struct ContinuousConvexConcaveGame {
    pub coefficients: [i16; 5],
}

impl ContinuousConvexConcaveGame {
    /// The coefficients `[a, b, c, d, e]` as integers.
    pub open spec fn k(&self) -> Seq<int> {
        self.coefficients@.map_values(|v: i16| v as int)
    }

    /// The game with the kernel's coefficients `[a, b, c, d, e]`.
    pub fn new(coefficients: [i16; 5]) -> (r: ContinuousConvexConcaveGame)
        ensures
            r.coefficients@ == coefficients@,
    {
        ContinuousConvexConcaveGame { coefficients }
    }

    /// The kernel's value `H(x, y)`.
    pub fn compute(&self, x: Fraction, y: Fraction) -> (r: Fraction)
        requires
            fits(x, MAX_POINT_PART as int),
            fits(y, MAX_POINT_PART as int),
        ensures
            r.ratio() == ({
                let t = x.den * y.den;
                (scaled_kernel(self.k(), x.num * y.den, y.num * x.den, t), t * t)
            }),
    {
        proof {
            lemma_abs_mul_le(x.num as int, y.den as int, MAX_POINT_PART as int, MAX_POINT_PART as int);
            lemma_abs_mul_le(y.num as int, x.den as int, MAX_POINT_PART as int, MAX_POINT_PART as int);
            lemma_abs_mul_le(x.den as int, y.den as int, MAX_POINT_PART as int, MAX_POINT_PART as int);
        }
        let bx = x.num * y.den;
        let by = y.num * x.den;
        let t = x.den * y.den;
        let m = MAX_POINT_PART * MAX_POINT_PART;
        self.scaled_value(bx, by, t, m)
    }

    /// `T^2 * H(X / T, Y / T)` for `|X|, |Y|, |T| <= m <= 2^49`.
    pub(crate) fn scaled_value(&self, x: i128, y: i128, t: i128, m: i128) -> (r: Fraction)
        requires
            0 <= m <= 0x2_0000_0000_0000,
            -m <= x <= m,
            -m <= y <= m,
            -m <= t <= m,
        ensures
            r.ratio() == (scaled_kernel(self.k(), x as int, y as int, t as int), t * t),
    {
        let ghost k = self.k();
        let a = self.coefficients[0] as i128;
        let b = self.coefficients[1] as i128;
        let c = self.coefficients[2] as i128;
        let d = self.coefficients[3] as i128;
        let e = self.coefficients[4] as i128;
        let mm = 0x4_0000_0000_0000_0000_0000_0000i128;
        proof {
            assert(k[0] == a && k[1] == b && k[2] == c && k[3] == d && k[4] == e);
            lemma_abs_mul_le(x as int, x as int, m as int, m as int);
            lemma_abs_mul_le(y as int, y as int, m as int, m as int);
            lemma_abs_mul_le(x as int, y as int, m as int, m as int);
            lemma_abs_mul_le(x as int, t as int, m as int, m as int);
            lemma_abs_mul_le(y as int, t as int, m as int, m as int);
            lemma_abs_mul_le(t as int, t as int, m as int, m as int);
            lemma_abs_mul_le(m as int, m as int, 0x2_0000_0000_0000, 0x2_0000_0000_0000);
            lemma_abs_mul_le(a as int, x * x, 32768, mm as int);
            lemma_abs_mul_le(b as int, y * y, 32768, mm as int);
            lemma_abs_mul_le(c as int, x * y, 32768, mm as int);
            lemma_abs_mul_le(d as int, x * t, 32768, mm as int);
            lemma_abs_mul_le(e as int, y * t, 32768, mm as int);
            assert(a * x * x == a * (x * x)) by (nonlinear_arith);
            assert(b * y * y == b * (y * y)) by (nonlinear_arith);
            assert(c * x * y == c * (x * y)) by (nonlinear_arith);
            assert(d * x * t == d * (x * t)) by (nonlinear_arith);
            assert(e * y * t == e * (y * t)) by (nonlinear_arith);
        }
        let num = a * (x * x) + b * (y * y) + c * (x * y) + d * (x * t) + e * (y * t);
        Fraction { num, den: t * t }
    }

    /// The second partial derivative by `x`: `2 a`.
    pub fn h_xx(&self) -> (r: i32)
        ensures
            r == 2 * self.k()[0],
    {
        let a = self.coefficients[0] as i32;
        a + a
    }

    /// The second partial derivative by `y`: `2 b`.
    pub fn h_yy(&self) -> (r: i32)
        ensures
            r == 2 * self.k()[1],
    {
        let b = self.coefficients[1] as i32;
        b + b
    }

    /// The partial derivative by `x` at `(x, y)`: `2 a x + c y + d`.
    pub fn h_x(&self, x: Fraction, y: Fraction) -> (r: Fraction)
        requires
            fits(x, MAX_POINT_PART as int),
            fits(y, MAX_POINT_PART as int),
        ensures
            r.ratio() == ({
                let t = x.den * y.den;
                (scaled_h_x(self.k(), x.num * y.den, y.num * x.den, t), t)
            }),
    {
        let ghost k = self.k();
        proof {
            let m = MAX_POINT_PART as int;
            lemma_abs_mul_le(x.num as int, y.den as int, m, m);
            lemma_abs_mul_le(y.num as int, x.den as int, m, m);
            lemma_abs_mul_le(x.den as int, y.den as int, m, m);
        }
        let bx = x.num * y.den;
        let by = y.num * x.den;
        let t = x.den * y.den;
        let a = self.coefficients[0] as i128;
        let c = self.coefficients[2] as i128;
        let d = self.coefficients[3] as i128;
        proof {
            let m = MAX_POINT_PART as int;
            lemma_abs_mul_le(2 * a, bx as int, 65536, m * m);
            lemma_abs_mul_le(c as int, by as int, 32768, m * m);
            lemma_abs_mul_le(d as int, t as int, 32768, m * m);
            assert(k[0] == a && k[2] == c && k[3] == d);
        }
        Fraction { num: 2 * a * bx + c * by + d * t, den: t }
    }

    /// The partial derivative by `y` at `(x, y)`: `2 b y + c x + e`.
    pub fn h_y(&self, x: Fraction, y: Fraction) -> (r: Fraction)
        requires
            fits(x, MAX_POINT_PART as int),
            fits(y, MAX_POINT_PART as int),
        ensures
            r.ratio() == ({
                let t = x.den * y.den;
                (scaled_h_y(self.k(), x.num * y.den, y.num * x.den, t), t)
            }),
    {
        let ghost k = self.k();
        proof {
            let m = MAX_POINT_PART as int;
            lemma_abs_mul_le(x.num as int, y.den as int, m, m);
            lemma_abs_mul_le(y.num as int, x.den as int, m, m);
            lemma_abs_mul_le(x.den as int, y.den as int, m, m);
        }
        let bx = x.num * y.den;
        let by = y.num * x.den;
        let t = x.den * y.den;
        let b = self.coefficients[1] as i128;
        let c = self.coefficients[2] as i128;
        let e = self.coefficients[4] as i128;
        proof {
            let m = MAX_POINT_PART as int;
            lemma_abs_mul_le(2 * b, by as int, 65536, m * m);
            lemma_abs_mul_le(c as int, bx as int, 32768, m * m);
            lemma_abs_mul_le(e as int, t as int, 32768, m * m);
            assert(k[1] == b && k[2] == c && k[4] == e);
        }
        Fraction { num: 2 * b * by + c * bx + e * t, den: t }
    }

    /// The formulas of `x` via `y` and of `y` via `x` at a stationary point.
    pub fn x_y_formulas(&self) -> (r: (XFormula, YFormula))
        ensures
            r.0.a == self.coefficients@[0],
            r.0.c == self.coefficients@[2],
            r.0.d == self.coefficients@[3],
            r.1.b == self.coefficients@[1],
            r.1.c == self.coefficients@[2],
            r.1.e == self.coefficients@[4],
    {
        let k = &self.coefficients;
        (XFormula { a: k[0], c: k[2], d: k[3] }, YFormula { b: k[1], c: k[2], e: k[4] })
    }

    /// The saddle point of the game, from the stationary point of the
    /// kernel: both partial derivatives vanish at `(x, y)` (which share one
    /// denominator), and `h = H(x, y)`. The kernel must be concave in `x`
    /// (`a < 0`) and convex in `y` (`b > 0`), which makes the point unique.
    pub fn solve_analytically(&self) -> (r: GameSolution)
        requires
            self.k()[0] < 0,
            self.k()[1] > 0,
        ensures
            r.x.den > 0,
            r.x.den == r.y.den,
            scaled_h_x(self.k(), r.x.num as int, r.y.num as int, r.x.den as int) == 0,
            scaled_h_y(self.k(), r.x.num as int, r.y.num as int, r.x.den as int) == 0,
            r.h.ratio() == (
                scaled_kernel(self.k(), r.x.num as int, r.y.num as int, r.x.den as int),
                r.x.den * r.x.den,
            ),
    {
        let ghost k = self.k();
        let a = self.coefficients[0] as i128;
        let b = self.coefficients[1] as i128;
        let c = self.coefficients[2] as i128;
        let d = self.coefficients[3] as i128;
        let e = self.coefficients[4] as i128;
        proof {
            assert(k[0] == a && k[1] == b && k[2] == c && k[3] == d && k[4] == e);
            lemma_abs_mul_le(c as int, e as int, 32768, 32768);
            lemma_abs_mul_le(b as int, d as int, 32768, 32768);
            lemma_abs_mul_le(a as int, b as int, 32768, 32768);
            lemma_abs_mul_le(c as int, c as int, 32768, 32768);
            assert(a * b < 0) by (nonlinear_arith)
                requires
                    a < 0,
                    b > 0,
            ;
        }
        // The system is
        //   2a x + c y + d = 0
        //   c x + 2b y + e = 0
        // with determinant q = 4ab - c^2 < 0, so
        //   x = (ce - 2bd) / q, y = (-c x - e) / (2b).
        let ce = c * e;
        let bd = b * d;
        let ab = a * b;
        let cc = c * c;
        let p = ce - 2 * bd;
        let q = 4 * ab - cc;
        proof {
            lemma_abs_mul_le(b as int, p as int, 32768, 0x1_0000_0000);
            lemma_abs_mul_le(c as int, p as int, 32768, 0x1_0000_0000);
            lemma_abs_mul_le(e as int, q as int, 32768, 0x2_0000_0000);
            lemma_abs_mul_le(b as int, q as int, 32768, 0x2_0000_0000);
            assert(c * c >= 0) by (nonlinear_arith);
            assert(b * q < 0) by (nonlinear_arith)
                requires
                    b > 0,
                    q < 0,
            ;
        }
        let bp = b * p;
        let cp = c * p;
        let eq = e * q;
        let bq = b * q;
        let x = -(2 * bp);
        let y = cp + eq;
        let t = -(2 * bq);
        proof {
            assert(2 * a * x == -((4 * ab) * p)) by (nonlinear_arith)
                requires
                    x == -(2 * bp),
                    bp == b * p,
                    ab == a * b,
            ;
            assert(c * y == cc * p + ce * q) by (nonlinear_arith)
                requires
                    y == cp + eq,
                    cp == c * p,
                    eq == e * q,
                    cc == c * c,
                    ce == c * e,
            ;
            assert(d * t == -((2 * bd) * q)) by (nonlinear_arith)
                requires
                    t == -(2 * bq),
                    bq == b * q,
                    bd == b * d,
            ;
            assert(-((4 * ab) * p) + cc * p == -(q * p)) by (nonlinear_arith)
                requires
                    q == 4 * ab - cc,
            ;
            assert(ce * q - (2 * bd) * q == p * q) by (nonlinear_arith)
                requires
                    p == ce - 2 * bd,
            ;
            assert(q * p == p * q) by (nonlinear_arith);
            assert(scaled_h_x(k, x as int, y as int, t as int) == 0);
            assert(2 * b * y == 2 * b * cp + 2 * b * eq) by (nonlinear_arith)
                requires
                    y == cp + eq,
            ;
            assert(c * x == -(2 * b * cp)) by (nonlinear_arith)
                requires
                    x == -(2 * bp),
                    bp == b * p,
                    cp == c * p,
            ;
            assert(e * t == -(2 * b * eq)) by (nonlinear_arith)
                requires
                    t == -(2 * bq),
                    bq == b * q,
                    eq == e * q,
            ;
            assert(scaled_h_y(k, x as int, y as int, t as int) == 0);
        }
        let h = self.scaled_value(x, y, t, 0x2_0000_0000_0000);
        GameSolution {
            x: Fraction { num: x, den: t },
            y: Fraction { num: y, den: t },
            h,
        }
    }
}

} // verus!
