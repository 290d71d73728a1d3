//! Exact rational arithmetic, the scalar type of the solver.
//!
//! A `Ratio` is a numerator over a positive denominator.  Results are kept
//! reduced so that the components stay small in practice; an operation whose
//! reduced result does not fit the fixed-width components returns `None`.

use vstd::prelude::*;
use vstd::arithmetic::div_mod::{lemma_fundamental_div_mod, lemma_div_multiples_vanish};

verus! {

/// An exact rational number with a positive denominator.
#[derive(Clone, Copy, Debug)]
pub struct Ratio {
    pub num: i64,
    pub den: i64,
}

/// Well-formed: the denominator is positive.
pub open spec fn ratio_wf(r: Ratio) -> bool {
    r.den > 0
}

/// `r` denotes the rational `n / d` (by cross multiplication; callers use it
/// with `d != 0`).
pub open spec fn denotes(r: Ratio, n: int, d: int) -> bool {
    r.num * d == n * r.den
}

/// `a` and `b` denote the same rational.
#[verifier::opaque]
pub open spec fn eq_val(a: Ratio, b: Ratio) -> bool {
    a.num * b.den == b.num * a.den
}

/// `a <= b` as rationals (meaningful when both denominators are positive).
pub open spec fn le_val(a: Ratio, b: Ratio) -> bool {
    a.num * b.den <= b.num * a.den
}

/// `a < b` as rationals (meaningful when both denominators are positive).
pub open spec fn lt_val(a: Ratio, b: Ratio) -> bool {
    a.num * b.den < b.num * a.den
}

/// `r == a + b` as rationals.
pub open spec fn sum_val(r: Ratio, a: Ratio, b: Ratio) -> bool {
    denotes(r, a.num * b.den + b.num * a.den, a.den * b.den)
}

/// `r == a - b` as rationals.
pub open spec fn diff_val(r: Ratio, a: Ratio, b: Ratio) -> bool {
    denotes(r, a.num * b.den - b.num * a.den, a.den * b.den)
}

/// `r == a * b` as rationals.
pub open spec fn product_val(r: Ratio, a: Ratio, b: Ratio) -> bool {
    denotes(r, a.num * b.num, a.den * b.den)
}

/// `r == a / b` as rationals (meaningful when `b` is nonzero).
pub open spec fn quot_val(r: Ratio, a: Ratio, b: Ratio) -> bool {
    denotes(r, a.num * b.den, a.den * b.num)
}

/// `r == -a` as rationals.
pub open spec fn neg_val(r: Ratio, a: Ratio) -> bool {
    denotes(r, -a.num, a.den as int)
}

/// `d` divides `n`.
pub open spec fn divides(d: int, n: int) -> bool {
    exists|k: int| n == #[trigger] (d * k)
}

/// Greatest-common-divisor helper used to keep ratios reduced.  Only the
/// facts the callers need are stated: the result is positive and divides
/// both arguments.
fn gcd(a: u128, b: u128) -> (g: u128)
    requires
        a > 0,
    ensures
        g > 0,
        divides(g as int, a as int),
        divides(g as int, b as int),
    decreases b,
{
    if b == 0 {
        proof {
            assert(a as int == (a as int) * 1);
            assert(b as int == (a as int) * 0);
        }
        a
    } else {
        let g = gcd(b, a % b);
        proof {
            let kb = choose|k: int| b as int == #[trigger] ((g as int) * k);
            let kr = choose|k: int| (a % b) as int == #[trigger] ((g as int) * k);
            lemma_fundamental_div_mod(a as int, b as int);
            let q = (a as int) / (b as int);
            assert(a as int == (g as int) * (kb * q + kr)) by (nonlinear_arith)
                requires
                    a as int == (b as int) * q + (a % b) as int,
                    b as int == (g as int) * kb,
                    (a % b) as int == (g as int) * kr,
            ;
        }
        g
    }
}

/// Reduces `n / d` and packs it into a `Ratio` if the reduced components fit.
#[verifier::rlimit(60)]
fn reduce(n: i128, d: i128) -> (r: Option<Ratio>)
    requires
        d > 0,
        n > i128::MIN,
    ensures
        r matches Some(c) ==> ratio_wf(c) && denotes(c, n as int, d as int),
        -0x7fff_ffff_ffff_ffff <= n <= 0x7fff_ffff_ffff_ffff && d <= 0x7fff_ffff_ffff_ffff
            ==> r is Some,
        d == 1 && (r matches Some(c)) ==> r->Some_0.den == 1,
{
    if n == 0 {
        return Some(Ratio { num: 0, den: 1 });
    }
    let neg: bool = n < 0;
    let mag: u128 = if neg { (-n) as u128 } else { n as u128 };
    let g = gcd(mag, d as u128);
    let m2: u128 = mag / g;
    let d2: u128 = (d as u128) / g;
    proof {
        let km = choose|k: int| mag as int == #[trigger] ((g as int) * k);
        let kd = choose|k: int| d as int == #[trigger] ((g as int) * k);
        lemma_div_multiples_vanish(km, g as int);
        lemma_div_multiples_vanish(kd, g as int);
        assert(kd > 0) by (nonlinear_arith)
            requires
                d as int == (g as int) * kd,
                d > 0,
                g > 0,
        ;
        assert(km >= 0) by (nonlinear_arith)
            requires
                mag as int == (g as int) * km,
                mag > 0,
                g > 0,
        ;
        assert(km * (d as int) == (mag as int) * kd) by (nonlinear_arith)
            requires
                mag as int == (g as int) * km,
                d as int == (g as int) * kd,
        ;
        assert((-km) * (d as int) == (-(mag as int)) * kd) by (nonlinear_arith)
            requires
                km * (d as int) == (mag as int) * kd,
        ;
        assert(km <= mag as int) by (nonlinear_arith)
            requires
                mag as int == (g as int) * km,
                g >= 1,
                km >= 0,
        ;
        assert(kd <= d as int) by (nonlinear_arith)
            requires
                d as int == (g as int) * kd,
                g >= 1,
                kd >= 0,
        ;
        assert(m2 as int == km);
        assert(d2 as int == kd);
        if d == 1 {
            assert(g as int == 1) by (nonlinear_arith)
                requires
                    1 == (g as int) * kd,
                    g > 0,
                    kd > 0,
            ;
            assert(kd == 1);
        }
    }
    if m2 > i64::MAX as u128 || d2 > i64::MAX as u128 {
        return None;
    }
    let mnum: i64 = m2 as i64;
    let den: i64 = d2 as i64;
    let num: i64 = if neg { -mnum } else { mnum };
    proof {
        if neg {
            assert(mag as int == -(n as int));
            assert(num * (d as int) == (n as int) * den);
        } else {
            assert(mag as int == n as int);
            assert(num * (d as int) == (n as int) * den);
        }
    }
    Some(Ratio { num, den })
}

impl Ratio {
    /// Builds the ratio `num / den`; `None` when `den` is zero or the
    /// reduced components do not fit.
    pub fn new(num: i64, den: i64) -> (r: Option<Ratio>)
        ensures
            r matches Some(c) ==> ratio_wf(c) && den != 0 && denotes(c, num as int, den as int),
            den == 0 ==> r is None,
            num > i64::MIN && den > i64::MIN && den != 0 ==> r is Some,
    {
        if den == 0 {
            return None;
        }
        let mut n: i128 = num as i128;
        let mut d: i128 = den as i128;
        if d < 0 {
            n = -n;
            d = -d;
        }
        let r = reduce(n, d);
        proof {
            if r is Some {
                let c = r->Some_0;
                assert(c.num * (den as int) == (num as int) * c.den) by (nonlinear_arith)
                    requires
                        c.num * (d as int) == (n as int) * c.den,
                        (n as int == num as int && d as int == den as int)
                            || (n as int == -(num as int) && d as int == -(den as int)),
                ;
            }
        }
        r
    }

    /// The ratio `i / 1`.
    pub fn from_int(i: i64) -> (r: Ratio)
        ensures
            ratio_wf(r),
            r.num == i,
            r.den == 1,
    {
        Ratio { num: i, den: 1 }
    }

    /// The ratio `0`.
    pub fn zero() -> (r: Ratio)
        ensures
            ratio_wf(r),
            r.num == 0,
            r.den == 1,
    {
        Ratio { num: 0, den: 1 }
    }

    /// The ratio `1`.
    pub fn one() -> (r: Ratio)
        ensures
            ratio_wf(r),
            r.num == 1,
            r.den == 1,
    {
        Ratio { num: 1, den: 1 }
    }

    /// Exact addition.
    pub fn add(self, other: Ratio) -> (r: Option<Ratio>)
        requires
            ratio_wf(self),
            ratio_wf(other),
        ensures
            r matches Some(c) ==> ratio_wf(c) && sum_val(c, self, other),
            self.den == 1 && other.den == 1
                && -0x7fff_ffff_ffff_ffff <= self.num + other.num <= 0x7fff_ffff_ffff_ffff
                ==> r is Some,
            self.den == 1 && other.den == 1 && (r matches Some(c)) ==> r->Some_0.den == 1,
    {
        let a1: i128 = self.num as i128;
        let d1: i128 = self.den as i128;
        let a2: i128 = other.num as i128;
        let d2: i128 = other.den as i128;
        proof {
            lemma_prod_in_range(a1 as int, d2 as int);
            lemma_prod_in_range(a2 as int, d1 as int);
            lemma_prod_in_range(d1 as int, d2 as int);
            lemma_den_prod_pos(d1 as int, d2 as int);
        }
        let n: i128 = a1 * d2 + a2 * d1;
        let d: i128 = d1 * d2;
        proof {
            if self.den == 1 && other.den == 1 {
                assert(a1 * d2 == a1 && a2 * d1 == a2 && d1 * d2 == 1) by (nonlinear_arith)
                    requires
                        d1 == 1,
                        d2 == 1,
                ;
            }
        }
        reduce(n, d)
    }

    /// Exact subtraction.
    pub fn sub(self, other: Ratio) -> (r: Option<Ratio>)
        requires
            ratio_wf(self),
            ratio_wf(other),
        ensures
            r matches Some(c) ==> ratio_wf(c) && diff_val(c, self, other),
            self.den == 1 && other.den == 1
                && -0x7fff_ffff_ffff_ffff <= self.num - other.num <= 0x7fff_ffff_ffff_ffff
                ==> r is Some,
            self.den == 1 && other.den == 1 && (r matches Some(c)) ==> r->Some_0.den == 1,
    {
        let a1: i128 = self.num as i128;
        let d1: i128 = self.den as i128;
        let a2: i128 = other.num as i128;
        let d2: i128 = other.den as i128;
        proof {
            lemma_prod_in_range(a1 as int, d2 as int);
            lemma_prod_in_range(a2 as int, d1 as int);
            lemma_prod_in_range(d1 as int, d2 as int);
            lemma_den_prod_pos(d1 as int, d2 as int);
        }
        let n: i128 = a1 * d2 - a2 * d1;
        let d: i128 = d1 * d2;
        proof {
            if self.den == 1 && other.den == 1 {
                assert(a1 * d2 == a1 && a2 * d1 == a2 && d1 * d2 == 1) by (nonlinear_arith)
                    requires
                        d1 == 1,
                        d2 == 1,
                ;
            }
        }
        reduce(n, d)
    }

    /// Exact multiplication.
    pub fn mul(self, other: Ratio) -> (r: Option<Ratio>)
        requires
            ratio_wf(self),
            ratio_wf(other),
        ensures
            r matches Some(c) ==> ratio_wf(c) && product_val(c, self, other),
            self.den == 1 && other.den == 1
                && -0x7fff_ffff_ffff_ffff <= self.num * other.num <= 0x7fff_ffff_ffff_ffff
                ==> r is Some,
            self.den == 1 && other.den == 1 && (r matches Some(c)) ==> r->Some_0.den == 1,
    {
        let a1: i128 = self.num as i128;
        let d1: i128 = self.den as i128;
        let a2: i128 = other.num as i128;
        let d2: i128 = other.den as i128;
        proof {
            lemma_prod_in_range(a1 as int, a2 as int);
            lemma_prod_in_range(d1 as int, d2 as int);
            lemma_den_prod_pos(d1 as int, d2 as int);
        }
        let n: i128 = a1 * a2;
        let d: i128 = d1 * d2;
        proof {
            if self.den == 1 && other.den == 1 {
                assert(d1 * d2 == 1) by (nonlinear_arith)
                    requires
                        d1 == 1,
                        d2 == 1,
                ;
            }
        }
        reduce(n, d)
    }

    /// Exact division; `None` when `other` is zero or on component overflow.
    pub fn div(self, other: Ratio) -> (r: Option<Ratio>)
        requires
            ratio_wf(self),
            ratio_wf(other),
        ensures
            r matches Some(c) ==> ratio_wf(c) && quot_val(c, self, other),
            other.num == 0 ==> r is None,
            self.den == 1 && other.den == 1 && other.num != 0
                && self.num > i64::MIN && other.num > i64::MIN
                ==> r is Some,
            self.den == 1 && other.den == 1 && (other.num == 1 || other.num == -1)
                && (r matches Some(c)) ==> r->Some_0.den == 1,
    {
        if other.num == 0 {
            return None;
        }
        let a1: i128 = self.num as i128;
        let d1: i128 = self.den as i128;
        let a2: i128 = other.num as i128;
        let d2: i128 = other.den as i128;
        proof {
            lemma_prod_in_range(a1 as int, d2 as int);
            lemma_prod_in_range(d1 as int, a2 as int);
            assert(d1 * a2 != 0) by (nonlinear_arith)
                requires
                    d1 > 0,
                    a2 != 0,
            ;
        }
        let mut n: i128 = a1 * d2;
        let mut d: i128 = d1 * a2;
        proof {
            if self.den == 1 && other.den == 1 {
                assert(a1 * d2 == a1 && d1 * a2 == a2) by (nonlinear_arith)
                    requires
                        d1 == 1,
                        d2 == 1,
                ;
            }
        }
        if d < 0 {
            n = -n;
            d = -d;
        }
        let r = reduce(n, d);
        proof {
            if r is Some {
                let c = r->Some_0;
                assert(c.num * ((d1 as int) * (a2 as int)) == ((a1 as int) * (d2 as int)) * c.den)
                    by (nonlinear_arith)
                    requires
                        c.num * (d as int) == (n as int) * c.den,
                        (n as int == (a1 as int) * (d2 as int) && d as int == (d1 as int) * (a2 as int))
                            || (n as int == -((a1 as int) * (d2 as int))
                                && d as int == -((d1 as int) * (a2 as int))),
                ;
            }
        }
        r
    }

    /// Exact negation.
    pub fn neg(self) -> (r: Option<Ratio>)
        requires
            ratio_wf(self),
        ensures
            r matches Some(c) ==> ratio_wf(c) && neg_val(c, self),
            self.num > i64::MIN ==> (r matches Some(c) && c.num == -self.num
                && c.den == self.den),
    {
        if self.num == i64::MIN {
            reduce(-(self.num as i128), self.den as i128)
        } else {
            Some(Ratio { num: -self.num, den: self.den })
        }
    }

    /// Whether the ratio is exactly zero.
    pub fn is_zero(self) -> (r: bool)
        ensures
            r == (self.num == 0),
    {
        self.num == 0
    }

    /// Whether the ratio is strictly negative.
    pub fn is_negative(self) -> (r: bool)
        requires
            ratio_wf(self),
        ensures
            r == (self.num < 0),
    {
        self.num < 0
    }

    /// Exact comparison: `self <= other`.
    pub fn le(self, other: Ratio) -> (r: bool)
        requires
            ratio_wf(self),
            ratio_wf(other),
        ensures
            r == le_val(self, other),
    {
        proof {
            lemma_prod_in_range(self.num as int, other.den as int);
            lemma_prod_in_range(other.num as int, self.den as int);
        }
        (self.num as i128) * (other.den as i128) <= (other.num as i128) * (self.den as i128)
    }

    /// Exact comparison: `self < other`.
    pub fn lt(self, other: Ratio) -> (r: bool)
        requires
            ratio_wf(self),
            ratio_wf(other),
        ensures
            r == lt_val(self, other),
    {
        proof {
            lemma_prod_in_range(self.num as int, other.den as int);
            lemma_prod_in_range(other.num as int, self.den as int);
        }
        (self.num as i128) * (other.den as i128) < (other.num as i128) * (self.den as i128)
    }

    /// Exact value equality (the representations may differ).
    pub fn eq_value(self, other: Ratio) -> (r: bool)
        requires
            ratio_wf(self),
            ratio_wf(other),
        ensures
            r == eq_val(self, other),
    {
        proof {
            reveal(eq_val);
            lemma_prod_in_range(self.num as int, other.den as int);
            lemma_prod_in_range(other.num as int, self.den as int);
        }
        (self.num as i128) * (other.den as i128) == (other.num as i128) * (self.den as i128)
    }
}

/// The product of two values in `i64` range stays well inside `i128` range.
proof fn lemma_prod_in_range(a: int, b: int)
    requires
        -0x8000_0000_0000_0000 <= a <= 0x7fff_ffff_ffff_ffff,
        -0x8000_0000_0000_0000 <= b <= 0x7fff_ffff_ffff_ffff,
    ensures
        -0x4000_0000_0000_0000_0000_0000_0000_0000 <= a * b
            <= 0x4000_0000_0000_0000_0000_0000_0000_0000,
        b > 0 ==> a * b >= -0x4000_0000_0000_0000_0000_0000_0000_0000
            + 0x8000_0000_0000_0000,
        b > 0 ==> a * b < 0x4000_0000_0000_0000_0000_0000_0000_0000,
{
    assert(-0x4000_0000_0000_0000_0000_0000_0000_0000 <= a * b
        <= 0x4000_0000_0000_0000_0000_0000_0000_0000) by (nonlinear_arith)
        requires
            -0x8000_0000_0000_0000 <= a <= 0x7fff_ffff_ffff_ffff,
            -0x8000_0000_0000_0000 <= b <= 0x7fff_ffff_ffff_ffff,
    ;
    if b > 0 {
        assert(a * b >= -0x4000_0000_0000_0000_0000_0000_0000_0000 + 0x8000_0000_0000_0000
            && a * b < 0x4000_0000_0000_0000_0000_0000_0000_0000) by (nonlinear_arith)
            requires
                -0x8000_0000_0000_0000 <= a <= 0x7fff_ffff_ffff_ffff,
                0 < b <= 0x7fff_ffff_ffff_ffff,
        ;
    }
}

/// The product of two positive values is positive.
proof fn lemma_den_prod_pos(a: int, b: int)
    requires
        a > 0,
        b > 0,
    ensures
        a * b > 0,
{
    assert(a * b > 0) by (nonlinear_arith)
        requires
            a > 0,
            b > 0,
    ;
}

} // verus!
