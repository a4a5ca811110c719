//! Rational numbers with 64-bit numerator and denominator, kept in lowest
//! terms, extended with the two infinities.
use vstd::prelude::*;
use crate::numtheory::{abs, gcd_i128, lemma_gcd_divides, lemma_norm, norm_den, norm_num};

verus! {

/// `2^63`: the magnitude of `i64::MIN`.
pub open spec fn p63() -> int {
    9223372036854775808
}

/// A rational number `num / den`.
///
/// Finite values have `den > 0` and are kept in lowest terms by every
/// operation of this module; `+∞` is `1 / 0` and `-∞` is `-1 / 0`.
#[derive(Debug, Clone, Copy)]
pub struct Rational {
    pub num: i64,
    pub den: i64,
}

/// `n / d` (with `d > 0`) reduced to lowest terms, as a pair of integers.
pub open spec fn reduced(n: int, d: int) -> Rational {
    Rational { num: norm_num(n, d) as i64, den: norm_den(n, d) as i64 }
}

/// Whether `n / d` (with `d > 0`) in lowest terms fits in 64-bit integers.
pub open spec fn fits(n: int, d: int) -> bool {
    i64::MIN <= norm_num(n, d) <= i64::MAX && norm_den(n, d) <= i64::MAX
}

/// The rational `n / d` (with `d > 0`), or `None` when its lowest terms do not fit.
pub open spec fn frac(n: int, d: int) -> Option<Rational> {
    if fits(n, d) {
        Some(reduced(n, d))
    } else {
        None
    }
}

/// An infinity of the given sign.
pub open spec fn infinity(positive: bool) -> Rational {
    Rational { num: if positive { 1i64 } else { -1i64 }, den: 0 }
}

/// The rational zero.
pub open spec fn zero_spec() -> Rational {
    Rational { num: 0, den: 1 }
}

impl Rational {
    /// Well-formed: a positive denominator, or one of the two infinities.
    pub open spec fn wf(self) -> bool {
        self.den > 0 || (self.den == 0 && (self.num == 1 || self.num == -1))
    }

    pub open spec fn is_fin(self) -> bool {
        self.den != 0
    }

    pub open spec fn is_pinf(self) -> bool {
        self.den == 0 && self.num > 0
    }

    pub open spec fn is_ninf(self) -> bool {
        self.den == 0 && self.num < 0
    }

    /// Strict order of values: `-∞` below every finite value, `+∞` above.
    pub open spec fn less(self, o: Rational) -> bool {
        if self.is_fin() && o.is_fin() {
            self.num * o.den < o.num * self.den
        } else if self.is_fin() {
            o.is_pinf()
        } else if o.is_fin() {
            self.is_ninf()
        } else {
            self.is_ninf() && o.is_pinf()
        }
    }

    /// Equality of values.
    pub open spec fn same(self, o: Rational) -> bool {
        if self.is_fin() && o.is_fin() {
            self.num * o.den == o.num * self.den
        } else if self.is_fin() || o.is_fin() {
            false
        } else {
            (self.num > 0) == (o.num > 0)
        }
    }

    pub open spec fn leq(self, o: Rational) -> bool {
        self.less(o) || self.same(o)
    }

    /// Sum, or `None` when it overflows or is `∞ + (-∞)`.
    pub open spec fn add_spec(self, o: Rational) -> Option<Rational> {
        if self.is_fin() && o.is_fin() {
            frac(self.num * o.den + o.num * self.den, self.den * o.den)
        } else if self.is_fin() {
            Some(o)
        } else if o.is_fin() {
            Some(self)
        } else if self.num == o.num {
            Some(self)
        } else {
            None
        }
    }

    /// Difference, or `None` when it overflows or is `∞ - ∞`.
    pub open spec fn sub_spec(self, o: Rational) -> Option<Rational> {
        if self.is_fin() && o.is_fin() {
            frac(self.num * o.den - o.num * self.den, self.den * o.den)
        } else if self.is_fin() {
            Some(infinity(o.num < 0))
        } else if o.is_fin() {
            Some(self)
        } else if self.num != o.num {
            Some(self)
        } else {
            None
        }
    }

    /// Product, or `None` when it overflows; `0 · ∞` is `0`.
    pub open spec fn mul_spec(self, o: Rational) -> Option<Rational> {
        if self.is_fin() && o.is_fin() {
            frac(self.num * o.num, self.den * o.den)
        } else if self.num == 0 || o.num == 0 {
            Some(zero_spec())
        } else {
            Some(infinity((self.num > 0) == (o.num > 0)))
        }
    }

    /// Quotient, or `None` when it overflows, divides by zero, or is `∞ / ∞`.
    pub open spec fn div_spec(self, o: Rational) -> Option<Rational> {
        if o.is_fin() && o.num == 0 {
            None
        } else if self.is_fin() && o.is_fin() {
            if o.num > 0 {
                frac(self.num * o.den, self.den * o.num)
            } else {
                frac(-self.num * o.den, self.den * (-o.num))
            }
        } else if self.is_fin() {
            Some(zero_spec())
        } else if o.is_fin() {
            Some(infinity((self.num > 0) == (o.num > 0)))
        } else {
            None
        }
    }

    /// Negation, or `None` for the one numerator whose negation overflows.
    pub open spec fn neg_spec(self) -> Option<Rational> {
        if self.num == i64::MIN {
            None
        } else {
            Some(Rational { num: (-self.num) as i64, den: self.den })
        }
    }
}

/// `x * y` for 64-bit integers, computed in 128 bits.
fn wide_mul(x: i64, y: i64) -> (r: i128)
    ensures
        r == x * y,
        -p63() * p63() <= r <= p63() * p63(),
{
    proof {
        assert(-p63() * p63() <= x * y <= p63() * p63()) by (nonlinear_arith)
            requires
                -p63() <= x <= p63(),
                -p63() <= y <= p63(),
        ;
    }
    (x as i128) * (y as i128)
}

/// `x * d` for a nonnegative `d`, computed in 128 bits.
fn wide_mul_den(x: i64, d: i64) -> (r: i128)
    requires
        d >= 0,
    ensures
        r == x * d,
        -85070591730234615856620279821087277056 <= r <= 85070591730234615856620279821087277056,
{
    proof {
        assert(-85070591730234615856620279821087277056 <= x * d <= 85070591730234615856620279821087277056) by (nonlinear_arith)
            requires
                -9223372036854775808 <= x <= 9223372036854775807,
                0 <= d <= 9223372036854775807,
        ;
    }
    (x as i128) * (d as i128)
}

/// `n / d` reduced to lowest terms, or `None` when it does not fit.
fn make_frac(n: i128, d: i128) -> (r: Option<Rational>)
    requires
        d > 0,
        n > i128::MIN,
    ensures
        r == frac(n as int, d as int),
        r matches Some(q) ==> q.wf() && q.is_fin(),
{
    proof {
        lemma_norm(n as int, d as int);
        lemma_gcd_divides(abs(n as int), abs(d as int));
    }
    let an: i128 = if n < 0 { -n } else { n };
    let g = gcd_i128(an, d);
    let qn: i128 = an / g;
    let qd: i128 = d / g;
    let sn: i128 = if n < 0 { -qn } else { qn };
    if sn < i64::MIN as i128 || sn > i64::MAX as i128 || qd > i64::MAX as i128 {
        None
    } else {
        Some(Rational { num: sn as i64, den: qd as i64 })
    }
}

impl Rational {
    /// The rational zero.
    pub fn zero() -> (r: Rational)
        ensures
            r == zero_spec(),
    {
        Rational { num: 0, den: 1 }
    }

    /// `+∞`.
    pub fn positive_infinity() -> (r: Rational)
        ensures
            r == infinity(true),
    {
        Rational { num: 1, den: 0 }
    }

    /// `-∞`.
    pub fn negative_infinity() -> (r: Rational)
        ensures
            r == infinity(false),
    {
        Rational { num: -1, den: 0 }
    }

    /// The rational `num / den` in lowest terms.
    pub fn new(num: i64, den: i64) -> (r: Rational)
        requires
            den != 0,
            den != i64::MIN,
            num != i64::MIN,
        ensures
            r.wf(),
            r.is_fin(),
            den > 0 ==> r == reduced(num as int, den as int),
            den < 0 ==> r == reduced(-num, -den),
    {
        proof {
            if den > 0 {
                lemma_norm(num as int, den as int);
            } else {
                lemma_norm(-num, -den);
            }
        }
        let (n, d): (i128, i128) = if den > 0 {
            (num as i128, den as i128)
        } else {
            (-(num as i128), -(den as i128))
        };
        match make_frac(n, d) {
            Some(r) => r,
            None => {
                proof {
                    assert(false);
                }
                Rational { num: 0, den: 1 }
            },
        }
    }

    /// The integer `v` as a rational.
    pub fn from_int(v: i64) -> (r: Rational)
        ensures
            r == (Rational { num: v, den: 1 }),
    {
        Rational { num: v, den: 1 }
    }

    pub fn is_finite(&self) -> (b: bool)
        ensures
            b == self.is_fin(),
    {
        self.den != 0
    }

    pub fn is_zero(&self) -> (b: bool)
        requires
            self.wf(),
        ensures
            b == (self.is_fin() && self.num == 0),
            b == self.same(zero_spec()),
    {
        self.den != 0 && self.num == 0
    }

    pub fn is_positive(&self) -> (b: bool)
        requires
            self.wf(),
        ensures
            b == (self.num > 0),
            b == zero_spec().less(*self),
    {
        self.num > 0
    }

    pub fn is_negative(&self) -> (b: bool)
        requires
            self.wf(),
        ensures
            b == (self.num < 0),
            b == self.less(zero_spec()),
    {
        self.num < 0
    }

    /// Whether the value of `self` is below that of `o`.
    pub fn less_than(&self, o: &Rational) -> (b: bool)
        ensures
            b == self.less(*o),
    {
        if self.den != 0 && o.den != 0 {
            wide_mul(self.num, o.den) < wide_mul(o.num, self.den)
        } else if self.den != 0 {
            o.den == 0 && o.num > 0
        } else if o.den != 0 {
            self.num < 0
        } else {
            self.num < 0 && o.num > 0
        }
    }

    /// Whether `self` and `o` have the same value.
    pub fn same_value(&self, o: &Rational) -> (b: bool)
        ensures
            b == self.same(*o),
    {
        if self.den != 0 && o.den != 0 {
            wide_mul(self.num, o.den) == wide_mul(o.num, self.den)
        } else if self.den != 0 || o.den != 0 {
            false
        } else {
            (self.num > 0) == (o.num > 0)
        }
    }

    /// Compares values: `-1`, `0` or `1` as `self` is below, equal to or above `o`.
    pub fn compare(&self, o: &Rational) -> (r: i8)
        requires
            self.wf(),
            o.wf(),
        ensures
            r == -1 <==> self.less(*o),
            r == 0 <==> self.same(*o),
            r == 1 <==> o.less(*self),
            r == -1 || r == 0 || r == 1,
    {
        if self.den != 0 && o.den != 0 {
            let l = wide_mul(self.num, o.den);
            let r = wide_mul(o.num, self.den);
            if l < r {
                -1
            } else if l == r {
                0
            } else {
                1
            }
        } else if self.den != 0 {
            if o.num > 0 {
                -1
            } else {
                1
            }
        } else if o.den != 0 {
            if self.num > 0 {
                1
            } else {
                -1
            }
        } else if self.num == o.num {
            0
        } else if self.num < 0 {
            -1
        } else {
            1
        }
    }

    /// Checked sum.
    pub fn checked_add(&self, o: &Rational) -> (r: Option<Rational>)
        requires
            self.wf(),
            o.wf(),
        ensures
            r == self.add_spec(*o),
            r matches Some(q) ==> q.wf(),
            self.is_fin() && o.is_fin() ==> (r matches Some(q) ==> q.is_fin()),
    {
        if self.den != 0 && o.den != 0 {
            let a = wide_mul_den(self.num, o.den);
            let b = wide_mul_den(o.num, self.den);
            let d = wide_mul(self.den, o.den);
            proof {
                assert(self.den * o.den > 0) by (nonlinear_arith)
                    requires
                        self.den > 0,
                        o.den > 0,
                ;
            }
            make_frac(a + b, d)
        } else if self.den != 0 {
            Some(*o)
        } else if o.den != 0 {
            Some(*self)
        } else if self.num == o.num {
            Some(*self)
        } else {
            None
        }
    }

    /// Checked difference.
    pub fn checked_sub(&self, o: &Rational) -> (r: Option<Rational>)
        requires
            self.wf(),
            o.wf(),
        ensures
            r == self.sub_spec(*o),
            r matches Some(q) ==> q.wf(),
            self.is_fin() && o.is_fin() ==> (r matches Some(q) ==> q.is_fin()),
    {
        if self.den != 0 && o.den != 0 {
            let a = wide_mul_den(self.num, o.den);
            let b = wide_mul_den(o.num, self.den);
            let d = wide_mul(self.den, o.den);
            proof {
                assert(self.den * o.den > 0) by (nonlinear_arith)
                    requires
                        self.den > 0,
                        o.den > 0,
                ;
            }
            make_frac(a - b, d)
        } else if self.den != 0 {
            if o.num < 0 {
                Some(Rational { num: 1, den: 0 })
            } else {
                Some(Rational { num: -1, den: 0 })
            }
        } else if o.den != 0 {
            Some(*self)
        } else if self.num != o.num {
            Some(*self)
        } else {
            None
        }
    }

    /// Checked product.
    pub fn checked_mul(&self, o: &Rational) -> (r: Option<Rational>)
        requires
            self.wf(),
            o.wf(),
        ensures
            r == self.mul_spec(*o),
            r matches Some(q) ==> q.wf(),
            self.is_fin() && o.is_fin() ==> (r matches Some(q) ==> q.is_fin()),
    {
        if self.den != 0 && o.den != 0 {
            let a = wide_mul(self.num, o.num);
            let d = wide_mul(self.den, o.den);
            proof {
                assert(self.den * o.den > 0) by (nonlinear_arith)
                    requires
                        self.den > 0,
                        o.den > 0,
                ;
            }
            make_frac(a, d)
        } else if self.num == 0 || o.num == 0 {
            Some(Rational { num: 0, den: 1 })
        } else if (self.num > 0) == (o.num > 0) {
            Some(Rational { num: 1, den: 0 })
        } else {
            Some(Rational { num: -1, den: 0 })
        }
    }

    /// Checked quotient.
    pub fn checked_div(&self, o: &Rational) -> (r: Option<Rational>)
        requires
            self.wf(),
            o.wf(),
        ensures
            r == self.div_spec(*o),
            r matches Some(q) ==> q.wf(),
            self.is_fin() && o.is_fin() ==> (r matches Some(q) ==> q.is_fin()),
    {
        if o.den != 0 && o.num == 0 {
            None
        } else if self.den != 0 && o.den != 0 {
            let a = wide_mul(self.num, o.den);
            let d = wide_mul(self.den, o.num);
            if o.num > 0 {
                proof {
                    assert(self.den * o.num > 0) by (nonlinear_arith)
                        requires
                            self.den > 0,
                            o.num > 0,
                    ;
                }
                make_frac(a, d)
            } else {
                proof {
                    assert(self.den * (-o.num) > 0) by (nonlinear_arith)
                        requires
                            self.den > 0,
                            o.num < 0,
                    ;
                    assert(-(self.num * o.den) == -self.num * o.den) by (nonlinear_arith);
                    assert(-(self.den * o.num) == self.den * (-o.num)) by (nonlinear_arith);
                }
                make_frac(-a, -d)
            }
        } else if self.den != 0 {
            Some(Rational { num: 0, den: 1 })
        } else if o.den != 0 {
            if (self.num > 0) == (o.num > 0) {
                Some(Rational { num: 1, den: 0 })
            } else {
                Some(Rational { num: -1, den: 0 })
            }
        } else {
            None
        }
    }

    /// Checked negation.
    pub fn checked_neg(&self) -> (r: Option<Rational>)
        requires
            self.wf(),
        ensures
            r == self.neg_spec(),
            r matches Some(q) ==> q.wf(),
    {
        if self.num == i64::MIN {
            None
        } else {
            Some(Rational { num: -self.num, den: self.den })
        }
    }

    /// The sum `self + o`.
    pub fn add(&self, o: &Rational) -> (r: Rational)
        requires
            self.wf(),
            o.wf(),
            self.add_spec(*o) is Some,
        ensures
            r == self.add_spec(*o).unwrap(),
            r.wf(),
            self.is_fin() && o.is_fin() ==> r.is_fin(),
    {
        self.checked_add(o).unwrap()
    }

    /// The difference `self - o`.
    pub fn sub(&self, o: &Rational) -> (r: Rational)
        requires
            self.wf(),
            o.wf(),
            self.sub_spec(*o) is Some,
        ensures
            r == self.sub_spec(*o).unwrap(),
            r.wf(),
            self.is_fin() && o.is_fin() ==> r.is_fin(),
    {
        self.checked_sub(o).unwrap()
    }

    /// The product `self * o`.
    pub fn mul(&self, o: &Rational) -> (r: Rational)
        requires
            self.wf(),
            o.wf(),
            self.mul_spec(*o) is Some,
        ensures
            r == self.mul_spec(*o).unwrap(),
            r.wf(),
            self.is_fin() && o.is_fin() ==> r.is_fin(),
    {
        self.checked_mul(o).unwrap()
    }

    /// The quotient `self / o`.
    pub fn div(&self, o: &Rational) -> (r: Rational)
        requires
            self.wf(),
            o.wf(),
            self.div_spec(*o) is Some,
        ensures
            r == self.div_spec(*o).unwrap(),
            r.wf(),
            self.is_fin() && o.is_fin() ==> r.is_fin(),
    {
        self.checked_div(o).unwrap()
    }

    /// The negation `-self`.
    pub fn neg(&self) -> (r: Rational)
        requires
            self.wf(),
            self.num != i64::MIN,
        ensures
            r == self.neg_spec().unwrap(),
            r.wf(),
            r.is_fin() == self.is_fin(),
    {
        Rational { num: -self.num, den: self.den }
    }

    /// The reciprocal `1 / self`.
    pub fn reciprocal(&self) -> (r: Rational)
        requires
            self.wf(),
            !(self.is_fin() && self.num == 0),
            self.num != i64::MIN,
        ensures
            r.wf(),
            r == (Rational { num: 1, den: 1 }).div_spec(*self).unwrap(),
    {
        let one = Rational { num: 1, den: 1 };
        proof {
            if self.is_fin() {
                if self.num > 0 {
                    lemma_norm(self.den as int, self.num as int);
                } else {
                    lemma_norm(-self.den, -self.num);
                }
            }
        }
        one.div(self)
    }
}

/// Cross-multiplied comparisons chain through a positive middle denominator.
proof fn lemma_cross_chain(an: int, ad: int, bn: int, bd: int, cn: int, cd: int)
    requires
        ad > 0,
        bd > 0,
        cd > 0,
    ensures
        an * bd < bn * ad && bn * cd < cn * bd ==> an * cd < cn * ad,
        an * bd < bn * ad && bn * cd == cn * bd ==> an * cd < cn * ad,
        an * bd == bn * ad && bn * cd < cn * bd ==> an * cd < cn * ad,
        an * bd == bn * ad && bn * cd == cn * bd ==> an * cd == cn * ad,
{
    if an * bd < bn * ad && bn * cd < cn * bd {
        assert(an * cd < cn * ad) by (nonlinear_arith)
            requires
                an * bd < bn * ad,
                bn * cd < cn * bd,
                ad > 0,
                bd > 0,
                cd > 0,
        ;
    }
    if an * bd < bn * ad && bn * cd == cn * bd {
        assert(an * cd < cn * ad) by (nonlinear_arith)
            requires
                an * bd < bn * ad,
                bn * cd == cn * bd,
                ad > 0,
                bd > 0,
                cd > 0,
        ;
    }
    if an * bd == bn * ad && bn * cd < cn * bd {
        assert(an * cd < cn * ad) by (nonlinear_arith)
            requires
                an * bd == bn * ad,
                bn * cd < cn * bd,
                ad > 0,
                bd > 0,
                cd > 0,
        ;
    }
    if an * bd == bn * ad && bn * cd == cn * bd {
        assert(an * cd == cn * ad) by (nonlinear_arith)
            requires
                an * bd == bn * ad,
                bn * cd == cn * bd,
                ad > 0,
                bd > 0,
                cd > 0,
        ;
    }
}

/// The value order of well-formed rationals is a strict total order whose
/// equivalence is `same`.
pub proof fn lemma_order(a: Rational, b: Rational, c: Rational)
    requires
        a.wf(),
        b.wf(),
        c.wf(),
    ensures
        a.same(a),
        !a.less(a),
        a.same(b) ==> b.same(a),
        a.less(b) || a.same(b) || b.less(a),
        a.less(b) ==> !b.less(a) && !a.same(b),
        a.less(b) && b.less(c) ==> a.less(c),
        a.less(b) && b.same(c) ==> a.less(c),
        a.same(b) && b.less(c) ==> a.less(c),
        a.same(b) && b.same(c) ==> a.same(c),
{
    if a.is_fin() && b.is_fin() && c.is_fin() {
        lemma_cross_chain(
            a.num as int,
            a.den as int,
            b.num as int,
            b.den as int,
            c.num as int,
            c.den as int,
        );
    }
}

} // verus!
