//! Rationals extended with an infinitesimal part: `rat + inf · ε`.
use vstd::prelude::*;
use crate::rational::{Rational, infinity, lemma_order, zero_spec};

verus! {

/// A rational number extended with an infinitesimal part.
///
/// The value is `rat + inf · ε`, where `ε` is positive but smaller than any
/// positive rational number; values are ordered lexicographically by
/// `(rat, inf)`.
#[derive(Debug, Clone, Copy)]
pub struct InfRational {
    pub rat: Rational,
    pub inf: Rational,
}

/// The pair of two computed parts, when both exist.
pub open spec fn both(r: Option<Rational>, i: Option<Rational>) -> Option<InfRational> {
    match (r, i) {
        (Some(a), Some(b)) => Some(InfRational { rat: a, inf: b }),
        _ => None,
    }
}

/// `r` as a value with no infinitesimal part.
pub open spec fn lift(r: Rational) -> InfRational {
    InfRational { rat: r, inf: zero_spec() }
}

/// The integer `v` as a value with no infinitesimal part.
pub open spec fn lift_int(v: i64) -> InfRational {
    lift(Rational { num: v, den: 1 })
}

/// `+∞` with no infinitesimal part.
pub open spec fn pos_inf() -> InfRational {
    lift(infinity(true))
}

/// `-∞` with no infinitesimal part.
pub open spec fn neg_inf() -> InfRational {
    lift(infinity(false))
}

impl InfRational {
    pub open spec fn wf(self) -> bool {
        self.rat.wf() && self.inf.wf()
    }

    /// Both parts are finite.
    pub open spec fn is_fin(self) -> bool {
        self.rat.is_fin() && self.inf.is_fin()
    }

    /// Lexicographic strict order of values.
    pub open spec fn less(self, o: InfRational) -> bool {
        self.rat.less(o.rat) || (self.rat.same(o.rat) && self.inf.less(o.inf))
    }

    /// Equality of values.
    pub open spec fn same(self, o: InfRational) -> bool {
        self.rat.same(o.rat) && self.inf.same(o.inf)
    }

    pub open spec fn leq(self, o: InfRational) -> bool {
        self.less(o) || self.same(o)
    }

    pub open spec fn add_spec(self, o: InfRational) -> Option<InfRational> {
        both(self.rat.add_spec(o.rat), self.inf.add_spec(o.inf))
    }

    pub open spec fn sub_spec(self, o: InfRational) -> Option<InfRational> {
        both(self.rat.sub_spec(o.rat), self.inf.sub_spec(o.inf))
    }

    /// `self + r` for a rational `r`: only the rational part changes.
    pub open spec fn add_rat_spec(self, r: Rational) -> Option<InfRational> {
        both(self.rat.add_spec(r), Some(self.inf))
    }

    pub open spec fn sub_rat_spec(self, r: Rational) -> Option<InfRational> {
        both(self.rat.sub_spec(r), Some(self.inf))
    }

    /// `r - self` for a rational `r`.
    pub open spec fn rsub_rat_spec(self, r: Rational) -> Option<InfRational> {
        both(r.sub_spec(self.rat), self.inf.neg_spec())
    }

    /// `self · r` for a rational `r`: both parts are scaled.
    pub open spec fn mul_rat_spec(self, r: Rational) -> Option<InfRational> {
        both(self.rat.mul_spec(r), self.inf.mul_spec(r))
    }

    pub open spec fn div_rat_spec(self, r: Rational) -> Option<InfRational> {
        both(self.rat.div_spec(r), self.inf.div_spec(r))
    }

    /// `(a + bε)(c + dε) = ac + (ad + bc)ε`.
    pub open spec fn mul_spec(self, o: InfRational) -> Option<InfRational> {
        match (self.rat.mul_spec(o.rat), self.rat.mul_spec(o.inf), self.inf.mul_spec(o.rat)) {
            (Some(ac), Some(ad), Some(bc)) => both(Some(ac), ad.add_spec(bc)),
            _ => None,
        }
    }

    /// `(a + bε) / (c + dε) = a/c + ((bc - ad) / c²)ε`.
    pub open spec fn div_spec(self, o: InfRational) -> Option<InfRational> {
        match (
            self.rat.div_spec(o.rat),
            self.inf.mul_spec(o.rat),
            self.rat.mul_spec(o.inf),
            o.rat.mul_spec(o.rat),
        ) {
            (Some(q), Some(bc), Some(ad), Some(cc)) => match bc.sub_spec(ad) {
                Some(num) => both(Some(q), num.div_spec(cc)),
                None => None,
            },
            _ => None,
        }
    }

    pub open spec fn neg_spec(self) -> Option<InfRational> {
        both(self.rat.neg_spec(), self.inf.neg_spec())
    }

    /// The value `rat + inf · ε`.
    pub fn new(rat: Rational, inf: Rational) -> (r: InfRational)
        ensures
            r == (InfRational { rat, inf }),
    {
        InfRational { rat, inf }
    }

    /// Zero.
    pub fn zero() -> (r: InfRational)
        ensures
            r == lift(zero_spec()),
    {
        InfRational { rat: Rational::zero(), inf: Rational::zero() }
    }

    /// `+∞`.
    pub fn positive_infinity() -> (r: InfRational)
        ensures
            r == pos_inf(),
    {
        InfRational { rat: Rational::positive_infinity(), inf: Rational::zero() }
    }

    /// `-∞`.
    pub fn negative_infinity() -> (r: InfRational)
        ensures
            r == neg_inf(),
    {
        InfRational { rat: Rational::negative_infinity(), inf: Rational::zero() }
    }

    /// `r` with no infinitesimal part.
    pub fn from_rational(r: Rational) -> (x: InfRational)
        ensures
            x == lift(r),
    {
        InfRational { rat: r, inf: Rational::zero() }
    }

    /// The integer `v` with no infinitesimal part.
    pub fn from_int(v: i64) -> (x: InfRational)
        ensures
            x == lift_int(v),
    {
        InfRational { rat: Rational::from_int(v), inf: Rational::zero() }
    }

    pub fn is_finite(&self) -> (b: bool)
        ensures
            b == self.is_fin(),
    {
        self.rat.is_finite() && self.inf.is_finite()
    }

    /// Whether the value of `self` is below that of `o`.
    pub fn less_than(&self, o: &InfRational) -> (b: bool)
        ensures
            b == self.less(*o),
    {
        self.rat.less_than(&o.rat) || (self.rat.same_value(&o.rat) && self.inf.less_than(&o.inf))
    }

    /// Whether `self` and `o` have the same value.
    pub fn same_value(&self, o: &InfRational) -> (b: bool)
        ensures
            b == self.same(*o),
    {
        self.rat.same_value(&o.rat) && self.inf.same_value(&o.inf)
    }

    pub fn checked_add(&self, o: &InfRational) -> (r: Option<InfRational>)
        requires
            self.wf(),
            o.wf(),
        ensures
            r == self.add_spec(*o),
            r matches Some(x) ==> x.wf(),
            self.is_fin() && o.is_fin() ==> (r matches Some(x) ==> x.is_fin()),
    {
        match (self.rat.checked_add(&o.rat), self.inf.checked_add(&o.inf)) {
            (Some(a), Some(b)) => Some(InfRational { rat: a, inf: b }),
            _ => None,
        }
    }

    pub fn checked_sub(&self, o: &InfRational) -> (r: Option<InfRational>)
        requires
            self.wf(),
            o.wf(),
        ensures
            r == self.sub_spec(*o),
            r matches Some(x) ==> x.wf(),
            self.is_fin() && o.is_fin() ==> (r matches Some(x) ==> x.is_fin()),
    {
        match (self.rat.checked_sub(&o.rat), self.inf.checked_sub(&o.inf)) {
            (Some(a), Some(b)) => Some(InfRational { rat: a, inf: b }),
            _ => None,
        }
    }

    pub fn checked_mul_rat(&self, r: &Rational) -> (x: Option<InfRational>)
        requires
            self.wf(),
            r.wf(),
        ensures
            x == self.mul_rat_spec(*r),
            x matches Some(y) ==> y.wf(),
            self.is_fin() && r.is_fin() ==> (x matches Some(y) ==> y.is_fin()),
    {
        match (self.rat.checked_mul(r), self.inf.checked_mul(r)) {
            (Some(a), Some(b)) => Some(InfRational { rat: a, inf: b }),
            _ => None,
        }
    }

    pub fn checked_div_rat(&self, r: &Rational) -> (x: Option<InfRational>)
        requires
            self.wf(),
            r.wf(),
        ensures
            x == self.div_rat_spec(*r),
            x matches Some(y) ==> y.wf(),
            self.is_fin() && r.is_fin() ==> (x matches Some(y) ==> y.is_fin()),
    {
        match (self.rat.checked_div(r), self.inf.checked_div(r)) {
            (Some(a), Some(b)) => Some(InfRational { rat: a, inf: b }),
            _ => None,
        }
    }

    /// The sum `self + o`.
    pub fn add(&self, o: &InfRational) -> (r: InfRational)
        requires
            self.wf(),
            o.wf(),
            self.add_spec(*o) is Some,
        ensures
            r == self.add_spec(*o).unwrap(),
            r.wf(),
    {
        self.checked_add(o).unwrap()
    }

    /// The difference `self - o`.
    pub fn sub(&self, o: &InfRational) -> (r: InfRational)
        requires
            self.wf(),
            o.wf(),
            self.sub_spec(*o) is Some,
        ensures
            r == self.sub_spec(*o).unwrap(),
            r.wf(),
    {
        self.checked_sub(o).unwrap()
    }

    /// `self + r` for a rational `r`.
    pub fn add_rat(&self, r: &Rational) -> (x: InfRational)
        requires
            self.wf(),
            r.wf(),
            self.add_rat_spec(*r) is Some,
        ensures
            x == self.add_rat_spec(*r).unwrap(),
            x.wf(),
    {
        InfRational { rat: self.rat.add(r), inf: self.inf }
    }

    /// `self - r` for a rational `r`.
    pub fn sub_rat(&self, r: &Rational) -> (x: InfRational)
        requires
            self.wf(),
            r.wf(),
            self.sub_rat_spec(*r) is Some,
        ensures
            x == self.sub_rat_spec(*r).unwrap(),
            x.wf(),
    {
        InfRational { rat: self.rat.sub(r), inf: self.inf }
    }

    /// `r - self` for a rational `r`.
    pub fn rsub_rat(&self, r: &Rational) -> (x: InfRational)
        requires
            self.wf(),
            r.wf(),
            self.rsub_rat_spec(*r) is Some,
        ensures
            x == self.rsub_rat_spec(*r).unwrap(),
            x.wf(),
    {
        InfRational { rat: r.sub(&self.rat), inf: self.inf.neg() }
    }

    /// `self · r` for a rational `r`.
    pub fn mul_rat(&self, r: &Rational) -> (x: InfRational)
        requires
            self.wf(),
            r.wf(),
            self.mul_rat_spec(*r) is Some,
        ensures
            x == self.mul_rat_spec(*r).unwrap(),
            x.wf(),
    {
        self.checked_mul_rat(r).unwrap()
    }

    /// `self / r` for a rational `r`.
    pub fn div_rat(&self, r: &Rational) -> (x: InfRational)
        requires
            self.wf(),
            r.wf(),
            self.div_rat_spec(*r) is Some,
        ensures
            x == self.div_rat_spec(*r).unwrap(),
            x.wf(),
    {
        self.checked_div_rat(r).unwrap()
    }

    /// `self + v` for an integer `v`.
    pub fn add_int(&self, v: i64) -> (x: InfRational)
        requires
            self.wf(),
            self.add_rat_spec(Rational { num: v, den: 1 }) is Some,
        ensures
            x == self.add_rat_spec(Rational { num: v, den: 1 }).unwrap(),
    {
        self.add_rat(&Rational::from_int(v))
    }

    /// `self - v` for an integer `v`.
    pub fn sub_int(&self, v: i64) -> (x: InfRational)
        requires
            self.wf(),
            self.sub_rat_spec(Rational { num: v, den: 1 }) is Some,
        ensures
            x == self.sub_rat_spec(Rational { num: v, den: 1 }).unwrap(),
    {
        self.sub_rat(&Rational::from_int(v))
    }

    /// `v - self` for an integer `v`.
    pub fn rsub_int(&self, v: i64) -> (x: InfRational)
        requires
            self.wf(),
            self.rsub_rat_spec(Rational { num: v, den: 1 }) is Some,
        ensures
            x == self.rsub_rat_spec(Rational { num: v, den: 1 }).unwrap(),
    {
        self.rsub_rat(&Rational::from_int(v))
    }

    /// `self · v` for an integer `v`.
    pub fn mul_int(&self, v: i64) -> (x: InfRational)
        requires
            self.wf(),
            self.mul_rat_spec(Rational { num: v, den: 1 }) is Some,
        ensures
            x == self.mul_rat_spec(Rational { num: v, den: 1 }).unwrap(),
    {
        self.mul_rat(&Rational::from_int(v))
    }

    /// `self / v` for an integer `v`.
    pub fn div_int(&self, v: i64) -> (x: InfRational)
        requires
            self.wf(),
            self.div_rat_spec(Rational { num: v, den: 1 }) is Some,
        ensures
            x == self.div_rat_spec(Rational { num: v, den: 1 }).unwrap(),
    {
        self.div_rat(&Rational::from_int(v))
    }

    /// The product of two extended values.
    pub fn mul(&self, o: &InfRational) -> (r: InfRational)
        requires
            self.wf(),
            o.wf(),
            self.mul_spec(*o) is Some,
        ensures
            r == self.mul_spec(*o).unwrap(),
            r.wf(),
    {
        let ac = self.rat.mul(&o.rat);
        let ad = self.rat.mul(&o.inf);
        let bc = self.inf.mul(&o.rat);
        InfRational { rat: ac, inf: ad.add(&bc) }
    }

    /// The quotient of two extended values.
    pub fn div(&self, o: &InfRational) -> (r: InfRational)
        requires
            self.wf(),
            o.wf(),
            self.div_spec(*o) is Some,
        ensures
            r == self.div_spec(*o).unwrap(),
            r.wf(),
    {
        let q = self.rat.div(&o.rat);
        let bc = self.inf.mul(&o.rat);
        let ad = self.rat.mul(&o.inf);
        let cc = o.rat.mul(&o.rat);
        InfRational { rat: q, inf: bc.sub(&ad).div(&cc) }
    }

    /// The negation `-self`.
    pub fn neg(&self) -> (r: InfRational)
        requires
            self.wf(),
            self.neg_spec() is Some,
        ensures
            r == self.neg_spec().unwrap(),
            r.wf(),
    {
        InfRational { rat: self.rat.neg(), inf: self.inf.neg() }
    }
}

/// The value `0 + arg · ε`.
pub fn inf_i(arg: i64) -> (r: InfRational)
    ensures
        r == (InfRational { rat: zero_spec(), inf: Rational { num: arg, den: 1 } }),
{
    InfRational::new(Rational::zero(), Rational::from_int(arg))
}

/// The value `rat + inf · ε`.
pub fn inf(rat: Rational, eps: Rational) -> (r: InfRational)
    ensures
        r == (InfRational { rat: rat, inf: eps }),
{
    InfRational::new(rat, eps)
}

/// The lexicographic order of well-formed values is a strict total order
/// whose equivalence is `same`.
pub proof fn lemma_inf_order(a: InfRational, b: InfRational, c: InfRational)
    requires
        a.wf(),
        b.wf(),
        c.wf(),
    ensures
        a.same(a),
        !a.less(a),
        a.leq(a),
        a.same(b) ==> b.same(a),
        a.less(b) || a.same(b) || b.less(a),
        a.less(b) ==> !b.less(a) && !a.same(b),
        !a.less(b) ==> b.leq(a),
        a.less(b) && b.less(c) ==> a.less(c),
        a.less(b) && b.same(c) ==> a.less(c),
        a.same(b) && b.less(c) ==> a.less(c),
        a.same(b) && b.same(c) ==> a.same(c),
        a.leq(b) && b.leq(c) ==> a.leq(c),
        a.leq(b) && b.less(c) ==> a.less(c),
        a.less(b) && b.leq(c) ==> a.less(c),
        a.leq(b) && b.leq(a) ==> a.same(b),
{
    lemma_order(a.rat, b.rat, c.rat);
    lemma_order(a.inf, b.inf, c.inf);
    lemma_order(b.rat, a.rat, c.rat);
    lemma_order(b.inf, a.inf, c.inf);
    lemma_order(a.rat, c.rat, b.rat);
    lemma_order(b.rat, c.rat, a.rat);
    lemma_order(c.rat, a.rat, b.rat);
    lemma_order(a.inf, c.inf, b.inf);
    lemma_order(b.inf, c.inf, a.inf);
    lemma_order(c.inf, a.inf, b.inf);
}

} // verus!
