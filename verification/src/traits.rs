//! Equality, order and conversions of the numeric types, by value.
use vstd::prelude::*;
use core::cmp::Ordering;
use crate::inf_rational::{InfRational, lift, lift_int};
use crate::rational::Rational;

verus! {

impl PartialEq for Rational {
    fn eq(&self, other: &Rational) -> (r: bool) {
        self.same_value(other)
    }
}

impl vstd::std_specs::cmp::PartialEqSpecImpl for Rational {
    open spec fn obeys_eq_spec() -> bool {
        true
    }

    open spec fn eq_spec(&self, other: &Rational) -> bool {
        self.same(*other)
    }
}

impl PartialOrd for Rational {
    fn partial_cmp(&self, other: &Rational) -> (r: Option<Ordering>) {
        if self.less_than(other) {
            Some(Ordering::Less)
        } else if other.less_than(self) {
            Some(Ordering::Greater)
        } else {
            Some(Ordering::Equal)
        }
    }
}

impl vstd::std_specs::cmp::PartialOrdSpecImpl for Rational {
    open spec fn obeys_partial_cmp_spec() -> bool {
        true
    }

    open spec fn partial_cmp_spec(&self, other: &Rational) -> Option<Ordering> {
        if self.less(*other) {
            Some(Ordering::Less)
        } else if other.less(*self) {
            Some(Ordering::Greater)
        } else {
            Some(Ordering::Equal)
        }
    }
}

impl PartialEq for InfRational {
    fn eq(&self, other: &InfRational) -> (r: bool) {
        self.same_value(other)
    }
}

impl vstd::std_specs::cmp::PartialEqSpecImpl for InfRational {
    open spec fn obeys_eq_spec() -> bool {
        true
    }

    open spec fn eq_spec(&self, other: &InfRational) -> bool {
        self.same(*other)
    }
}

impl PartialOrd for InfRational {
    fn partial_cmp(&self, other: &InfRational) -> (r: Option<Ordering>) {
        if self.less_than(other) {
            Some(Ordering::Less)
        } else if other.less_than(self) {
            Some(Ordering::Greater)
        } else {
            Some(Ordering::Equal)
        }
    }
}

impl vstd::std_specs::cmp::PartialOrdSpecImpl for InfRational {
    open spec fn obeys_partial_cmp_spec() -> bool {
        true
    }

    open spec fn partial_cmp_spec(&self, other: &InfRational) -> Option<Ordering> {
        if self.less(*other) {
            Some(Ordering::Less)
        } else if other.less(*self) {
            Some(Ordering::Greater)
        } else {
            Some(Ordering::Equal)
        }
    }
}

impl PartialEq<Rational> for InfRational {
    fn eq(&self, other: &Rational) -> (r: bool) {
        self.same_value(&InfRational::from_rational(*other))
    }
}

impl vstd::std_specs::cmp::PartialEqSpecImpl<Rational> for InfRational {
    open spec fn obeys_eq_spec() -> bool {
        true
    }

    open spec fn eq_spec(&self, other: &Rational) -> bool {
        self.same(lift(*other))
    }
}

impl PartialOrd<Rational> for InfRational {
    fn partial_cmp(&self, other: &Rational) -> (r: Option<Ordering>) {
        let o = InfRational::from_rational(*other);
        if self.less_than(&o) {
            Some(Ordering::Less)
        } else if o.less_than(self) {
            Some(Ordering::Greater)
        } else {
            Some(Ordering::Equal)
        }
    }
}

impl vstd::std_specs::cmp::PartialOrdSpecImpl<Rational> for InfRational {
    open spec fn obeys_partial_cmp_spec() -> bool {
        true
    }

    open spec fn partial_cmp_spec(&self, other: &Rational) -> Option<Ordering> {
        if self.less(lift(*other)) {
            Some(Ordering::Less)
        } else if lift(*other).less(*self) {
            Some(Ordering::Greater)
        } else {
            Some(Ordering::Equal)
        }
    }
}

impl PartialEq<i64> for InfRational {
    fn eq(&self, other: &i64) -> (r: bool) {
        self.same_value(&InfRational::from_int(*other))
    }
}

impl vstd::std_specs::cmp::PartialEqSpecImpl<i64> for InfRational {
    open spec fn obeys_eq_spec() -> bool {
        true
    }

    open spec fn eq_spec(&self, other: &i64) -> bool {
        self.same(lift_int(*other))
    }
}

impl PartialOrd<i64> for InfRational {
    fn partial_cmp(&self, other: &i64) -> (r: Option<Ordering>) {
        let o = InfRational::from_int(*other);
        if self.less_than(&o) {
            Some(Ordering::Less)
        } else if o.less_than(self) {
            Some(Ordering::Greater)
        } else {
            Some(Ordering::Equal)
        }
    }
}

impl vstd::std_specs::cmp::PartialOrdSpecImpl<i64> for InfRational {
    open spec fn obeys_partial_cmp_spec() -> bool {
        true
    }

    open spec fn partial_cmp_spec(&self, other: &i64) -> Option<Ordering> {
        if self.less(lift_int(*other)) {
            Some(Ordering::Less)
        } else if lift_int(*other).less(*self) {
            Some(Ordering::Greater)
        } else {
            Some(Ordering::Equal)
        }
    }
}

impl From<i64> for Rational {
    fn from(v: i64) -> (r: Rational) {
        Rational::from_int(v)
    }
}

impl vstd::std_specs::convert::FromSpecImpl<i64> for Rational {
    open spec fn obeys_from_spec() -> bool {
        true
    }

    open spec fn from_spec(v: i64) -> Rational {
        Rational { num: v, den: 1 }
    }
}

impl From<Rational> for InfRational {
    fn from(r: Rational) -> (x: InfRational) {
        InfRational::from_rational(r)
    }
}

impl vstd::std_specs::convert::FromSpecImpl<Rational> for InfRational {
    open spec fn obeys_from_spec() -> bool {
        true
    }

    open spec fn from_spec(r: Rational) -> InfRational {
        crate::inf_rational::lift(r)
    }
}

impl From<i64> for InfRational {
    fn from(v: i64) -> (x: InfRational) {
        InfRational::from_int(v)
    }
}

impl vstd::std_specs::convert::FromSpecImpl<i64> for InfRational {
    open spec fn obeys_from_spec() -> bool {
        true
    }

    open spec fn from_spec(v: i64) -> InfRational {
        crate::inf_rational::lift_int(v)
    }
}

} // verus!
