//! Linear expressions: a sum of variables with rational coefficients plus a
//! known term.
use vstd::prelude::*;
use crate::rational::{Rational, zero_spec};
use crate::terms::{
    Term, has_key, key_index, lemma_empty_terms, lemma_insert_term, lemma_map_terms,
    lemma_remove_term, lemma_take_term, lemma_term_index, lemma_terms_len, lemma_update_term, sorted_terms,
    term_map,
};
use crate::var::VarId;

verus! {

/// Every coefficient is a well-formed finite rational.
pub open spec fn coeffs_ok(s: Seq<Term>) -> bool {
    forall|i: int| 0 <= i < s.len() ==> s[i].1.wf() && s[i].1.is_fin()
}

/// Every coefficient of the map is a well-formed finite rational.
pub open spec fn map_ok(m: Map<usize, Rational>) -> bool {
    forall|k: usize| m.contains_key(k) ==> m[k].wf() && m[k].is_fin()
}

/// The coefficient of `k`, zero when `k` is absent.
pub open spec fn or_zero(m: Map<usize, Rational>, k: usize) -> Rational {
    if m.contains_key(k) {
        m[k]
    } else {
        zero_spec()
    }
}

/// The map of a list of pairs, a later pair overriding an earlier one.
pub open spec fn pairs_map(s: Seq<Term>) -> Map<usize, Rational>
    decreases s.len(),
{
    if s.len() == 0 {
        Map::empty()
    } else {
        pairs_map(s.drop_last()).insert(s.last().0.0, s.last().1)
    }
}

/// Adding `b` to `a` coefficient by coefficient does not overflow.
pub open spec fn add_maps_ok(a: Map<usize, Rational>, b: Map<usize, Rational>) -> bool {
    forall|k: usize| b.contains_key(k) ==> (#[trigger] or_zero(a, k)).add_spec(b[k]) is Some
}

/// `a + b` coefficient by coefficient: a variable of `b` gets `a[k] + b[k]`
/// (with `0` for a missing `a[k]`); the others keep their coefficient.
pub open spec fn add_maps(a: Map<usize, Rational>, b: Map<usize, Rational>) -> Map<usize, Rational> {
    Map::new(
        |k: usize| a.contains_key(k) || b.contains_key(k),
        |k: usize|
            if b.contains_key(k) {
                or_zero(a, k).add_spec(b[k]).unwrap()
            } else {
                a[k]
            },
    )
}

/// Subtracting `b` from `a` coefficient by coefficient does not overflow.
pub open spec fn sub_maps_ok(a: Map<usize, Rational>, b: Map<usize, Rational>) -> bool {
    forall|k: usize| b.contains_key(k) ==> (#[trigger] or_zero(a, k)).sub_spec(b[k]) is Some
}

/// `a - b` coefficient by coefficient.
pub open spec fn sub_maps(a: Map<usize, Rational>, b: Map<usize, Rational>) -> Map<usize, Rational> {
    Map::new(
        |k: usize| a.contains_key(k) || b.contains_key(k),
        |k: usize|
            if b.contains_key(k) {
                or_zero(a, k).sub_spec(b[k]).unwrap()
            } else {
                a[k]
            },
    )
}

/// Every coefficient times `r` stays in range.
pub open spec fn scale_ok(m: Map<usize, Rational>, r: Rational) -> bool {
    forall|k: usize| m.contains_key(k) ==> (#[trigger] m[k]).mul_spec(r) is Some
}

/// Every coefficient divided by `r` stays in range.
pub open spec fn divide_ok(m: Map<usize, Rational>, r: Rational) -> bool {
    forall|k: usize| m.contains_key(k) ==> (#[trigger] m[k]).div_spec(r) is Some
}

/// Every coefficient can be negated.
pub open spec fn negate_ok(m: Map<usize, Rational>) -> bool {
    forall|k: usize| m.contains_key(k) ==> (#[trigger] m[k]).num != i64::MIN
}

pub open spec fn times(r: Rational) -> spec_fn(Rational) -> Rational {
    |c: Rational| c.mul_spec(r).unwrap()
}

pub open spec fn over(r: Rational) -> spec_fn(Rational) -> Rational {
    |c: Rational| c.div_spec(r).unwrap()
}

pub open spec fn negated() -> spec_fn(Rational) -> Rational {
    |c: Rational| c.neg_spec().unwrap()
}

/// `r` is a finite zero.
pub open spec fn is_zero_value(r: Rational) -> bool {
    r.is_fin() && r.num == 0
}

/// Substituting variable `var` of `a` by an expression with coefficients `l`
/// stays in range.
pub open spec fn subst_ok(a: Map<usize, Rational>, var: usize, l: Map<usize, Rational>) -> bool {
    forall|k: usize|
        l.contains_key(k) ==> {
            &&& (#[trigger] l[k]).mul_spec(a[var]) is Some
            &&& (a.remove(var).contains_key(k) ==> a[k].add_spec(l[k].mul_spec(a[var]).unwrap()) is Some)
        }
}

/// The coefficient of `k` after the substitution, when `k` is a variable of `l`.
pub open spec fn subst_coeff(a: Map<usize, Rational>, var: usize, l: Map<usize, Rational>, k: usize) -> Rational {
    if a.remove(var).contains_key(k) {
        a[k].add_spec(l[k].mul_spec(a[var]).unwrap()).unwrap()
    } else {
        l[k].mul_spec(a[var]).unwrap()
    }
}

/// Variable `k` was in `a` (other than `var`) and its coefficient cancels.
pub open spec fn cancels(a: Map<usize, Rational>, var: usize, l: Map<usize, Rational>, k: usize) -> bool {
    &&& l.contains_key(k)
    &&& a.remove(var).contains_key(k)
    &&& is_zero_value(subst_coeff(a, var, l, k))
}

/// The coefficients of `a` after replacing variable `var` by an expression
/// with coefficients `l`: `var` goes away, each variable of `l` gets
/// `a[k] + l[k]·a[var]` (or `l[k]·a[var]` when new), and a variable whose
/// coefficient becomes zero is dropped.
pub open spec fn subst_map(a: Map<usize, Rational>, var: usize, l: Map<usize, Rational>) -> Map<usize, Rational> {
    Map::new(
        |k: usize|
            if l.contains_key(k) {
                !cancels(a, var, l, k)
            } else {
                a.remove(var).contains_key(k)
            },
        |k: usize|
            if l.contains_key(k) {
                subst_coeff(a, var, l, k)
            } else {
                a[k]
            },
    )
}

/// A linear expression `Σ coeff · var + known_term`.
///
/// The terms are kept sorted by variable, one term per variable.
#[derive(Debug, Clone, PartialEq)]
pub struct Lin {
    pub vars: Vec<Term>,
    pub known_term: Rational,
}

impl Lin {
    pub open spec fn wf(self) -> bool {
        &&& sorted_terms(self.vars@)
        &&& coeffs_ok(self.vars@)
        &&& self.known_term.wf()
        &&& self.known_term.is_fin()
    }

    /// The coefficient of each variable of the expression.
    pub open spec fn coeffs(self) -> Map<usize, Rational> {
        term_map(self.vars@)
    }

    /// The coefficients of a well-formed expression are finite rationals.
    pub proof fn lemma_coeffs_ok(self)
        requires
            self.wf(),
        ensures
            map_ok(self.coeffs()),
            self.coeffs().dom().finite(),
            self.coeffs().len() == self.vars@.len(),
    {
        assert forall|k: usize| self.coeffs().contains_key(k) implies self.coeffs()[k].wf()
            && self.coeffs()[k].is_fin() by {
            let i = choose|i: int| 0 <= i < self.vars@.len() && self.vars@[i].0.0 == k;
            lemma_term_index(self.vars@, i);
        }
        lemma_terms_len(self.vars@);
    }

    /// The position of `k`, or where a term on `k` would be inserted.
    pub fn find(&self, k: usize) -> (r: Result<usize, usize>)
        requires
            sorted_terms(self.vars@),
        ensures
            r matches Ok(i) ==> i < self.vars.len() && self.vars@[i as int].0.0 == k,
            r matches Err(p) ==> p <= self.vars.len() && (forall|j: int|
                0 <= j < p ==> self.vars@[j].0.0 < k) && (forall|j: int|
                p <= j < self.vars.len() ==> self.vars@[j].0.0 > k),
            r is Ok <==> self.coeffs().contains_key(k),
            r matches Ok(i) ==> self.coeffs()[k] == self.vars@[i as int].1,
    {
        let mut i: usize = 0;
        while i < self.vars.len() && self.vars[i].0.0 < k
            invariant
                i <= self.vars.len(),
                forall|j: int| 0 <= j < i ==> self.vars@[j].0.0 < k,
            decreases self.vars.len() - i,
        {
            i = i + 1;
        }
        if i < self.vars.len() && self.vars[i].0.0 == k {
            proof {
                lemma_term_index(self.vars@, i as int);
            }
            Ok(i)
        } else {
            proof {
                assert forall|j: int| i <= j < self.vars.len() implies self.vars@[j].0.0 > k by {
                    if j > i {
                        assert(self.vars@[i as int].0.0 < self.vars@[j].0.0);
                    }
                }
                if has_key(self.vars@, k) {
                    let j = choose|j: int| 0 <= j < self.vars@.len() && self.vars@[j].0.0 == k;
                    assert(false);
                }
            }
            Err(i)
        }
    }

    /// The expression `Σ vars + known_term`, a later pair on a variable
    /// overriding an earlier one.
    pub fn new(vars: Vec<Term>, known_term: Rational) -> (r: Lin)
        requires
            coeffs_ok(vars@),
            known_term.wf(),
            known_term.is_fin(),
        ensures
            r.wf(),
            r.coeffs() == pairs_map(vars@),
            r.known_term == known_term,
    {
        let mut r = Lin { vars: Vec::new(), known_term };
        proof {
            lemma_empty_terms(r.vars@);
            assert(vars@.take(0) =~= Seq::<Term>::empty());
        }
        let n = vars.len();
        for i in 0..n
            invariant
                n == vars.len(),
                coeffs_ok(vars@),
                r.wf(),
                r.known_term == known_term,
                r.coeffs() == pairs_map(vars@.take(i as int)),
        {
            let t = vars[i];
            r.set_coeff(t.0.0, t.1);
            proof {
                let p = vars@.take(i + 1);
                assert(p.drop_last() =~= vars@.take(i as int));
                assert(p.last() == t);
            }
        }
        proof {
            assert(vars@.take(n as int) =~= vars@);
        }
        r
    }

    /// The expression `coeff · var`.
    pub fn new_var(var: VarId, coeff: Rational) -> (r: Lin)
        requires
            coeff.wf(),
            coeff.is_fin(),
        ensures
            r.wf(),
            r.coeffs() == Map::<usize, Rational>::empty().insert(var.0, coeff),
            r.known_term == zero_spec(),
    {
        let mut r = Lin { vars: Vec::new(), known_term: Rational::zero() };
        proof {
            lemma_empty_terms(r.vars@);
        }
        r.set_coeff(var.0, coeff);
        r
    }

    /// The constant expression `value`.
    pub fn from_rational(value: Rational) -> (r: Lin)
        requires
            value.wf(),
            value.is_fin(),
        ensures
            r.wf(),
            r.coeffs() == Map::<usize, Rational>::empty(),
            r.known_term == value,
    {
        let r = Lin { vars: Vec::new(), known_term: value };
        proof {
            lemma_empty_terms(r.vars@);
        }
        r
    }

    /// The constant expression `value`.
    pub fn from_int(value: i64) -> (r: Lin)
        ensures
            r.wf(),
            r.coeffs() == Map::<usize, Rational>::empty(),
            r.known_term == (Rational { num: value, den: 1 }),
    {
        Lin::from_rational(Rational::from_int(value))
    }

    /// The expression `1 · var`.
    pub fn from_var(var: VarId) -> (r: Lin)
        ensures
            r.wf(),
            r.coeffs() == Map::<usize, Rational>::empty().insert(var.0, Rational { num: 1, den: 1 }),
            r.known_term == zero_spec(),
    {
        Lin::new_var(var, Rational::from_int(1))
    }

    /// A copy of the expression.
    pub fn duplicate(&self) -> (r: Lin)
        ensures
            r.vars@ == self.vars@,
            r.known_term == self.known_term,
    {
        let mut vars: Vec<Term> = Vec::new();
        let n = self.vars.len();
        for i in 0..n
            invariant
                n == self.vars.len(),
                vars@ == self.vars@.take(i as int),
        {
            vars.push(self.vars[i]);
            proof {
                assert(vars@ =~= self.vars@.take(i + 1));
            }
        }
        proof {
            assert(vars@ =~= self.vars@);
        }
        Lin { vars, known_term: self.known_term }
    }

    /// The number of variables of the expression.
    pub fn len(&self) -> (n: usize)
        requires
            self.wf(),
        ensures
            n == self.coeffs().len(),
    {
        proof {
            self.lemma_coeffs_ok();
        }
        self.vars.len()
    }

    /// The expression has no variable.
    pub fn is_empty(&self) -> (b: bool)
        requires
            self.wf(),
        ensures
            b == (self.coeffs() == Map::<usize, Rational>::empty()),
    {
        proof {
            if self.vars@.len() == 0 {
                lemma_empty_terms(self.vars@);
            } else {
                lemma_term_index(self.vars@, 0);
            }
        }
        self.vars.len() == 0
    }

    /// The coefficient of `var`, if the expression has that variable.
    pub fn get(&self, var: VarId) -> (r: Option<Rational>)
        requires
            sorted_terms(self.vars@),
        ensures
            r == (if self.coeffs().contains_key(var.0) {
                Some(self.coeffs()[var.0])
            } else {
                None
            }),
    {
        match self.find(var.0) {
            Ok(i) => Some(self.vars[i].1),
            Err(_) => None,
        }
    }

    /// Sets the coefficient of variable `k` to `c`.
    pub fn set_coeff(&mut self, k: usize, c: Rational)
        requires
            old(self).wf(),
            c.wf(),
            c.is_fin(),
        ensures
            final(self).wf(),
            final(self).coeffs() == old(self).coeffs().insert(k, c),
            final(self).known_term == old(self).known_term,
    {
        match self.find(k) {
            Ok(i) => {
                proof {
                    lemma_update_term(self.vars@, i as int, c);
                    assert(self.vars@[i as int].0 == VarId(k));
                }
                self.vars.set(i, (VarId(k), c));
            },
            Err(p) => {
                proof {
                    lemma_insert_term(self.vars@, p as int, k, c);
                }
                self.vars.insert(p, (VarId(k), c));
            },
        }
    }

    /// Removes variable `k`, returning its coefficient if it was present.
    pub fn remove_var(&mut self, k: usize) -> (r: Option<Rational>)
        requires
            old(self).wf(),
        ensures
            final(self).wf(),
            final(self).coeffs() == old(self).coeffs().remove(k),
            final(self).known_term == old(self).known_term,
            r == (if old(self).coeffs().contains_key(k) {
                Some(old(self).coeffs()[k])
            } else {
                None
            }),
    {
        match self.find(k) {
            Ok(i) => {
                proof {
                    lemma_remove_term(self.vars@, i as int);
                }
                let t = self.vars.remove(i);
                Some(t.1)
            },
            Err(_) => {
                proof {
                    assert(old(self).coeffs().remove(k) =~= old(self).coeffs());
                }
                None
            },
        }
    }

    /// Adds `c` to the coefficient of variable `k` (from zero if absent).
    fn add_coeff(&mut self, k: usize, c: Rational)
        requires
            old(self).wf(),
            c.wf(),
            c.is_fin(),
            or_zero(old(self).coeffs(), k).add_spec(c) is Some,
        ensures
            final(self).wf(),
            final(self).coeffs() == old(self).coeffs().insert(
                k,
                or_zero(old(self).coeffs(), k).add_spec(c).unwrap(),
            ),
            final(self).known_term == old(self).known_term,
    {
        match self.find(k) {
            Ok(i) => {
                let s = self.vars[i].1.add(&c);
                self.set_coeff(k, s);
            },
            Err(_) => {
                let s = Rational::zero().add(&c);
                self.set_coeff(k, s);
            },
        }
    }

    /// Subtracts `c` from the coefficient of variable `k` (from zero if absent).
    fn sub_coeff(&mut self, k: usize, c: Rational)
        requires
            old(self).wf(),
            c.wf(),
            c.is_fin(),
            or_zero(old(self).coeffs(), k).sub_spec(c) is Some,
        ensures
            final(self).wf(),
            final(self).coeffs() == old(self).coeffs().insert(
                k,
                or_zero(old(self).coeffs(), k).sub_spec(c).unwrap(),
            ),
            final(self).known_term == old(self).known_term,
    {
        match self.find(k) {
            Ok(i) => {
                let s = self.vars[i].1.sub(&c);
                self.set_coeff(k, s);
            },
            Err(_) => {
                let s = Rational::zero().sub(&c);
                self.set_coeff(k, s);
            },
        }
    }

    /// `self += o`.
    pub fn add_assign(&mut self, o: &Lin)
        requires
            old(self).wf(),
            o.wf(),
            add_maps_ok(old(self).coeffs(), o.coeffs()),
            old(self).known_term.add_spec(o.known_term) is Some,
        ensures
            final(self).wf(),
            final(self).coeffs() == add_maps(old(self).coeffs(), o.coeffs()),
            final(self).known_term == old(self).known_term.add_spec(o.known_term).unwrap(),
    {
        let ghost a = self.coeffs();
        let n = o.vars.len();
        proof {
            lemma_empty_terms(o.vars@.take(0));
            assert(add_maps(a, Map::empty()) =~= a);
        }
        for i in 0..n
            invariant
                n == o.vars.len(),
                o.wf(),
                self.wf(),
                add_maps_ok(a, o.coeffs()),
                self.known_term == old(self).known_term,
                self.coeffs() == add_maps(a, term_map(o.vars@.take(i as int))),
        {
            let t = o.vars[i];
            proof {
                lemma_take_term(o.vars@, i as int);
                lemma_term_index(o.vars@, i as int);
                let b = term_map(o.vars@.take(i as int));
                assert(or_zero(self.coeffs(), t.0.0) == or_zero(a, t.0.0));
                assert(o.coeffs().contains_key(t.0.0));
            }
            self.add_coeff(t.0.0, t.1);
            proof {
                let b = term_map(o.vars@.take(i as int));
                assert(add_maps(a, b.insert(t.0.0, t.1)) =~= add_maps(a, b).insert(
                    t.0.0,
                    or_zero(a, t.0.0).add_spec(t.1).unwrap(),
                ));
            }
        }
        proof {
            assert(o.vars@.take(n as int) =~= o.vars@);
        }
        self.known_term = self.known_term.add(&o.known_term);
    }

    /// `self -= o`.
    pub fn sub_assign(&mut self, o: &Lin)
        requires
            old(self).wf(),
            o.wf(),
            sub_maps_ok(old(self).coeffs(), o.coeffs()),
            old(self).known_term.sub_spec(o.known_term) is Some,
        ensures
            final(self).wf(),
            final(self).coeffs() == sub_maps(old(self).coeffs(), o.coeffs()),
            final(self).known_term == old(self).known_term.sub_spec(o.known_term).unwrap(),
    {
        let ghost a = self.coeffs();
        let n = o.vars.len();
        proof {
            lemma_empty_terms(o.vars@.take(0));
            assert(sub_maps(a, Map::empty()) =~= a);
        }
        for i in 0..n
            invariant
                n == o.vars.len(),
                o.wf(),
                self.wf(),
                sub_maps_ok(a, o.coeffs()),
                self.known_term == old(self).known_term,
                self.coeffs() == sub_maps(a, term_map(o.vars@.take(i as int))),
        {
            let t = o.vars[i];
            proof {
                lemma_take_term(o.vars@, i as int);
                lemma_term_index(o.vars@, i as int);
                assert(or_zero(self.coeffs(), t.0.0) == or_zero(a, t.0.0));
                assert(o.coeffs().contains_key(t.0.0));
            }
            self.sub_coeff(t.0.0, t.1);
            proof {
                let b = term_map(o.vars@.take(i as int));
                assert(sub_maps(a, b.insert(t.0.0, t.1)) =~= sub_maps(a, b).insert(
                    t.0.0,
                    or_zero(a, t.0.0).sub_spec(t.1).unwrap(),
                ));
            }
        }
        proof {
            assert(o.vars@.take(n as int) =~= o.vars@);
        }
        self.known_term = self.known_term.sub(&o.known_term);
    }

    /// `self + o`.
    pub fn add(&self, o: &Lin) -> (r: Lin)
        requires
            self.wf(),
            o.wf(),
            add_maps_ok(self.coeffs(), o.coeffs()),
            self.known_term.add_spec(o.known_term) is Some,
        ensures
            r.wf(),
            r.coeffs() == add_maps(self.coeffs(), o.coeffs()),
            r.known_term == self.known_term.add_spec(o.known_term).unwrap(),
    {
        let mut r = self.duplicate();
        r.add_assign(o);
        r
    }

    /// `self - o`.
    pub fn sub(&self, o: &Lin) -> (r: Lin)
        requires
            self.wf(),
            o.wf(),
            sub_maps_ok(self.coeffs(), o.coeffs()),
            self.known_term.sub_spec(o.known_term) is Some,
        ensures
            r.wf(),
            r.coeffs() == sub_maps(self.coeffs(), o.coeffs()),
            r.known_term == self.known_term.sub_spec(o.known_term).unwrap(),
    {
        let mut r = self.duplicate();
        r.sub_assign(o);
        r
    }

    /// `self - o`, or `None` when a coefficient or the known term is out of range.
    pub fn checked_sub(&self, o: &Lin) -> (r: Option<Lin>)
        requires
            self.wf(),
            o.wf(),
        ensures
            r is Some <==> sub_maps_ok(self.coeffs(), o.coeffs()) && self.known_term.sub_spec(o.known_term) is Some,
            r matches Some(x) ==> x.wf() && x.coeffs() == sub_maps(self.coeffs(), o.coeffs()) && x.known_term
                == self.known_term.sub_spec(o.known_term).unwrap(),
    {
        let n = o.vars.len();
        let mut i: usize = 0;
        proof {
            self.lemma_coeffs_ok();
        }
        while i < n
            invariant
                n == o.vars@.len(),
                i <= n,
                self.wf(),
                o.wf(),
                map_ok(self.coeffs()),
                forall|j: int| 0 <= j < i ==> (#[trigger] or_zero(self.coeffs(), o.vars@[j].0.0)).sub_spec(o.vars@[j].1) is Some,
            decreases n - i,
        {
            let t = o.vars[i];
            proof {
                lemma_term_index(o.vars@, i as int);
            }
            let a = match self.get(t.0) {
                Some(a) => a,
                None => Rational::zero(),
            };
            if a.checked_sub(&t.1).is_none() {
                proof {
                    assert(o.coeffs().contains_key(t.0.0));
                    assert(o.coeffs()[t.0.0] == t.1);
                    assert(or_zero(self.coeffs(), t.0.0) == a);
                    assert(!sub_maps_ok(self.coeffs(), o.coeffs()));
                }
                return None;
            }
            i = i + 1;
        }
        proof {
            assert forall|k: usize| o.coeffs().contains_key(k) implies (#[trigger] or_zero(self.coeffs(), k)).sub_spec(o.coeffs()[k]) is Some by {
                let j = choose|j: int| 0 <= j < o.vars@.len() && o.vars@[j].0.0 == k;
                lemma_term_index(o.vars@, j);
            }
        }
        if self.known_term.checked_sub(&o.known_term).is_none() {
            return None;
        }
        Some(self.sub(o))
    }

    /// `self + c` for a rational `c`: only the known term changes.
    pub fn add_rat(&self, c: &Rational) -> (r: Lin)
        requires
            self.wf(),
            c.wf(),
            c.is_fin(),
            self.known_term.add_spec(*c) is Some,
        ensures
            r.wf(),
            r.coeffs() == self.coeffs(),
            r.known_term == self.known_term.add_spec(*c).unwrap(),
    {
        let mut r = self.duplicate();
        r.known_term = r.known_term.add(c);
        r
    }

    /// `self - c` for a rational `c`: only the known term changes.
    pub fn sub_rat(&self, c: &Rational) -> (r: Lin)
        requires
            self.wf(),
            c.wf(),
            c.is_fin(),
            self.known_term.sub_spec(*c) is Some,
        ensures
            r.wf(),
            r.coeffs() == self.coeffs(),
            r.known_term == self.known_term.sub_spec(*c).unwrap(),
    {
        let mut r = self.duplicate();
        r.known_term = r.known_term.sub(c);
        r
    }

    /// `self *= c`.
    pub fn mul_assign(&mut self, c: &Rational)
        requires
            old(self).wf(),
            c.wf(),
            c.is_fin(),
            scale_ok(old(self).coeffs(), *c),
            old(self).known_term.mul_spec(*c) is Some,
        ensures
            final(self).wf(),
            final(self).coeffs() == old(self).coeffs().map_values(times(*c)),
            final(self).known_term == old(self).known_term.mul_spec(*c).unwrap(),
    {
        let ghost s = self.vars@;
        let n = self.vars.len();
        for i in 0..n
            invariant
                n == self.vars.len(),
                n == s.len(),
                sorted_terms(s),
                coeffs_ok(s),
                c.wf(),
                c.is_fin(),
                scale_ok(term_map(s), *c),
                self.known_term == old(self).known_term,
                s == old(self).vars@,
                forall|j: int| 0 <= j < i ==> self.vars@[j] == (s[j].0, times(*c)(s[j].1)),
                forall|j: int| i <= j < n ==> self.vars@[j] == s[j],
                forall|j: int| 0 <= j < i ==> self.vars@[j].1.wf() && self.vars@[j].1.is_fin(),
        {
            let t = self.vars[i];
            proof {
                lemma_term_index(s, i as int);
            }
            let m = t.1.mul(c);
            self.vars.set(i, (t.0, m));
        }
        proof {
            lemma_map_terms(s, self.vars@, times(*c));
        }
        self.known_term = self.known_term.mul(c);
    }

    /// `self /= c`.
    pub fn div_assign(&mut self, c: &Rational)
        requires
            old(self).wf(),
            c.wf(),
            c.is_fin(),
            divide_ok(old(self).coeffs(), *c),
            old(self).known_term.div_spec(*c) is Some,
        ensures
            final(self).wf(),
            final(self).coeffs() == old(self).coeffs().map_values(over(*c)),
            final(self).known_term == old(self).known_term.div_spec(*c).unwrap(),
    {
        let ghost s = self.vars@;
        let n = self.vars.len();
        for i in 0..n
            invariant
                n == self.vars.len(),
                n == s.len(),
                sorted_terms(s),
                coeffs_ok(s),
                c.wf(),
                c.is_fin(),
                divide_ok(term_map(s), *c),
                self.known_term == old(self).known_term,
                s == old(self).vars@,
                forall|j: int| 0 <= j < i ==> self.vars@[j] == (s[j].0, over(*c)(s[j].1)),
                forall|j: int| i <= j < n ==> self.vars@[j] == s[j],
                forall|j: int| 0 <= j < i ==> self.vars@[j].1.wf() && self.vars@[j].1.is_fin(),
        {
            let t = self.vars[i];
            proof {
                lemma_term_index(s, i as int);
            }
            let m = t.1.div(c);
            self.vars.set(i, (t.0, m));
        }
        proof {
            lemma_map_terms(s, self.vars@, over(*c));
        }
        self.known_term = self.known_term.div(c);
    }

    /// Whether every coefficient and the known term can be divided by `c`.
    pub fn can_divide(&self, c: &Rational) -> (b: bool)
        requires
            self.wf(),
            c.wf(),
        ensures
            b == (divide_ok(self.coeffs(), *c) && self.known_term.div_spec(*c) is Some),
    {
        let n = self.vars.len();
        let mut i: usize = 0;
        while i < n
            invariant
                n == self.vars@.len(),
                i <= n,
                self.wf(),
                c.wf(),
                forall|j: int| 0 <= j < i ==> (#[trigger] self.vars@[j]).1.div_spec(*c) is Some,
            decreases n - i,
        {
            if self.vars[i].1.checked_div(c).is_none() {
                proof {
                    lemma_term_index(self.vars@, i as int);
                    let k = self.vars@[i as int].0.0;
                    assert(self.coeffs().contains_key(k));
                }
                return false;
            }
            i = i + 1;
        }
        proof {
            assert forall|k: usize| self.coeffs().contains_key(k) implies (#[trigger] self.coeffs()[k]).div_spec(*c) is Some by {
                let j = choose|j: int| 0 <= j < self.vars@.len() && self.vars@[j].0.0 == k;
                lemma_term_index(self.vars@, j);
            }
        }
        self.known_term.checked_div(c).is_some()
    }

    /// Whether substituting `var` by `lin` stays in range.
    pub fn can_substitute(&self, var: VarId, lin: &Lin) -> (b: bool)
        requires
            self.wf(),
            lin.wf(),
            self.coeffs().contains_key(var.0),
        ensures
            b == (subst_ok(self.coeffs(), var.0, lin.coeffs()) && lin.known_term.mul_spec(self.coeffs()[var.0]) is Some
                && self.known_term.add_spec(lin.known_term.mul_spec(self.coeffs()[var.0]).unwrap()) is Some),
    {
        let ghost a = self.coeffs();
        let ghost l = lin.coeffs();
        let av = self.get(var).unwrap();
        proof {
            self.lemma_coeffs_ok();
            lin.lemma_coeffs_ok();
        }
        let n = lin.vars.len();
        let mut i: usize = 0;
        while i < n
            invariant
                n == lin.vars@.len(),
                i <= n,
                self.wf(),
                lin.wf(),
                a == self.coeffs(),
                l == lin.coeffs(),
                a.contains_key(var.0),
                av == a[var.0],
                av.wf(),
                forall|j: int| 0 <= j < i ==> {
                    &&& (#[trigger] lin.vars@[j]).1.mul_spec(av) is Some
                    &&& (a.remove(var.0).contains_key(lin.vars@[j].0.0) ==> a[lin.vars@[j].0.0].add_spec(
                        lin.vars@[j].1.mul_spec(av).unwrap(),
                    ) is Some)
                },
            decreases n - i,
        {
            let t = lin.vars[i];
            proof {
                lemma_term_index(lin.vars@, i as int);
                assert(l.contains_key(t.0.0) && l[t.0.0] == t.1);
            }
            let p = match t.1.checked_mul(&av) {
                Some(p) => p,
                None => {
                    return false;
                },
            };
            if t.0.0 != var.0 {
                match self.get(t.0) {
                    Some(ak) => {
                        if ak.checked_add(&p).is_none() {
                            proof {
                                assert(a.remove(var.0).contains_key(t.0.0));
                            }
                            return false;
                        }
                    },
                    None => {},
                }
            }
            i = i + 1;
        }
        proof {
            assert forall|k: usize| l.contains_key(k) implies {
                &&& (#[trigger] l[k]).mul_spec(a[var.0]) is Some
                &&& (a.remove(var.0).contains_key(k) ==> a[k].add_spec(l[k].mul_spec(a[var.0]).unwrap()) is Some)
            } by {
                let j = choose|j: int| 0 <= j < lin.vars@.len() && lin.vars@[j].0.0 == k;
                lemma_term_index(lin.vars@, j);
            }
        }
        match lin.known_term.checked_mul(&av) {
            Some(p) => self.known_term.checked_add(&p).is_some(),
            None => false,
        }
    }

    /// `self · c`.
    pub fn mul_rat(&self, c: &Rational) -> (r: Lin)
        requires
            self.wf(),
            c.wf(),
            c.is_fin(),
            scale_ok(self.coeffs(), *c),
            self.known_term.mul_spec(*c) is Some,
        ensures
            r.wf(),
            r.coeffs() == self.coeffs().map_values(times(*c)),
            r.known_term == self.known_term.mul_spec(*c).unwrap(),
    {
        let mut r = self.duplicate();
        r.mul_assign(c);
        r
    }

    /// `self / c`.
    pub fn div_rat(&self, c: &Rational) -> (r: Lin)
        requires
            self.wf(),
            c.wf(),
            c.is_fin(),
            divide_ok(self.coeffs(), *c),
            self.known_term.div_spec(*c) is Some,
        ensures
            r.wf(),
            r.coeffs() == self.coeffs().map_values(over(*c)),
            r.known_term == self.known_term.div_spec(*c).unwrap(),
    {
        let mut r = self.duplicate();
        r.div_assign(c);
        r
    }

    /// Negates every coefficient in place.
    fn negate_coeffs(&mut self)
        requires
            old(self).wf(),
            negate_ok(old(self).coeffs()),
        ensures
            final(self).wf(),
            final(self).coeffs() == old(self).coeffs().map_values(negated()),
            final(self).known_term == old(self).known_term,
    {
        let ghost s = self.vars@;
        let n = self.vars.len();
        for i in 0..n
            invariant
                n == self.vars.len(),
                n == s.len(),
                sorted_terms(s),
                coeffs_ok(s),
                negate_ok(term_map(s)),
                self.known_term == old(self).known_term,
                s == old(self).vars@,
                forall|j: int| 0 <= j < i ==> self.vars@[j] == (s[j].0, negated()(s[j].1)),
                forall|j: int| i <= j < n ==> self.vars@[j] == s[j],
                forall|j: int| 0 <= j < i ==> self.vars@[j].1.wf() && self.vars@[j].1.is_fin(),
        {
            let t = self.vars[i];
            proof {
                lemma_term_index(s, i as int);
            }
            let m = t.1.neg();
            self.vars.set(i, (t.0, m));
        }
        proof {
            lemma_map_terms(s, self.vars@, negated());
        }
    }

    /// `-self`.
    pub fn neg(&self) -> (r: Lin)
        requires
            self.wf(),
            negate_ok(self.coeffs()),
            self.known_term.num != i64::MIN,
        ensures
            r.wf(),
            r.coeffs() == self.coeffs().map_values(negated()),
            r.known_term == self.known_term.neg_spec().unwrap(),
    {
        let mut r = self.duplicate();
        r.negate_coeffs();
        r.known_term = r.known_term.neg();
        r
    }

    /// `c - self` for a rational `c`.
    pub fn rsub_rat(&self, c: &Rational) -> (r: Lin)
        requires
            self.wf(),
            c.wf(),
            c.is_fin(),
            negate_ok(self.coeffs()),
            c.sub_spec(self.known_term) is Some,
        ensures
            r.wf(),
            r.coeffs() == self.coeffs().map_values(negated()),
            r.known_term == c.sub_spec(self.known_term).unwrap(),
    {
        let mut r = self.duplicate();
        r.negate_coeffs();
        r.known_term = c.sub(&r.known_term);
        r
    }
}

/// Pushing `e` adds exactly `e` to the elements of `s`.
pub proof fn lemma_push_contains<T>(s: Seq<T>, e: T, x: T)
    ensures
        s.push(e).contains(x) <==> (s.contains(x) || x == e),
{
    if s.contains(x) {
        let i = choose|i: int| 0 <= i < s.len() && s[i] == x;
        assert(s.push(e)[i] == x);
    }
    if x == e {
        assert(s.push(e)[s.len() as int] == e);
    }
    if s.push(e).contains(x) {
        let i = choose|i: int| 0 <= i < s.push(e).len() && s.push(e)[i] == x;
        if i < s.len() {
            assert(s[i] == x);
        }
    }
}

impl Lin {
    /// Substitutes variable `var` with the expression `lin`.
    ///
    /// If this expression is `a·var + Σ a_j x_j + K` and `var = Σ b_k x_k + K'`,
    /// it becomes `Σ a_j x_j + a·(Σ b_k x_k + K') + K`; a variable whose
    /// coefficient becomes zero is removed.
    ///
    /// Returns `(added, removed)`: the variables of `lin` that were not in the
    /// expression, and the variables that left it: `var` and those whose
    /// coefficient cancelled.
    pub fn substitute(&mut self, var: VarId, lin: &Lin) -> (r: (Vec<VarId>, Vec<VarId>))
        requires
            old(self).wf(),
            lin.wf(),
            old(self).coeffs().contains_key(var.0),
            subst_ok(old(self).coeffs(), var.0, lin.coeffs()),
            old(self).known_term.add_spec(
                lin.known_term.mul_spec(old(self).coeffs()[var.0]).unwrap(),
            ) is Some,
            lin.known_term.mul_spec(old(self).coeffs()[var.0]) is Some,
        ensures
            final(self).wf(),
            final(self).coeffs() == subst_map(old(self).coeffs(), var.0, lin.coeffs()),
            final(self).known_term == old(self).known_term.add_spec(
                lin.known_term.mul_spec(old(self).coeffs()[var.0]).unwrap(),
            ).unwrap(),
            forall|x: VarId|
                r.0@.contains(x) <==> (lin.coeffs().contains_key(x.0) && !old(
                    self,
                ).coeffs().remove(var.0).contains_key(x.0)),
            forall|x: VarId|
                r.1@.contains(x) <==> (x == var || cancels(
                    old(self).coeffs(),
                    var.0,
                    lin.coeffs(),
                    x.0,
                )),
    {
        let ghost a = self.coeffs();
        let ghost base = a.remove(var.0);
        proof {
            old(self).lemma_coeffs_ok();
            lin.lemma_coeffs_ok();
        }
        let mut added: Vec<VarId> = Vec::new();
        let mut removed: Vec<VarId> = Vec::new();
        let coeff = self.remove_var(var.0).unwrap();
        let ghost r0 = removed@;
        removed.push(var);
        proof {
            assert forall|x: VarId| removed@.contains(x) <==> x == var by {
                lemma_push_contains(r0, var, x);
            }
        }
        let n = lin.vars.len();
        proof {
            lemma_empty_terms(lin.vars@.take(0));
            assert(subst_map(a, var.0, Map::empty()) =~= base);
        }
        for i in 0..n
            invariant
                n == lin.vars.len(),
                lin.wf(),
                self.wf(),
                map_ok(a),
                a.contains_key(var.0),
                base == a.remove(var.0),
                coeff == a[var.0],
                coeff.wf(),
                coeff.is_fin(),
                subst_ok(a, var.0, lin.coeffs()),
                self.known_term == old(self).known_term,
                self.coeffs() == subst_map(a, var.0, term_map(lin.vars@.take(i as int))),
                forall|x: VarId|
                    added@.contains(x) <==> (term_map(lin.vars@.take(i as int)).contains_key(x.0)
                        && !base.contains_key(x.0)),
                forall|x: VarId|
                    removed@.contains(x) <==> (x == var || cancels(
                        a,
                        var.0,
                        term_map(lin.vars@.take(i as int)),
                        x.0,
                    )),
        {
            let t = lin.vars[i];
            let ghost li = term_map(lin.vars@.take(i as int));
            proof {
                lemma_take_term(lin.vars@, i as int);
                lemma_term_index(lin.vars@, i as int);
                assert(lin.coeffs().contains_key(t.0.0));
                assert(lin.coeffs()[t.0.0] == t.1);
            }
            let ghost li2 = li.insert(t.0.0, t.1);
            let prod = t.1.mul(&coeff);
            match self.find(t.0.0) {
                Ok(j) => {
                    proof {
                        assert(base.contains_key(t.0.0));
                        assert(self.coeffs()[t.0.0] == a[t.0.0]);
                    }
                    let s = self.vars[j].1.add(&prod);
                    if s.is_zero() {
                        self.remove_var(t.0.0);
                        let ghost r0 = removed@;
                        removed.push(t.0);
                        proof {
                            assert(subst_map(a, var.0, li2) =~= subst_map(a, var.0, li).remove(
                                t.0.0,
                            ));
                            assert forall|x: VarId| removed@.contains(x) <==> (x == var || cancels(
                                a,
                                var.0,
                                li2,
                                x.0,
                            )) by {
                                lemma_push_contains(r0, t.0, x);
                                if x.0 == t.0.0 {
                                    assert(x == t.0);
                                } else {
                                    assert(cancels(a, var.0, li2, x.0) == cancels(a, var.0, li, x.0));
                                }
                            }
                        }
                    } else {
                        self.set_coeff(t.0.0, s);
                        proof {
                            assert(subst_map(a, var.0, li2) =~= subst_map(a, var.0, li).insert(
                                t.0.0,
                                s,
                            ));
                            assert forall|x: VarId| removed@.contains(x) <==> (x == var || cancels(
                                a,
                                var.0,
                                li2,
                                x.0,
                            )) by {
                                if x.0 == t.0.0 {
                                    assert(x == t.0);
                                } else {
                                    assert(cancels(a, var.0, li2, x.0) == cancels(a, var.0, li, x.0));
                                }
                            }
                        }
                    }
                    proof {
                        assert forall|x: VarId| added@.contains(x) <==> (li2.contains_key(x.0)
                            && !base.contains_key(x.0)) by {
                            if x.0 == t.0.0 {
                            } else {
                                assert(li2.contains_key(x.0) == li.contains_key(x.0));
                            }
                        }
                    }
                },
                Err(_) => {
                    proof {
                        assert(!base.contains_key(t.0.0));
                    }
                    self.set_coeff(t.0.0, prod);
                    let ghost a0 = added@;
                    added.push(t.0);
                    proof {
                        assert(subst_map(a, var.0, li2) =~= subst_map(a, var.0, li).insert(
                            t.0.0,
                            prod,
                        ));
                        assert forall|x: VarId| added@.contains(x) <==> (li2.contains_key(x.0)
                            && !base.contains_key(x.0)) by {
                            lemma_push_contains(a0, t.0, x);
                            if x.0 == t.0.0 {
                                assert(x == t.0);
                            } else {
                                assert(li2.contains_key(x.0) == li.contains_key(x.0));
                            }
                        }
                        assert forall|x: VarId| removed@.contains(x) <==> (x == var || cancels(
                            a,
                            var.0,
                            li2,
                            x.0,
                        )) by {
                            if x.0 != t.0.0 {
                                assert(cancels(a, var.0, li2, x.0) == cancels(a, var.0, li, x.0));
                            }
                        }
                    }
                },
            }
        }
        proof {
            assert(lin.vars@.take(n as int) =~= lin.vars@);
        }
        let kp = lin.known_term.mul(&coeff);
        self.known_term = self.known_term.add(&kp);
        (added, removed)
    }
}

/// The expression `coeff · idx`.
pub fn vc(idx: VarId, coeff: i64) -> (r: Lin)
    ensures
        r.wf(),
        r.coeffs() == Map::<usize, Rational>::empty().insert(idx.0, Rational { num: coeff, den: 1 }),
        r.known_term == zero_spec(),
{
    Lin::new_var(idx, Rational::from_int(coeff))
}

/// The expression `1 · idx`.
pub fn v(idx: VarId) -> (r: Lin)
    ensures
        r.wf(),
        r.coeffs() == Map::<usize, Rational>::empty().insert(idx.0, Rational { num: 1, den: 1 }),
        r.known_term == zero_spec(),
{
    Lin::from_var(idx)
}

} // verus!
