//! Laws on the values of expressions: the least and greatest values within
//! the bounds enclose the current value, and the value of a sum is the sum
//! of the values.
use vstd::prelude::*;
use vstd::arithmetic::div_mod::{lemma_div_by_self, lemma_small_mod};
use crate::engine::{Engine, fold_terms, lemma_fold_none};
use crate::inf_rational::{InfRational, neg_inf, pos_inf};
use crate::exact::{
    Q, lemma_distrib, lemma_exact_add, lemma_msum_lin, lemma_msum_pos, lemma_pos, lemma_qadd_cong, lemma_qeq_sym,
    lemma_qeq_trans, lemma_ring, lemma_swap, msum, pos, qadd, qeq, qmul, qone, qz, rq, term_q,
};
use crate::lin::{Lin, add_maps, add_maps_ok, or_zero};
use crate::numtheory::{gcd, lemma_norm};
use crate::rational::{Rational, frac, zero_spec};
use crate::rows::{
    holds, known_part, lemma_fold_part, lemma_lin_pos, lemma_parts_pos, lemma_row_monotone, part, parts, vals_fin,
};
use crate::terms::{Term, lemma_term_index};

verus! {

/// Sums of contributions that agree term by term agree.
proof fn lemma_fold_congr(
    ts: Seq<Term>,
    k: Rational,
    f: spec_fn(Term) -> Option<InfRational>,
    g: spec_fn(Term) -> Option<InfRational>,
)
    requires
        forall|i: int| 0 <= i < ts.len() ==> f(#[trigger] ts[i]) == g(ts[i]),
    ensures
        fold_terms(ts, k, f) == fold_terms(ts, k, g),
    decreases ts.len(),
{
    if ts.len() > 0 {
        let init = ts.drop_last();
        assert forall|i: int| 0 <= i < init.len() implies f(#[trigger] init[i]) == g(init[i]) by {
            assert(init[i] == ts[i]);
        }
        lemma_fold_congr(init, k, f, g);
        assert(f(ts[ts.len() - 1]) == g(ts[ts.len() - 1]));
    }
}

/// The sum of two finite rationals, when in range, is finite and well formed.
proof fn lemma_sum_fin(a: Rational, p: Rational)
    requires
        a.wf() && a.is_fin(),
        p.wf() && p.is_fin(),
        a.add_spec(p) is Some,
    ensures
        a.add_spec(p).unwrap().wf(),
        a.add_spec(p).unwrap().is_fin(),
{
    assert(a.den * p.den > 0) by (nonlinear_arith)
        requires
            a.den > 0,
            p.den > 0,
    ;
    lemma_norm(a.num * p.den + p.num * a.den, a.den * p.den);
}

/// When no contribution has a rational part `+∞`, neither has the sum, and
/// a contribution `-∞` makes the sum `-∞`.
proof fn lemma_fold_low(ts: Seq<Term>, k: Rational, f: spec_fn(Term) -> Option<InfRational>)
    requires
        k.wf() && k.is_fin(),
        forall|i: int| 0 <= i < ts.len() && (#[trigger] f(ts[i])) is Some ==> f(ts[i]).unwrap().rat.wf()
            && !f(ts[i]).unwrap().rat.is_pinf(),
        fold_terms(ts, k, f) is Some,
    ensures
        fold_terms(ts, k, f).unwrap().rat.wf(),
        !fold_terms(ts, k, f).unwrap().rat.is_pinf(),
        forall|i: int| 0 <= i < ts.len() && (#[trigger] f(ts[i])) is Some && f(ts[i]).unwrap().rat.is_ninf()
            ==> fold_terms(ts, k, f).unwrap().rat.is_ninf(),
    decreases ts.len(),
{
    if ts.len() > 0 {
        let init = ts.drop_last();
        let last = ts.len() - 1;
        assert forall|i: int| 0 <= i < init.len() implies init[i] == ts[i] by {}
        assert(f(ts[last]) is Some);
        lemma_fold_low(init, k, f);
        let a = fold_terms(init, k, f).unwrap().rat;
        let p = f(ts[last]).unwrap().rat;
        if a.is_fin() && p.is_fin() {
            lemma_sum_fin(a, p);
        }
        assert forall|i: int| 0 <= i < ts.len() && (#[trigger] f(ts[i])) is Some && f(ts[i]).unwrap().rat.is_ninf()
            implies fold_terms(ts, k, f).unwrap().rat.is_ninf() by {
            if i < last {
                assert(init[i] == ts[i]);
            }
        }
    }
}

/// When no contribution has a rational part `-∞`, neither has the sum, and
/// a contribution `+∞` makes the sum `+∞`.
proof fn lemma_fold_high(ts: Seq<Term>, k: Rational, f: spec_fn(Term) -> Option<InfRational>)
    requires
        k.wf() && k.is_fin(),
        forall|i: int| 0 <= i < ts.len() && (#[trigger] f(ts[i])) is Some ==> f(ts[i]).unwrap().rat.wf()
            && !f(ts[i]).unwrap().rat.is_ninf(),
        fold_terms(ts, k, f) is Some,
    ensures
        fold_terms(ts, k, f).unwrap().rat.wf(),
        !fold_terms(ts, k, f).unwrap().rat.is_ninf(),
        forall|i: int| 0 <= i < ts.len() && (#[trigger] f(ts[i])) is Some && f(ts[i]).unwrap().rat.is_pinf()
            ==> fold_terms(ts, k, f).unwrap().rat.is_pinf(),
    decreases ts.len(),
{
    if ts.len() > 0 {
        let init = ts.drop_last();
        let last = ts.len() - 1;
        assert forall|i: int| 0 <= i < init.len() implies init[i] == ts[i] by {}
        assert(f(ts[last]) is Some);
        lemma_fold_high(init, k, f);
        let a = fold_terms(init, k, f).unwrap().rat;
        let p = f(ts[last]).unwrap().rat;
        if a.is_fin() && p.is_fin() {
            lemma_sum_fin(a, p);
        }
        assert forall|i: int| 0 <= i < ts.len() && (#[trigger] f(ts[i])) is Some && f(ts[i]).unwrap().rat.is_pinf()
            implies fold_terms(ts, k, f).unwrap().rat.is_pinf() by {
            if i < last {
                assert(init[i] == ts[i]);
            }
        }
    }
}

/// Zero over a positive denominator is the rational zero.
proof fn lemma_frac_zero(d: int)
    requires
        0 < d,
    ensures
        frac(0, d) == Some(zero_spec()),
{
    lemma_small_mod(0, d as nat);
    assert(gcd(d as nat, 0) == d);
    assert(gcd(0, d as nat) == gcd(d as nat, 0));
    lemma_div_by_self(d);
}

/// A finite value times a finite rational, when in range, is a finite value.
proof fn lemma_scale_fin(x: InfRational, c: Rational)
    requires
        x.wf() && x.is_fin(),
        c.wf() && c.is_fin(),
        x.mul_rat_spec(c) is Some,
    ensures
        x.mul_rat_spec(c).unwrap().wf(),
        x.mul_rat_spec(c).unwrap().is_fin(),
{
    assert(x.rat.den * c.den > 0) by (nonlinear_arith)
        requires
            x.rat.den > 0,
            c.den > 0,
    ;
    assert(x.inf.den * c.den > 0) by (nonlinear_arith)
        requires
            x.inf.den > 0,
            c.den > 0,
    ;
    lemma_norm(x.rat.num * c.num, x.rat.den * c.den);
    lemma_norm(x.inf.num * c.num, x.inf.den * c.den);
}

/// A value times a zero coefficient is zero, whatever the value.
proof fn lemma_scale_zero(x: InfRational, y: InfRational, c: Rational)
    requires
        x.wf() && x.is_fin(),
        y == pos_inf() || y == neg_inf(),
        c.wf() && c.is_fin() && c.num == 0,
    ensures
        x.mul_rat_spec(c) == y.mul_rat_spec(c),
{
    assert(x.rat.num * c.num == 0);
    assert(x.inf.num * c.num == 0);
    assert(0 * c.num == 0);
    assert(x.rat.den * c.den > 0) by (nonlinear_arith)
        requires
            x.rat.den > 0,
            c.den > 0,
    ;
    assert(x.inf.den * c.den > 0) by (nonlinear_arith)
        requires
            x.inf.den > 0,
            c.den > 0,
    ;
    lemma_frac_zero(x.rat.den * c.den);
    lemma_frac_zero(x.inf.den * c.den);
    lemma_frac_zero(1 * c.den);
}

/// A sum that exists has every contribution.
proof fn lemma_fold_parts_some(ts: Seq<Term>, k: Rational, f: spec_fn(Term) -> Option<InfRational>)
    requires
        fold_terms(ts, k, f) is Some,
    ensures
        forall|i: int| 0 <= i < ts.len() ==> (#[trigger] f(ts[i])) is Some,
{
    assert forall|i: int| 0 <= i < ts.len() implies (#[trigger] f(ts[i])) is Some by {
        if f(ts[i]) is None {
            let p = ts.take(i + 1);
            assert(p.last() == ts[i]);
            assert(fold_terms(p, k, f) is None);
            lemma_fold_none(ts, k, f, i + 1);
        }
    }
}

/// The bound of `x` that the least (`low`) or greatest value of `l` takes:
/// the lower bound for a positive coefficient when `low`, and so on.
spec fn side(e: &Engine, l: Lin, x: int, low: bool) -> InfRational {
    if (l.coeffs()[x as usize].num > 0) == low {
        e.lower(x)
    } else {
        e.upper(x)
    }
}

/// The contribution of a term to the least or greatest value of `l`
/// scales the bound on its side; its rational part is never the infinity
/// of the other side, and is finite when the bound is infinite only for a
/// zero coefficient.
proof fn lemma_side_term(e: &Engine, l: Lin, i: int, low: bool)
    requires
        e.inv(),
        e.lin_ok(l),
        0 <= i < l.vars@.len(),
    ensures
        l.vars@[i].0.0 < e.num_vars(),
        l.coeffs()[l.vars@[i].0.0] == l.vars@[i].1,
        (if low { e.lower_term()(l.vars@[i]) } else { e.upper_term()(l.vars@[i]) })
            == side(e, l, l.vars@[i].0.0 as int, low).mul_rat_spec(l.vars@[i].1),
        side(e, l, l.vars@[i].0.0 as int, low).is_fin() || side(e, l, l.vars@[i].0.0 as int, low) == pos_inf()
            || side(e, l, l.vars@[i].0.0 as int, low) == neg_inf(),
        side(e, l, l.vars@[i].0.0 as int, low).wf(),
        side(e, l, l.vars@[i].0.0 as int, low).mul_rat_spec(l.vars@[i].1) is Some ==> {
            let r = side(e, l, l.vars@[i].0.0 as int, low).mul_rat_spec(l.vars@[i].1).unwrap().rat;
            &&& r.wf()
            &&& low ==> !r.is_pinf()
            &&& !low ==> !r.is_ninf()
            &&& r.is_fin() && !side(e, l, l.vars@[i].0.0 as int, low).is_fin() ==> l.vars@[i].1.num == 0
        },
{
    let t = l.vars@[i];
    let x = t.0.0 as int;
    let c = t.1;
    lemma_term_index(l.vars@, i);
    e.lemma_value_facts();
    let b = side(e, l, x, low);
    assert(x < e.num_vars());
    assert(e.lower(x).wf() && e.upper(x).wf());
    assert(c.wf() && c.is_fin());
    if b.is_fin() && b.mul_rat_spec(c) is Some {
        lemma_scale_fin(b, c);
    }
}

/// Within the bounds, the least value of an expression is at most its
/// current value, and the greatest value at least: when every variable of
/// the engine lies within its bounds, `lin_lb(l) <= lin_val(l) <= lin_ub(l)`,
/// whenever the three are in range.
pub proof fn law_lin_bounds_enclose_value(e: Engine, l: Lin)
    requires
        e.inv(),
        e.feasible(),
        e.lin_ok(l),
        e.lin_value(l) is Some,
    ensures
        e.lin_lower(l) is Some ==> e.lin_lower(l).unwrap().leq(e.lin_value(l).unwrap()),
        e.lin_upper(l) is Some ==> e.lin_value(l).unwrap().leq(e.lin_upper(l).unwrap()),
{
    let ts = l.vars@;
    let k = l.known_term;
    let vals = e.values();
    let n = e.num_vars();
    e.lemma_value_facts();
    assert forall|i: int| 0 <= i < ts.len() implies (#[trigger] ts[i]).0.0 < vals.len() by {}
    lemma_fold_part(ts, k, e.value_term(), vals, true);
    lemma_fold_part(ts, k, e.value_term(), vals, false);
    let va = e.lin_value(l).unwrap();
    assert(holds(l, vals, va));
    if e.lin_lower(l) is Some {
        enclose_side(e, l, true);
    }
    if e.lin_upper(l) is Some {
        enclose_side(e, l, false);
    }
}

/// One side of [`law_lin_bounds_enclose_value`].
proof fn enclose_side(e: Engine, l: Lin, low: bool)
    requires
        e.inv(),
        e.feasible(),
        e.lin_ok(l),
        e.lin_value(l) is Some,
        e.lin_value(l).unwrap().wf() && e.lin_value(l).unwrap().is_fin(),
        holds(l, e.values(), e.lin_value(l).unwrap()),
        low ==> e.lin_lower(l) is Some,
        !low ==> e.lin_upper(l) is Some,
    ensures
        low ==> e.lin_lower(l).unwrap().leq(e.lin_value(l).unwrap()),
        !low ==> e.lin_value(l).unwrap().leq(e.lin_upper(l).unwrap()),
{
    let ts = l.vars@;
    let k = l.known_term;
    let vals = e.values();
    let n = e.num_vars();
    let va = e.lin_value(l).unwrap();
    let f = if low { e.lower_term() } else { e.upper_term() };
    let ex = fold_terms(ts, k, f).unwrap();
    e.lemma_value_facts();
    lemma_fold_parts_some(ts, k, f);
    assert forall|i: int| 0 <= i < ts.len() && (#[trigger] f(ts[i])) is Some implies f(ts[i]).unwrap().rat.wf()
        && (low ==> !f(ts[i]).unwrap().rat.is_pinf()) && (!low ==> !f(ts[i]).unwrap().rat.is_ninf()) by {
        lemma_side_term(&e, l, i, low);
    }
    if exists|i: int| 0 <= i < ts.len() && !(#[trigger] f(ts[i])).unwrap().rat.is_fin() {
        let i = choose|i: int| 0 <= i < ts.len() && !(#[trigger] f(ts[i])).unwrap().rat.is_fin();
        if low {
            lemma_fold_low(ts, k, f);
            assert(f(ts[i]).unwrap().rat.is_ninf());
            assert(ex.rat.is_ninf());
            assert(ex.less(va));
        } else {
            lemma_fold_high(ts, k, f);
            assert(f(ts[i]).unwrap().rat.is_pinf());
            assert(ex.rat.is_pinf());
            assert(va.less(ex));
        }
    } else {
        let at = Seq::new(n, |x: int| if side(&e, l, x, low).is_fin() { side(&e, l, x, low) } else { vals[x] });
        let g = |t: Term| at[t.0.0 as int].mul_rat_spec(t.1);
        assert forall|i: int| 0 <= i < ts.len() implies f(#[trigger] ts[i]) == g(ts[i]) by {
            lemma_side_term(&e, l, i, low);
            let x = ts[i].0.0 as int;
            let b = side(&e, l, x, low);
            if !b.is_fin() {
                assert(f(ts[i]).unwrap().rat.is_fin());
                assert(ts[i].1.num == 0);
                lemma_scale_zero(vals[x], b, ts[i].1);
            }
        }
        lemma_fold_congr(ts, k, f, g);
        assert forall|x: int| 0 <= x < at.len() implies (#[trigger] at[x]).wf() && at[x].is_fin() by {
            if side(&e, l, x, low).is_fin() {
                if (l.coeffs()[x as usize].num > 0) == low {
                    assert(e.lower(x).wf());
                } else {
                    assert(e.upper(x).wf());
                }
            }
        }
        assert(vals_fin(at));
        assert forall|t: Term| #[trigger] g(t) == at[t.0.0 as int].mul_rat_spec(t.1) by {}
        assert forall|i: int| 0 <= i < ts.len() implies (#[trigger] ts[i]).0.0 < at.len() by {}
        lemma_fold_part(ts, k, g, at, true);
        lemma_fold_part(ts, k, g, at, false);
        assert(holds(l, at, ex));
        assert forall|x: usize| #[trigger] l.coeffs().contains_key(x) implies {
            &&& x < at.len()
            &&& l.coeffs()[x].num > 0 ==> (if low { at[x as int].leq(vals[x as int]) } else { vals[x as int].leq(at[x as int]) })
            &&& l.coeffs()[x].num < 0 ==> (if low { vals[x as int].leq(at[x as int]) } else { at[x as int].leq(vals[x as int]) })
        } by {
            let i = choose|i: int| 0 <= i < ts.len() && ts[i].0.0 == x;
            assert(ts[i].0.0 < n);
            assert(e.within(x as int));
            assert(e.value(x as int) == vals[x as int]);
        }
        if low {
            lemma_row_monotone(l, at, vals, ex, va);
        } else {
            lemma_row_monotone(l, vals, at, va, ex);
        }
    }
}

/// One term of the sum of two expressions is the sum of their terms.
proof fn lemma_sum_term(a: Lin, b: Lin, f: spec_fn(int) -> Q, k: int)
    requires
        a.wf(),
        b.wf(),
        add_maps_ok(a.coeffs(), b.coeffs()),
        pos(f(k)),
        0 <= k <= usize::MAX,
    ensures
        qeq(
            term_q(add_maps(a.coeffs(), b.coeffs()), f, k),
            qadd(term_q(a.coeffs(), f, k), qmul(qone(), term_q(b.coeffs(), f, k))),
        ),
{
    let (ma, mb) = (a.coeffs(), b.coeffs());
    let m = add_maps(ma, mb);
    let x = k as usize;
    lemma_lin_pos(a);
    lemma_lin_pos(b);
    let tb = term_q(mb, f, k);
    lemma_ring(qone(), tb, qz());
    lemma_ring(term_q(ma, f, k), qz(), qz());
    if mb.contains_key(x) {
        let oz = or_zero(ma, x);
        lemma_exact_add(oz, mb[x]);
        lemma_ring(rq(m[x]), f(k), qz());
        lemma_ring(qadd(rq(oz), rq(mb[x])), f(k), qz());
        lemma_ring(rq(oz), f(k), qz());
        lemma_ring(rq(mb[x]), f(k), qz());
        // m[x]·f ≡ (oz + b[x])·f ≡ f·oz + f·b[x]
        crate::exact::lemma_qmul_cong(rq(m[x]), qadd(rq(oz), rq(mb[x])), f(k), f(k));
        lemma_distrib(f(k), rq(oz), rq(mb[x]));
        lemma_pos(rq(oz), rq(mb[x]));
        lemma_pos(qadd(rq(oz), rq(mb[x])), f(k));
        lemma_qeq_trans(
            qmul(rq(m[x]), f(k)),
            qmul(qadd(rq(oz), rq(mb[x])), f(k)),
            qadd(qmul(f(k), rq(oz)), qmul(f(k), rq(mb[x]))),
        );
        if !ma.contains_key(x) {
            assert(qeq(qmul(rq(oz), f(k)), qz()));
            lemma_pos(rq(oz), f(k));
            crate::exact::lemma_qadd_cong(qmul(rq(oz), f(k)), qz(), qmul(rq(mb[x]), f(k)), qmul(rq(mb[x]), f(k)));
            lemma_ring(qz(), qmul(rq(mb[x]), f(k)), qz());
            lemma_pos(rq(mb[x]), f(k));
            lemma_pos(rq(oz), f(k));
            lemma_pos(qmul(rq(oz), f(k)), qmul(rq(mb[x]), f(k)));
            lemma_qeq_trans(
                qmul(rq(m[x]), f(k)),
                qadd(qmul(rq(oz), f(k)), qmul(rq(mb[x]), f(k))),
                qmul(rq(mb[x]), f(k)),
            );
        }
    }
}

/// The value of a sum of expressions is the sum of their values: when
/// `s` has the coefficients and the known term of `a + b`, as
/// [`Lin::add`] ensures, `lin_val(s) = lin_val(a) + lin_val(b)`, whenever
/// the three values and their sum are in range.
pub proof fn law_lin_value_additive(e: Engine, a: Lin, b: Lin, s: Lin)
    requires
        e.inv(),
        e.lin_ok(a),
        e.lin_ok(b),
        e.lin_ok(s),
        add_maps_ok(a.coeffs(), b.coeffs()),
        s.coeffs() == add_maps(a.coeffs(), b.coeffs()),
        a.known_term.add_spec(b.known_term) == Some(s.known_term),
        e.lin_value(a) is Some,
        e.lin_value(b) is Some,
        e.lin_value(s) is Some,
        e.lin_value(a).unwrap().add_spec(e.lin_value(b).unwrap()) is Some,
    ensures
        e.lin_value(s).unwrap().same(e.lin_value(a).unwrap().add_spec(e.lin_value(b).unwrap()).unwrap()),
{
    additive_part(e, a, b, s, true);
    additive_part(e, a, b, s, false);
}

/// One part of [`law_lin_value_additive`].
proof fn additive_part(e: Engine, a: Lin, b: Lin, s: Lin, rat: bool)
    requires
        e.inv(),
        e.lin_ok(a),
        e.lin_ok(b),
        e.lin_ok(s),
        add_maps_ok(a.coeffs(), b.coeffs()),
        s.coeffs() == add_maps(a.coeffs(), b.coeffs()),
        a.known_term.add_spec(b.known_term) == Some(s.known_term),
        e.lin_value(a) is Some,
        e.lin_value(b) is Some,
        e.lin_value(s) is Some,
        e.lin_value(a).unwrap().add_spec(e.lin_value(b).unwrap()) is Some,
    ensures
        rat ==> e.lin_value(s).unwrap().rat.same(e.lin_value(a).unwrap().add_spec(e.lin_value(b).unwrap()).unwrap().rat),
        !rat ==> e.lin_value(s).unwrap().inf.same(e.lin_value(a).unwrap().add_spec(e.lin_value(b).unwrap()).unwrap().inf),
{
    let vals = e.values();
    let n = vals.len();
    let f = parts(vals, rat);
    e.lemma_value_facts();
    lemma_parts_pos(vals, rat);
    lemma_lin_pos(a);
    lemma_lin_pos(b);
    lemma_lin_pos(s);
    assert forall|i: int| 0 <= i < a.vars@.len() implies (#[trigger] a.vars@[i]).0.0 < vals.len() by {}
    assert forall|i: int| 0 <= i < b.vars@.len() implies (#[trigger] b.vars@[i]).0.0 < vals.len() by {}
    assert forall|i: int| 0 <= i < s.vars@.len() implies (#[trigger] s.vars@[i]).0.0 < vals.len() by {}
    lemma_fold_part(a.vars@, a.known_term, e.value_term(), vals, rat);
    lemma_fold_part(b.vars@, b.known_term, e.value_term(), vals, rat);
    lemma_fold_part(s.vars@, s.known_term, e.value_term(), vals, rat);
    let va = e.lin_value(a).unwrap();
    let vb = e.lin_value(b).unwrap();
    let vs = e.lin_value(s).unwrap();
    let w = va.add_spec(vb).unwrap();
    let (ma, mb, ms) = (a.coeffs(), b.coeffs(), s.coeffs());
    let (sa, sb, ss) = (msum(ma, f, n), msum(mb, f, n), msum(ms, f, n));
    let (ka, kb, ks) = (known_part(a.known_term, rat), known_part(b.known_term, rat), known_part(s.known_term, rat));
    // the sum of the coefficient sums
    assert forall|k: int| 0 <= k < n implies qeq(#[trigger] term_q(ms, f, k), qadd(term_q(ma, f, k), qmul(qone(), term_q(mb, f, k)))) by {
        lemma_sum_term(a, b, f, k);
    }
    lemma_msum_lin(ms, f, ma, f, mb, f, qone(), n);
    lemma_ring(qone(), sb, qz());
    // the sum of the known parts
    if rat {
        lemma_exact_add(a.known_term, b.known_term);
    } else {
        lemma_ring(qz(), qz(), qz());
    }
    assert(qeq(ks, qadd(ka, kb)));
    lemma_msum_pos(ma, f, n);
    lemma_msum_pos(mb, f, n);
    lemma_msum_pos(ms, f, n);
    lemma_qadd_cong(ss, qadd(sa, sb), ks, qadd(ka, kb));
    lemma_swap(sa, sb, ka, kb);
    // the parts of the two values
    let (pa, pb, ps, pw) = (part(va, rat), part(vb, rat), part(vs, rat), part(w, rat));
    lemma_qeq_sym(rq(pa), qadd(sa, ka));
    lemma_qeq_sym(rq(pb), qadd(sb, kb));
    lemma_qadd_cong(qadd(sa, ka), rq(pa), qadd(sb, kb), rq(pb));
    assert(pw == pa.add_spec(pb).unwrap());
    lemma_exact_add(pa, pb);
    lemma_qeq_sym(rq(pw), qadd(rq(pa), rq(pb)));
    lemma_pos(sa, sb);
    lemma_pos(ka, kb);
    lemma_pos(sa, ka);
    lemma_pos(sb, kb);
    lemma_pos(qadd(sa, sb), qadd(ka, kb));
    lemma_pos(qadd(sa, ka), qadd(sb, kb));
    lemma_pos(rq(pa), rq(pb));
    lemma_pos(ss, ks);
    lemma_qeq_trans(rq(ps), qadd(ss, ks), qadd(qadd(sa, sb), qadd(ka, kb)));
    lemma_qeq_trans(rq(ps), qadd(qadd(sa, ka), qadd(sb, kb)), qadd(rq(pa), rq(pb)));
    lemma_qeq_trans(rq(ps), qadd(rq(pa), rq(pb)), rq(pw));
}

} // verus!
