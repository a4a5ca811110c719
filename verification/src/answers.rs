//! Laws on what the operations answer: the guards a conflict names hold
//! bounds that are jointly infeasible, and the bounds that constraints add
//! make their solutions exactly those of the constraint.
use vstd::prelude::*;
use crate::bounds::{BV, lb_of, lemma_extremes, max_lb, min_ub, ub_of};
use crate::engine::{Engine, difference, int_rat, lt_bound, lt_holds, slack_bound, term_vars, eq_bound, is_constant, opt_seq, the_key};
use crate::exact::{
    Q, lemma_distrib, lemma_exact_sub, lemma_msum_lin, lemma_swap, qone, qsub, lemma_msum_empty, lemma_msum_single, lemma_qorder, qle, qlt, coeffs_pos, lemma_exact_add, lemma_exact_mul, lemma_msum_eq, lemma_msum_pos, lemma_qeq_sym, msum, pos, term_q,
    lemma_cancel, lemma_cancel_factor, lemma_exact_div, lemma_exact_neg, lemma_pos, lemma_qadd_cong, lemma_qeq_trans,
    lemma_qmul_cong, lemma_ring, qadd, qeq, qinv, qmul, qneg, qz, rq,
};
use crate::laws::{law_lower_bound_is_tightest, law_same_tableau_same_rows, law_upper_bound_is_tightest};
use crate::rational::{Rational, zero_spec};
use crate::inf_rational::{InfRational, lemma_inf_order, neg_inf, pos_inf};
use crate::laws::law_conflict_is_infeasible;
use crate::rows::{
    lemma_lex_add, lemma_lex_of, lemma_lex_scale, lemma_lex_trans, lex_le, lex_lt, pair_add, pair_pos, pair_scale, xq,
    holds, holds_part, known_part, lemma_fold_part, lemma_lin_pos, lemma_msum_extend, lemma_parts_pos, lemma_subst_part, part,
    parts, vals_fin,
};
use crate::lin::{Lin, map_ok, or_zero, sub_maps, sub_maps_ok, subst_map, subst_ok};
use crate::terms::Term;
use crate::var::{GuardId, VarId};
use crate::engine::PropagationError;

verus! {

/// Every guard of bound entry `e` is among `l`: the bound holds while the
/// guards of `l` hold.
pub open spec fn held_by(e: BV, l: Seq<GuardId>) -> bool {
    forall|j: int| 0 <= j < e.1.len() ==> l.contains(#[trigger] e.1[j])
}

/// The guards of the entries that follow a prefix are in the whole.
proof fn lemma_suffix_held(p: Seq<GuardId>, e: BV)
    ensures
        held_by(e, p + e.1),
{
    assert forall|j: int| 0 <= j < e.1.len() implies (p + e.1).contains(#[trigger] e.1[j]) by {
        assert((p + e.1)[p.len() + j] == e.1[j]);
    }
}

/// A lower bound `lb` above the upper bound of `x` is refused, and the
/// conflict names `guard` and the guards of a bound of `x` below `lb`: the
/// tightest one, so that the named guards alone rule `lb` out.
pub proof fn law_lb_conflict_names_the_crossed_bound(
    o: Engine,
    f: Engine,
    var: VarId,
    lb: InfRational,
    guard: Option<GuardId>,
    r: Result<(), PropagationError>,
)
    requires
        o.inv(),
        var.0 < o.num_vars(),
        lb.wf(),
        o.upper(var.0 as int).less(lb),
        o.upper(var.0 as int).is_fin(),
        o.lb_effect(&f, var, lb, guard, r),
    ensures
        r matches Err(PropagationError::Conflict(l)) && (guard matches Some(g) ==> l@.contains(g)) && exists|i: int|
            0 <= i < o.upper_entries(var.0 as int).len() && (#[trigger] o.upper_entries(var.0 as int)[i]).0.less(lb)
                && o.upper_entries(var.0 as int)[i].0.same(o.upper(var.0 as int)) && held_by(
                o.upper_entries(var.0 as int)[i],
                l@,
            ),
{
    let x = var.0 as int;
    let s = o.upper_entries(x);
    o.lemma_entry_facts(x);
    lemma_extremes(s, o.num_guards());
    assert(s.len() > 0);
    lemma_inf_order(s[0].0, s[0].0, s[0].0);
    match r {
        Err(PropagationError::Conflict(l)) => {
            lemma_suffix_held(opt_seq(guard), s[0]);
            assert(l@ == opt_seq(guard) + s[0].1);
            if guard is Some {
                assert(l@[0] == guard.unwrap());
            }
            assert(held_by(s[0], l@));
        },
        _ => {},
    }
}

/// An upper bound `ub` below the lower bound of `x` is refused, and the
/// conflict names `guard` and the guards of a bound of `x` above `ub`: the
/// tightest one, so that the named guards alone rule `ub` out.
pub proof fn law_ub_conflict_names_the_crossed_bound(
    o: Engine,
    f: Engine,
    var: VarId,
    ub: InfRational,
    guard: Option<GuardId>,
    r: Result<(), PropagationError>,
)
    requires
        o.inv(),
        var.0 < o.num_vars(),
        ub.wf(),
        ub.less(o.lower(var.0 as int)),
        o.lower(var.0 as int).is_fin(),
        o.ub_effect(&f, var, ub, guard, r),
    ensures
        r matches Err(PropagationError::Conflict(l)) && (guard matches Some(g) ==> l@.contains(g)) && exists|i: int|
            0 <= i < o.lower_entries(var.0 as int).len() && ub.less((#[trigger] o.lower_entries(var.0 as int)[i]).0)
                && o.lower_entries(var.0 as int)[i].0.same(o.lower(var.0 as int)) && held_by(
                o.lower_entries(var.0 as int)[i],
                l@,
            ),
{
    let x = var.0 as int;
    let s = o.lower_entries(x);
    o.lemma_entry_facts(x);
    lemma_extremes(s, o.num_guards());
    assert(s.len() > 0);
    let i = s.len() - 1;
    lemma_inf_order(s[i].0, s[i].0, s[i].0);
    match r {
        Err(PropagationError::Conflict(l)) => {
            lemma_suffix_held(opt_seq(guard), s[i]);
            assert(l@ == opt_seq(guard) + s.last().1);
            if guard is Some {
                assert(l@[0] == guard.unwrap());
            }
            assert(held_by(s[i], l@));
        },
        _ => {},
    }
}

/// The guards that a term of a stuck row blames are among those the row's
/// terms blame.
proof fn lemma_blame_held(f: Engine, ts: Seq<Term>, low: bool, i: int)
    requires
        0 <= i < ts.len(),
    ensures
        forall|j: int| 0 <= j < f.term_blame(ts[i], low).len() ==> f.blame_terms(ts, low).contains(
            #[trigger] f.term_blame(ts[i], low)[j],
        ),
    decreases ts.len(),
{
    let init = ts.drop_last();
    let all = f.blame_terms(ts, low);
    assert(all == f.blame_terms(init, low) + f.term_blame(ts.last(), low));
    if i == ts.len() - 1 {
        assert forall|j: int| 0 <= j < f.term_blame(ts[i], low).len() implies all.contains(
            #[trigger] f.term_blame(ts[i], low)[j],
        ) by {
            assert(all[f.blame_terms(init, low).len() + j] == f.term_blame(ts[i], low)[j]);
        }
    } else {
        assert(init[i] == ts[i]);
        lemma_blame_held(f, init, low, i);
        assert forall|j: int| 0 <= j < f.term_blame(ts[i], low).len() implies all.contains(
            #[trigger] f.term_blame(ts[i], low)[j],
        ) by {
            let g = f.term_blame(ts[i], low)[j];
            assert(f.blame_terms(init, low).contains(g));
            let k = choose|k: int| 0 <= k < f.blame_terms(init, low).len() && f.blame_terms(init, low)[k] == g;
            assert(all[k] == g);
        }
    }
}

impl Engine {
    /// Each variable lies within every bound of it that only guards of `l`
    /// hold (an unguarded bound included).
    pub open spec fn within_held(&self, l: Seq<GuardId>, vals: Seq<InfRational>) -> bool {
        &&& forall|x: int, i: int|
            0 <= x < self.num_vars() && 0 <= i < self.upper_entries(x).len() && held_by(#[trigger] self.upper_entries(x)[i], l)
                ==> vals[x].leq(self.upper_entries(x)[i].0)
        &&& forall|x: int, i: int|
            0 <= x < self.num_vars() && 0 <= i < self.lower_entries(x).len() && held_by(#[trigger] self.lower_entries(x)[i], l)
                ==> self.lower_entries(x)[i].0.leq(vals[x])
    }
}

/// A conflict that `check` reports is sound on the guards it names alone:
/// no values satisfy the rows while lying within every bound held only by
/// the named guards. Each term of the stuck row is blamed with the guards
/// of its variable's tightest bound on the side it would have to move, and
/// the row's basic variable with those of the bound it violates.
pub proof fn law_check_conflict_is_sound(f: Engine, l: Seq<GuardId>, vals: Seq<InfRational>)
    requires
        f.inv(),
        exists|b: int, low: bool| #[trigger] f.stuck(b, low) && l == f.explanation(b, low),
        vals.len() == f.num_vars(),
        vals_fin(vals),
        f.rows_satisfied(vals),
    ensures
        !f.within_held(l, vals),
{
    if f.within_held(l, vals) {
        let (b, low) = choose|b: int, low: bool| #[trigger] f.stuck(b, low) && l == f.explanation(b, low);
        let row = f.row(b);
        let bt = f.blame_terms(row.vars@, low);
        f.lemma_row_vars(b);
        f.lemma_value_facts();
        assert forall|i: int| 0 <= i < row.vars@.len() implies {
            let t = #[trigger] row.vars@[i];
            t.1.num != 0 ==> if (t.1.num > 0) == low {
                vals[t.0.0 as int].leq(f.upper(t.0.0 as int))
            } else {
                f.lower(t.0.0 as int).leq(vals[t.0.0 as int])
            }
        } by {
            let t = row.vars@[i];
            let x = t.0.0 as int;
            crate::terms::lemma_term_index(row.vars@, i);
            assert(row.coeffs().contains_key(t.0.0));
            assert(0 <= x < f.num_vars());
            assert(!f.can_enter(t, low));
            f.lemma_entry_facts(x);
            lemma_extremes(f.upper_entries(x), f.num_guards());
            lemma_extremes(f.lower_entries(x), f.num_guards());
            lemma_inf_order(f.value(x), f.upper(x), f.lower(x));
            lemma_inf_order(f.upper(x), f.value(x), f.lower(x));
            lemma_inf_order(f.lower(x), f.value(x), f.upper(x));
            if t.1.num != 0 {
                lemma_blame_held(f, row.vars@, low, i);
                let tb = f.term_blame(t, low);
                assert forall|j: int| 0 <= j < tb.len() implies l.contains(#[trigger] tb[j]) by {
                    assert(bt.contains(tb[j]));
                    let k = choose|k: int| 0 <= k < bt.len() && bt[k] == tb[j];
                    assert(l[k] == tb[j]);
                }
                if (t.1.num > 0) == low {
                    assert(f.upper_entries(x).len() > 0);
                    assert(held_by(f.upper_entries(x)[0], l));
                } else {
                    assert(f.lower_entries(x).len() > 0);
                    let s = f.lower_entries(x);
                    assert(held_by(s[s.len() - 1], l));
                }
            }
        }
        assert(holds(f.row(b), vals, vals[b]));
        law_conflict_is_infeasible(f, b, low, vals);
        f.lemma_entry_facts(b);
        lemma_extremes(f.upper_entries(b), f.num_guards());
        lemma_extremes(f.lower_entries(b), f.num_guards());
        if low {
            let s = f.lower_entries(b);
            assert(s.len() > 0);
            let e = s[s.len() - 1];
            lemma_suffix_held(bt, e);
            assert(held_by(e, l));
            lemma_inf_order(vals[b], f.lower(b), vals[b]);
        } else {
            let s = f.upper_entries(b);
            assert(s.len() > 0);
            lemma_suffix_held(bt, s[0]);
            assert(held_by(s[0], l));
            lemma_inf_order(vals[b], f.upper(b), vals[b]);
        }
    }
}

/// `c·v + k = 0` exactly: the rational part of `c·v` cancels `k`, and `v`
/// has no infinitesimal part.
pub open spec fn solves_eq(c: Rational, k: Rational, v: InfRational) -> bool {
    &&& qeq(qadd(qmul(rq(c), rq(v.rat)), rq(k)), qz())
    &&& v.inf.num == 0
}

/// The value that an equation `c·x + k = 0` puts on `x` solves it.
proof fn lemma_eq_bound_solves(c: Rational, k: Rational)
    requires
        c.wf() && c.is_fin() && c.num != 0,
        k.wf() && k.is_fin(),
        eq_bound(c, k) is Some,
    ensures
        eq_bound(c, k).unwrap().wf(),
        eq_bound(c, k).unwrap().is_fin(),
        solves_eq(c, k, eq_bound(c, k).unwrap()),
{
    let nk = k.neg_spec().unwrap();
    let q = nk.div_spec(c).unwrap();
    lemma_exact_neg(k);
    assert(nk.wf() && nk.is_fin());
    lemma_exact_div(nk, c);
    let (qc, qk) = (rq(c), rq(k));
    // q ≡ (-k)·(1/c), so c·q ≡ -k
    lemma_ring(qc, qneg(qk), qz());
    lemma_pos(qk, qc);
    lemma_pos(qneg(qk), qc);
    lemma_cancel_factor(qneg(qk), qc, qmul(qneg(qk), qc));
    lemma_ring(qmul(qneg(qk), qc), qinv(qc), qz());
    lemma_ring(qneg(qk), qc, qinv(qc));
    lemma_ring(qc, qinv(qc), qz());
    lemma_ring(qc, qneg(qk), qinv(qc));
    lemma_ring(qneg(qk), qinv(qc), qc);
    lemma_ring(qinv(qc), qc, qz());
    // c·(nk·(1/c)) == nk·(c·(1/c))... == (nk·c)·(1/c) ≡ nk
    assert(qmul(qc, qmul(qneg(qk), qinv(qc))) == qmul(qmul(qneg(qk), qc), qinv(qc))) by {
        assert(qmul(qc, qmul(qneg(qk), qinv(qc))) == qmul(qmul(qc, qneg(qk)), qinv(qc)));
    }
    crate::exact::lemma_inv(qc);
    lemma_pos(qneg(qk), qinv(qc));
    lemma_qmul_cong(qc, qc, rq(q), qmul(qneg(qk), qinv(qc)));
    lemma_pos(qc, qmul(qneg(qk), qinv(qc)));
    lemma_qeq_trans(qmul(qc, rq(q)), qmul(qc, qmul(qneg(qk), qinv(qc))), qneg(qk));
    lemma_qadd_cong(qmul(qc, rq(q)), qneg(qk), qk, qk);
    lemma_cancel(qk);
    lemma_ring(qneg(qk), qk, qz());
    lemma_pos(qneg(qk), qk);
    lemma_qeq_trans(qadd(qmul(qc, rq(q)), qk), qadd(qneg(qk), qk), qz());
}

/// A value equal to one that solves `c·x + k = 0` solves it too.
proof fn lemma_solves_same(c: Rational, k: Rational, b: InfRational, v: InfRational)
    requires
        c.wf() && c.is_fin(),
        k.wf() && k.is_fin(),
        b.wf() && b.is_fin(),
        v.wf() && v.is_fin(),
        v.same(b),
        solves_eq(c, k, b),
    ensures
        solves_eq(c, k, v),
{
    assert(qeq(rq(v.rat), rq(b.rat)));
    lemma_qmul_cong(rq(c), rq(c), rq(v.rat), rq(b.rat));
    lemma_qadd_cong(qmul(rq(c), rq(v.rat)), qmul(rq(c), rq(b.rat)), rq(k), rq(k));
    lemma_pos(rq(c), rq(b.rat));
    lemma_pos(qmul(rq(c), rq(b.rat)), rq(k));
    lemma_qeq_trans(qadd(qmul(rq(c), rq(v.rat)), rq(k)), qadd(qmul(rq(c), rq(b.rat)), rq(k)), qz());
    assert(v.inf.num * b.inf.den == b.inf.num * v.inf.den);
    assert(v.inf.num * b.inf.den == 0);
    assert(v.inf.num == 0) by (nonlinear_arith)
        requires
            v.inf.num * b.inf.den == 0,
            b.inf.den > 0,
    ;
}

/// Setting both bounds of `x` to `b` without a conflict leaves `b` the only
/// value within them.
proof fn lemma_both_pins(o: Engine, f: Engine, var: VarId, b: InfRational, lf: bool)
    requires
        o.inv(),
        f.inv(),
        var.0 < o.num_vars(),
        b.wf() && b.is_fin(),
        o.both_effect(&f, var, b, lf, Ok(())),
    ensures
        forall|v: InfRational|
            v.wf() && v.is_fin() && f.lower(var.0 as int).leq(v) && #[trigger] v.leq(f.upper(var.0 as int)) ==> v.same(b),
{
    let r: Result<(), PropagationError> = Ok(());
    let xi = var.0 as int;
    o.lemma_entry_facts(xi);
    lemma_extremes(o.lower_entries(xi), o.num_guards());
    lemma_extremes(o.upper_entries(xi), o.num_guards());
    let (mid, r1) = choose|mid: Engine, r1: Result<(), PropagationError>| {
        &&& #[trigger] o.bound_effect(&mid, var, b, lf, r1)
        &&& (r1 is Err ==> r == r1 && f == mid)
        &&& (r1 is Ok ==> mid.inv() && mid.bound_effect(&f, var, b, !lf, r))
    };
    assert(r1 is Ok);
    if lf {
        law_lower_bound_is_tightest(o, mid, var, b);
        law_upper_bound_is_tightest(mid, f, var, b);
        assert(mid.upper(xi) == o.upper(xi));
        assert(f.lower(xi) == mid.lower(xi));
    } else {
        law_upper_bound_is_tightest(o, mid, var, b);
        law_lower_bound_is_tightest(mid, f, var, b);
        assert(mid.lower(xi) == o.lower(xi));
        assert(f.upper(xi) == mid.upper(xi));
    }
    mid.lemma_entry_facts(xi);
    lemma_extremes(mid.lower_entries(xi), mid.num_guards());
    lemma_extremes(mid.upper_entries(xi), mid.num_guards());
    lemma_inf_order(o.lower(xi), b, o.upper(xi));
    lemma_inf_order(b, o.lower(xi), o.upper(xi));
    lemma_inf_order(o.upper(xi), b, o.lower(xi));
    lemma_inf_order(b, o.upper(xi), o.lower(xi));
    lemma_inf_order(mid.lower(xi), b, mid.upper(xi));
    lemma_inf_order(b, mid.lower(xi), mid.upper(xi));
    lemma_inf_order(mid.upper(xi), b, mid.lower(xi));
    lemma_inf_order(b, mid.upper(xi), mid.lower(xi));
    assert forall|v: InfRational|
        v.wf() && v.is_fin() && f.lower(xi).leq(v) && #[trigger] v.leq(f.upper(xi)) implies v.same(b) by {
        f.lemma_entry_facts(xi);
        lemma_extremes(f.lower_entries(xi), f.num_guards());
        lemma_extremes(f.upper_entries(xi), f.num_guards());
        lemma_inf_order(f.lower(xi), b, v);
        lemma_inf_order(b, f.lower(xi), v);
        lemma_inf_order(f.upper(xi), b, v);
        lemma_inf_order(b, f.upper(xi), v);
        lemma_inf_order(v, b, f.lower(xi));
        lemma_inf_order(b, v, f.upper(xi));
        lemma_inf_order(v, f.upper(xi), b);
        lemma_inf_order(f.lower(xi), v, b);
    }
}

/// An equation reduced to one variable, `c·x + k = 0`, fixes `x`: when
/// `new_eq` succeeds without a guard, every value within the new bounds of
/// `x` solves the equation; with a guard, the guard records as both bounds
/// of `x` a value that solves it.
pub proof fn law_eq_fixes_its_variable(
    o: Engine,
    f: Engine,
    m: Map<usize, Rational>,
    k: Rational,
    guard: Option<GuardId>,
    r: Result<(), PropagationError>,
)
    requires
        o.inv(),
        f.inv(),
        m.len() == 1,
        !is_constant(m),
        the_key(m) < o.num_vars(),
        m[the_key(m)].wf() && m[the_key(m)].is_fin(),
        k.wf() && k.is_fin(),
        o.eq_outcome(&f, m, k, guard, r),
        r is Ok,
    ensures
        guard is None ==> forall|v: InfRational|
            v.wf() && v.is_fin() && f.lower(the_key(m) as int).leq(v) && #[trigger] v.leq(f.upper(the_key(m) as int))
                ==> solves_eq(m[the_key(m)], k, v),
        guard matches Some(g) ==> exists|b: InfRational| #[trigger] solves_eq(m[the_key(m)], k, b) && f.guard_records(
            &o,
            the_key(m) as int,
            Some(b),
            Some(b),
            g,
        ),
{
    let x = the_key(m);
    let xi = x as int;
    let c = m[x];
    assert(m.contains_key(x)) by {
        assert(m.dom().len() == 1);
        let y = m.dom().choose();
        assert(m.contains_key(y));
    }
    let b = eq_bound(c, k).unwrap();
    lemma_eq_bound_solves(c, k);
    match guard {
        Some(g) => {
            assert(solves_eq(c, k, b));
        },
        None => {
            lemma_both_pins(o, f, VarId(x), b, c.num > 0);
            assert forall|v: InfRational|
                v.wf() && v.is_fin() && f.lower(xi).leq(v) && #[trigger] v.leq(f.upper(xi)) implies solves_eq(c, k, v) by {
                lemma_solves_same(c, k, b, v);
            }
        },
    }
}

/// The exact value of `Σ m[x]·x + k` under `vals`: its rational part
/// (`rat`) or the factor of its infinitesimal.
pub open spec fn expr_part(m: Map<usize, Rational>, k: Rational, vals: Seq<InfRational>, rat: bool) -> Q {
    qadd(msum(m, parts(vals, rat), vals.len()), known_part(k, rat))
}

/// Coefficients that are well formed and finite, on variables below `n`.
pub open spec fn coeffs_below(m: Map<usize, Rational>, n: nat) -> bool {
    &&& map_ok(m)
    &&& m.dom().finite()
    &&& forall|x: usize| #[trigger] m.contains_key(x) ==> x < n
}

/// Substituting a variable by an expression keeps coefficients well formed.
proof fn lemma_subst_coeffs(a: Map<usize, Rational>, v: usize, p: Map<usize, Rational>, n: nat)
    requires
        coeffs_below(a, n),
        coeffs_below(p, n),
        a.contains_key(v),
        subst_ok(a, v, p),
    ensures
        coeffs_below(subst_map(a, v, p), n),
{
    let sm = subst_map(a, v, p);
    vstd::set::axiom_set_union_finite(a.dom(), p.dom());
    assert(sm.dom().subset_of(a.dom().union(p.dom())));
    vstd::set_lib::lemma_set_subset_finite(a.dom().union(p.dom()), sm.dom());
    assert forall|x: usize| #[trigger] sm.contains_key(x) implies sm[x].wf() && sm[x].is_fin() && x < n by {
        if p.contains_key(x) {
            lemma_exact_mul(p[x], a[v]);
            let prod = p[x].mul_spec(a[v]).unwrap();
            if a.remove(v).contains_key(x) {
                lemma_exact_add(a[x], prod);
            }
        }
    }
}

/// The coefficients of a row are well formed, finite in number, and on
/// variables of the engine.
proof fn lin_coeffs_below(e: Engine, l: Lin)
    requires
        l.wf(),
        forall|x: usize| #[trigger] l.coeffs().contains_key(x) ==> x < e.num_vars(),
    ensures
        coeffs_below(l.coeffs(), e.num_vars()),
{
    l.lemma_coeffs_ok();
}

/// One reduction step keeps the exact value of the expression, for values
/// that satisfy the rows.
proof fn lemma_reduce_step_value(
    e: Engine,
    mk: (Map<usize, Rational>, Rational),
    v: VarId,
    vals: Seq<InfRational>,
    rat: bool,
)
    requires
        e.inv(),
        e.num_vars() <= vals.len() <= usize::MAX,
        vals_fin(vals),
        e.rows_satisfied(vals),
        coeffs_below(mk.0, e.num_vars()),
        mk.1.wf() && mk.1.is_fin(),
        e.reduce_step(mk, v) is Some,
    ensures
        coeffs_below(e.reduce_step(mk, v).unwrap().0, e.num_vars()),
        e.reduce_step(mk, v).unwrap().1.wf() && e.reduce_step(mk, v).unwrap().1.is_fin(),
        qeq(expr_part(mk.0, mk.1, vals, rat), expr_part(e.reduce_step(mk, v).unwrap().0, e.reduce_step(mk, v).unwrap().1, vals, rat)),
{
    let (a, k) = mk;
    let n = vals.len();
    let f = parts(vals, rat);
    lemma_parts_pos(vals, rat);
    assert(coeffs_pos(a));
    lemma_msum_pos(a, f, n);
    let vi = v.0 as int;
    if e.basic(vi) && a.contains_key(v.0) {
        let row = e.row(vi);
        let pm = row.coeffs();
        e.lemma_row_vars(vi);
        lemma_lin_pos(row);
        assert(!pm.contains_key(v.0));
        let prod = row.known_term.mul_spec(a[v.0]).unwrap();
        let k2 = k.add_spec(prod).unwrap();
        lemma_exact_mul(row.known_term, a[v.0]);
        lemma_exact_add(k, prod);
        let kw = known_part(k, rat);
        let kp = known_part(row.known_term, rat);
        let kw2 = known_part(k2, rat);
        if rat {
            lemma_qadd_cong(rq(k), rq(k), rq(prod), qmul(rq(row.known_term), rq(a[v.0])));
            lemma_pos(rq(k), rq(prod));
            lemma_qeq_trans(rq(k2), qadd(rq(k), rq(prod)), qadd(rq(k), qmul(rq(row.known_term), rq(a[v.0]))));
        }
        assert(qeq(kw2, qadd(kw, qmul(kp, rq(a[v.0])))));
        assert(holds(row, vals, vals[vi]));
        assert(holds_part(row, vals, vals[vi], rat));
        lemma_pos(rq(k), rq(k));
        lemma_subst_part(a, v.0, pm, f, n, kw, kp, kw2, expr_part(a, k, vals, rat));
        lin_coeffs_below(e, row);
        lemma_subst_coeffs(a, v.0, pm, e.num_vars());
    }
}

/// Reduction keeps the exact value of the expression, for values that
/// satisfy the rows.
proof fn lemma_reduce_value(
    e: Engine,
    mk: (Map<usize, Rational>, Rational),
    vs: Seq<VarId>,
    vals: Seq<InfRational>,
    rat: bool,
)
    requires
        e.inv(),
        e.num_vars() <= vals.len() <= usize::MAX,
        vals_fin(vals),
        e.rows_satisfied(vals),
        coeffs_below(mk.0, e.num_vars()),
        mk.1.wf() && mk.1.is_fin(),
        e.reduce_vars(mk, vs) is Some,
    ensures
        coeffs_below(e.reduce_vars(mk, vs).unwrap().0, e.num_vars()),
        e.reduce_vars(mk, vs).unwrap().1.wf() && e.reduce_vars(mk, vs).unwrap().1.is_fin(),
        qeq(expr_part(mk.0, mk.1, vals, rat), expr_part(e.reduce_vars(mk, vs).unwrap().0, e.reduce_vars(mk, vs).unwrap().1, vals, rat)),
    decreases vs.len(),
{
    if vs.len() > 0 {
        lemma_reduce_value(e, mk, vs.drop_last(), vals, rat);
        let x = e.reduce_vars(mk, vs.drop_last()).unwrap();
        lemma_reduce_step_value(e, x, vs.last(), vals, rat);
        let y = e.reduce_vars(mk, vs).unwrap();
        let f = parts(vals, rat);
        lemma_parts_pos(vals, rat);
        assert(coeffs_pos(x.0));
        lemma_msum_pos(x.0, f, vals.len());
        lemma_pos(msum(x.0, f, vals.len()), known_part(x.1, rat));
        lemma_qeq_trans(expr_part(mk.0, mk.1, vals, rat), expr_part(x.0, x.1, vals, rat), expr_part(y.0, y.1, vals, rat));
    }
}

/// Replacing the basic variables of an expression by their rows keeps its
/// value: for all values that satisfy the rows, the reduced expression
/// (coefficients and known term) has the exact value of the expression.
pub proof fn law_reduction_keeps_value(e: Engine, lin: Lin, vals: Seq<InfRational>, rat: bool)
    requires
        e.inv(),
        e.lin_ok(lin),
        e.lin_reduction(lin) is Some,
        vals.len() == e.num_vars(),
        vals_fin(vals),
        e.rows_satisfied(vals),
    ensures
        qeq(
            expr_part(e.lin_reduction(lin).unwrap().0, e.lin_reduction(lin).unwrap().1, vals, rat),
            expr_part(lin.coeffs(), lin.known_term, vals, rat),
        ),
{
    lemma_lin_pos(lin);
    assert forall|x: usize| #[trigger] lin.coeffs().contains_key(x) implies x < e.num_vars() by {
        let i = choose|i: int| 0 <= i < lin.vars@.len() && lin.vars@[i].0.0 == x;
    }
    lin_coeffs_below(e, lin);
    e.lemma_value_facts();
    lemma_reduce_value(e, (lin.coeffs(), lin.known_term), term_vars(lin.vars@), vals, rat);
    lemma_qeq_sym(
        expr_part(lin.coeffs(), lin.known_term, vals, rat),
        expr_part(e.lin_reduction(lin).unwrap().0, e.lin_reduction(lin).unwrap().1, vals, rat),
    );
}

/// A variable added by `add_lin_var(lin)` has the value that `lin` had
/// before the call: its row is `lin` reduced, and reduction keeps values.
pub proof fn law_lin_var_has_the_value_of_its_expression(o: Engine, f: Engine, lin: Lin, var: VarId)
    requires
        o.inv(),
        f.inv(),
        o.lin_ok(lin),
        o.lin_reduction(lin) is Some,
        o.lin_value(lin) is Some,
        var.0 == o.num_vars(),
        f.num_vars() == o.num_vars() + 1,
        f.basic(var.0 as int),
        f.row(var.0 as int).coeffs() == o.lin_reduction(lin).unwrap().0,
        f.row(var.0 as int).known_term == o.lin_reduction(lin).unwrap().1,
        forall|v: int| 0 <= v < o.num_vars() ==> #[trigger] f.value(v) == o.value(v),
    ensures
        f.value(var.0 as int).same(o.lin_value(lin).unwrap()),
{
    let s = var.0 as int;
    let n = o.num_vars();
    let red = o.lin_reduction(lin).unwrap();
    let ov = o.values();
    let fv = f.values();
    o.lemma_value_facts();
    f.lemma_value_facts();
    crate::laws::law_values_satisfy_rows(o);
    crate::laws::law_values_satisfy_rows(f);
    assert(o.rows_satisfied(ov));
    assert(f.rows_satisfied(fv));
    assert(holds(f.row(s), fv, fv[s]));
    lemma_lin_pos(lin);
    assert forall|x: usize| #[trigger] lin.coeffs().contains_key(x) implies x < n by {
        let i = choose|i: int| 0 <= i < lin.vars@.len() && lin.vars@[i].0.0 == x;
    }
    assert forall|i: int| 0 <= i < lin.vars@.len() implies (#[trigger] lin.vars@[i]).0.0 < ov.len() by {}
    lin_coeffs_below(o, lin);
    let lv = o.lin_value(lin).unwrap();
    assert forall|rat: bool| qeq(#[trigger] rq(part(fv[s], rat)), rq(part(lv, rat))) by {
        let ff = parts(fv, rat);
        let fo = parts(ov, rat);
        lemma_reduce_value(o, (lin.coeffs(), lin.known_term), term_vars(lin.vars@), ov, rat);
        lemma_msum_extend(red.0, ff, n, n + 1);
        assert forall|k: int| 0 <= k < n implies #[trigger] term_q(red.0, ff, k) == term_q(red.0, fo, k) by {
            assert(fv[k] == f.value(k));
            assert(ov[k] == o.value(k));
        }
        lemma_msum_eq(red.0, ff, red.0, fo, n);
        assert(expr_part(red.0, red.1, fv, rat) == expr_part(red.0, red.1, ov, rat));
        assert(holds_part(f.row(s), fv, fv[s], rat));
        lemma_fold_part(lin.vars@, lin.known_term, o.value_term(), ov, rat);
        lemma_parts_pos(ov, rat);
        assert(coeffs_pos(red.0));
        assert(coeffs_pos(lin.coeffs()));
        lemma_msum_pos(red.0, fo, n);
        lemma_msum_pos(lin.coeffs(), fo, n);
        lemma_pos(msum(red.0, fo, n), known_part(red.1, rat));
        lemma_pos(msum(lin.coeffs(), fo, n), known_part(lin.known_term, rat));
        lemma_qeq_trans(rq(part(fv[s], rat)), expr_part(red.0, red.1, ov, rat), expr_part(lin.coeffs(), lin.known_term, ov, rat));
        lemma_qeq_sym(rq(part(lv, rat)), expr_part(lin.coeffs(), lin.known_term, ov, rat));
        lemma_qeq_trans(rq(part(fv[s], rat)), expr_part(lin.coeffs(), lin.known_term, ov, rat), rq(part(lv, rat)));
    }
    assert(qeq(rq(part(fv[s], true)), rq(part(lv, true))));
    assert(qeq(rq(part(fv[s], false)), rq(part(lv, false))));
    lemma_fold_part(lin.vars@, lin.known_term, o.value_term(), ov, true);
    assert(f.value(s) == fv[s]);
    assert(fv[s].wf() && fv[s].is_fin());
    assert(lv.wf() && lv.is_fin());
}

/// A value at most a bound that cancels `k` is, once `k` is added, at most
/// the bound's infinitesimal part: below zero when that part is negative.
proof fn lemma_shifted(p: (Q, Q), bnd: (Q, Q), kq: Q, s0: Q, s1: Q)
    requires
        pair_pos(p),
        pair_pos(bnd),
        pos(kq),
        pos(s0),
        pos(s1),
        qeq(s0, p.0),
        qeq(s1, p.1),
        lex_le(p, bnd),
        qeq(qadd(bnd.0, kq), qz()),
    ensures
        qlt(bnd.1, qz()) ==> lex_lt((qadd(s0, kq), qadd(s1, qz())), (qz(), qz())),
        qle(bnd.1, qz()) ==> lex_le((qadd(s0, kq), qadd(s1, qz())), (qz(), qz())),
{
    let kk = (kq, qz());
    let val = (qadd(s0, kq), qadd(s1, qz()));
    let pa = pair_add(p, kk);
    let pb = pair_add(bnd, kk);
    let z = (qz(), bnd.1);
    let zz = (qz(), qz());
    lemma_qorder(kq, kq, kq);
    lemma_qorder(qz(), qz(), qz());
    lemma_lex_add(p, bnd, kk, kk);
    lemma_ring(s1, qz(), qz());
    lemma_ring(p.1, qz(), qz());
    lemma_ring(bnd.1, qz(), qz());
    lemma_qadd_cong(s0, p.0, kq, kq);
    lemma_pos(s0, kq);
    lemma_pos(p.0, kq);
    lemma_pos(bnd.0, kq);
    lemma_lex_trans(val, pa, pb);
    lemma_lex_trans(val, pb, z);
    lemma_lex_trans(pb, z, zz);
    lemma_lex_trans(val, z, zz);
    lemma_qorder(bnd.1, qz(), qz());
}

/// Comparing with zero reads the numerator.
proof fn lemma_qz_sign(a: Q)
    ensures
        qeq(a, qz()) <==> a.0 == 0,
        qlt(a, qz()) <==> a.0 < 0,
        qle(a, qz()) <==> a.0 <= 0,
{
    assert(a.0 * 1 == a.0);
    assert(0 * a.1 == 0);
}

/// A constant expression: its sums are zero, so its value is `k`.
proof fn lemma_const_case(s0: Q, s1: Q, kq: Q, strict: bool)
    requires
        pos(s0),
        pos(s1),
        pos(kq),
        qeq(s0, qz()),
        qeq(s1, qz()),
        strict ==> kq.0 < 0,
        !strict ==> kq.0 <= 0,
    ensures
        strict ==> lex_lt((qadd(s0, kq), qadd(s1, qz())), (qz(), qz())),
        !strict ==> lex_le((qadd(s0, kq), qadd(s1, qz())), (qz(), qz())),
{
    lemma_qadd_cong(s0, qz(), kq, kq);
    lemma_qadd_cong(s1, qz(), qz(), qz());
    lemma_ring(qz(), kq, qz());
    lemma_ring(qz(), qz(), qz());
    lemma_pos(s0, kq);
    lemma_pos(s1, qz());
    lemma_qorder(qadd(s0, kq), kq, qz());
    lemma_qorder(qadd(s1, qz()), qz(), qz());
    lemma_qz_sign(kq);
    lemma_qorder(qz(), qz(), qz());
}

/// The infinitesimal part of an integer bound `-1`, `0` or `1`.
proof fn lemma_int_rat_pos(v: int)
    requires
        -1 <= v <= 1,
    ensures
        pos(rq(int_rat(v))),
        rq(int_rat(v)) == (v, 1int),
{
}

/// A constraint `Σ m[x]·x + k < 0` (strict) or `<= 0` that `new_lt`
/// accepts without a guard holds of every assignment within the bounds
/// that satisfies the rows: the bound it adds (on the one variable, or on
/// a slack variable equal to `Σ m[x]·x`) keeps the strictness, an
/// infinitesimal below the limit.
pub proof fn law_lt_bounds_its_solutions(
    o: Engine,
    f: Engine,
    m: Map<usize, Rational>,
    k: Rational,
    strict: bool,
    vals: Seq<InfRational>,
)
    requires
        o.inv(),
        f.inv(),
        coeffs_below(m, o.num_vars()),
        k.wf() && k.is_fin(),
        o.lt_outcome(&f, m, k, strict, None, Ok(())),
        vals.len() == f.num_vars(),
        vals_fin(vals),
        f.rows_satisfied(vals),
        forall|v: int| 0 <= v < f.num_vars() ==> f.lower(v).leq(#[trigger] vals[v]) && vals[v].leq(f.upper(v)),
    ensures
        strict ==> lex_lt((expr_part(m, k, vals, true), expr_part(m, k, vals, false)), (qz(), qz())),
        !strict ==> lex_le((expr_part(m, k, vals, true), expr_part(m, k, vals, false)), (qz(), qz())),
{
    let n = vals.len();
    let fr = parts(vals, true);
    let fi = parts(vals, false);
    lemma_parts_pos(vals, true);
    lemma_parts_pos(vals, false);
    assert(coeffs_pos(m));
    lemma_msum_pos(m, fr, n);
    lemma_msum_pos(m, fi, n);
    let s0 = msum(m, fr, n);
    let s1 = msum(m, fi, n);
    let kq = rq(k);
    f.lemma_value_facts();
    o.lemma_value_facts();
    if m.len() == 0 {
        assert(m =~= Map::<usize, Rational>::empty()) by {
            m.dom().lemma_len0_is_empty();
        }
        lemma_msum_empty(fr, n);
        lemma_msum_empty(fi, n);
        assert(is_constant(m));
        assert(lt_holds(k, strict));
        lemma_const_case(s0, s1, kq, strict);
    } else if m.len() == 1 {
        let x = the_key(m);
        assert(m.contains_key(x)) by {
            let y = m.dom().choose();
            assert(m.dom().contains(y));
        }
        let c = m[x];
        assert(m =~= Map::<usize, Rational>::empty().insert(x, c)) by {
            assert forall|y: usize| m.contains_key(y) implies y == x by {
                if y != x {
                    assert(m.dom().remove(x).contains(y));
                    vstd::set::axiom_set_remove_len(m.dom(), x);
                    vstd::set::axiom_set_contains_len(m.dom().remove(x), y);
                }
            }
        }
        lemma_msum_single(x, c, fr, n);
        lemma_msum_single(x, c, fi, n);
        let xi = x as int;
        if c.num == 0 {
            assert(is_constant(m));
            lemma_pos(rq(c), fr(xi));
            lemma_pos(rq(c), fi(xi));
            assert(c.num * fr(xi).0 == 0) by (nonlinear_arith)
                requires
                    c.num == 0,
            ;
            assert(c.num * fi(xi).0 == 0) by (nonlinear_arith)
                requires
                    c.num == 0,
            ;
            assert(qeq(s0, qmul(rq(c), fr(xi))));
            lemma_qz_sign(qmul(rq(c), fr(xi)));
            lemma_qz_sign(qmul(rq(c), fi(xi)));
            lemma_qeq_trans(s0, qmul(rq(c), fr(xi)), qz());
            lemma_qeq_trans(s1, qmul(rq(c), fi(xi)), qz());
            assert(lt_holds(k, strict));
            lemma_const_case(s0, s1, kq, strict);
        } else {
            assert(!is_constant(m));
            let b = lt_bound(c, k, strict).unwrap();
            assert(b.rat == eq_bound(c, k).unwrap().rat);
            lemma_eq_bound_solves(c, k);
            let vx = vals[xi];
            assert(b.wf() && b.is_fin());
            assert(xi < f.num_vars());
            assert(f.lower(xi).leq(vals[xi]) && vals[xi].leq(f.upper(xi)));
            if c.num > 0 {
                law_upper_bound_is_tightest(o, f, VarId(x), b);
                f.lemma_entry_facts(xi);
                lemma_extremes(f.upper_entries(xi), f.num_guards());
                lemma_inf_order(b, o.upper(xi), f.upper(xi));
                if b.less(o.upper(xi)) {
                    lemma_inf_order(vx, f.upper(xi), b);
                } else {
                    lemma_inf_order(vx, f.upper(xi), o.upper(xi));
                    lemma_inf_order(vx, o.upper(xi), b);
                    lemma_inf_order(o.upper(xi), b, vx);
                }
                assert(vx.leq(b));
                lemma_lex_of(vx, b);
                lemma_lex_scale(rq(c), xq(vx), xq(b));
            } else {
                law_lower_bound_is_tightest(o, f, VarId(x), b);
                f.lemma_entry_facts(xi);
                lemma_extremes(f.lower_entries(xi), f.num_guards());
                lemma_inf_order(o.lower(xi), b, f.lower(xi));
                if o.lower(xi).less(b) {
                    lemma_inf_order(b, f.lower(xi), vx);
                } else {
                    lemma_inf_order(b, o.lower(xi), f.lower(xi));
                    lemma_inf_order(o.lower(xi), f.lower(xi), vx);
                    lemma_inf_order(b, o.lower(xi), vx);
                    lemma_inf_order(b, f.lower(xi), vx);
                }
                assert(b.leq(vx));
                lemma_lex_of(b, vx);
                lemma_lex_scale(rq(c), xq(b), xq(vx));
            }
            let p = pair_scale(rq(c), xq(vx));
            let bnd = pair_scale(rq(c), xq(b));
            lemma_pos(rq(c), rq(vx.rat));
            lemma_pos(rq(c), rq(vx.inf));
            lemma_pos(rq(c), rq(b.rat));
            lemma_pos(rq(c), rq(b.inf));
            lemma_ring(qmul(rq(c), rq(b.rat)), kq, qz());
            if strict {
                lemma_int_rat_pos(-1);
                lemma_int_rat_pos(1);
                lemma_qz_sign(bnd.1);
                if c.num > 0 {
                    assert(rq(b.inf) == (-1int, 1int));
                    assert((c.num as int) * (-1int) < 0) by (nonlinear_arith)
                        requires
                            c.num > 0,
                    ;
                } else {
                    assert(rq(b.inf) == (1int, 1int));
                    assert((c.num as int) * 1int < 0) by (nonlinear_arith)
                        requires
                            c.num < 0,
                    ;
                }
                assert(qlt(bnd.1, qz()));
            } else {
                lemma_qz_sign(bnd.1);
                assert(c.num * b.inf.num == 0);
                assert(qle(bnd.1, qz()));
            }
            assert(fr(xi) == rq(vx.rat));
            assert(fi(xi) == rq(vx.inf));
            lemma_shifted(p, bnd, kq, s0, s1);
        }
    } else {
        let sv = o.num_vars() as int;
        let b = slack_bound(k, strict).unwrap();
        let mid = choose|mid: Engine| #[trigger] mid.row_var_added(&o, m, zero_spec()) && mid.ub_effect(
            &f,
            VarId(o.num_vars() as usize),
            b,
            None,
            Ok(()),
        );
        lemma_exact_neg(k);
        assert(b.wf() && b.is_fin());
        law_upper_bound_is_tightest(mid, f, VarId(sv as usize), b);
        assert(f.basic(sv) == mid.basic(sv));
        assert(f.row(sv) == mid.row(sv));
        assert(f.basic(sv));
        assert(holds(f.row(sv), vals, vals[sv]));
        assert(holds_part(f.row(sv), vals, vals[sv], true));
        assert(holds_part(f.row(sv), vals, vals[sv], false));
        let vs = vals[sv];
        f.lemma_entry_facts(sv);
        lemma_extremes(f.upper_entries(sv), f.num_guards());
        assert(f.lower(sv).leq(vals[sv]) && vals[sv].leq(f.upper(sv)));
        mid.lemma_value_facts();
        lemma_inf_order(b, mid.upper(sv), f.upper(sv));
        if b.less(mid.upper(sv)) {
            lemma_inf_order(vs, f.upper(sv), b);
        } else {
            lemma_inf_order(vs, f.upper(sv), mid.upper(sv));
            lemma_inf_order(vs, mid.upper(sv), b);
            lemma_inf_order(mid.upper(sv), b, vs);
        }
        assert(vs.leq(b));
        lemma_lex_of(vs, b);
        lemma_ring(s0, qz(), qz());
        lemma_ring(s1, qz(), qz());
        lemma_qeq_sym(rq(vs.rat), qadd(s0, qz()));
        lemma_qeq_sym(rq(vs.inf), qadd(s1, qz()));
        lemma_cancel(kq);
        lemma_ring(qneg(kq), kq, qz());
        if strict {
            lemma_int_rat_pos(-1);
        }
        lemma_shifted(xq(vs), xq(b), kq, s0, s1);
    }
}

/// A sum equivalent to `-k`, plus `k`, is zero.
proof fn lemma_cancels_k(s0: Q, x: Q, kq: Q)
    requires
        pos(s0),
        pos(x),
        pos(kq),
        qeq(s0, x),
        qeq(qadd(x, kq), qz()),
    ensures
        qeq(qadd(s0, kq), qz()),
{
    lemma_qadd_cong(s0, x, kq, kq);
    lemma_pos(x, kq);
    lemma_qeq_trans(qadd(s0, kq), qadd(x, kq), qz());
}

/// An equation `Σ m[x]·x + k = 0` that `new_eq` accepts without a guard
/// holds exactly of every assignment within the bounds that satisfies the
/// rows: the bounds it adds (on its one variable, or on a slack variable
/// equal to `Σ m[x]·x`) leave only the solutions of the equation.
pub proof fn law_eq_holds_of_its_solutions(o: Engine, f: Engine, m: Map<usize, Rational>, k: Rational, vals: Seq<InfRational>)
    requires
        o.inv(),
        f.inv(),
        coeffs_below(m, o.num_vars()),
        k.wf() && k.is_fin(),
        o.eq_outcome(&f, m, k, None, Ok(())),
        vals.len() == f.num_vars(),
        vals_fin(vals),
        f.rows_satisfied(vals),
        forall|v: int| 0 <= v < f.num_vars() ==> f.lower(v).leq(#[trigger] vals[v]) && vals[v].leq(f.upper(v)),
    ensures
        qeq(expr_part(m, k, vals, true), qz()),
        qeq(expr_part(m, k, vals, false), qz()),
{
    let n = vals.len();
    let fr = parts(vals, true);
    let fi = parts(vals, false);
    lemma_parts_pos(vals, true);
    lemma_parts_pos(vals, false);
    assert(coeffs_pos(m));
    lemma_msum_pos(m, fr, n);
    lemma_msum_pos(m, fi, n);
    let s0 = msum(m, fr, n);
    let s1 = msum(m, fi, n);
    let kq = rq(k);
    f.lemma_value_facts();
    o.lemma_value_facts();
    lemma_qz_sign(qz());
    lemma_ring(qz(), qz(), qz());
    lemma_pos(s1, qz());
    if is_constant(m) {
        assert(k.num == 0);
        lemma_qz_sign(kq);
        if m.len() == 0 {
            assert(m =~= Map::<usize, Rational>::empty()) by {
                m.dom().lemma_len0_is_empty();
            }
            lemma_msum_empty(fr, n);
            lemma_msum_empty(fi, n);
        } else {
            let x = the_key(m);
            let xi = x as int;
            assert(m.contains_key(x)) by {
                let y = m.dom().choose();
                assert(m.dom().contains(y));
            }
            let c = m[x];
            assert(m =~= Map::<usize, Rational>::empty().insert(x, c)) by {
                assert forall|y: usize| m.contains_key(y) implies y == x by {
                    if y != x {
                        assert(m.dom().remove(x).contains(y));
                        vstd::set::axiom_set_remove_len(m.dom(), x);
                        vstd::set::axiom_set_contains_len(m.dom().remove(x), y);
                    }
                }
            }
            lemma_msum_single(x, c, fr, n);
            lemma_msum_single(x, c, fi, n);
            lemma_pos(rq(c), fr(xi));
            lemma_pos(rq(c), fi(xi));
            assert(c.num * fr(xi).0 == 0) by (nonlinear_arith)
                requires
                    c.num == 0,
            ;
            assert(c.num * fi(xi).0 == 0) by (nonlinear_arith)
                requires
                    c.num == 0,
            ;
            lemma_qz_sign(qmul(rq(c), fr(xi)));
            lemma_qz_sign(qmul(rq(c), fi(xi)));
            lemma_qeq_trans(s0, qmul(rq(c), fr(xi)), qz());
            lemma_qeq_trans(s1, qmul(rq(c), fi(xi)), qz());
        }
        lemma_cancels_k(s0, qz(), kq);
        lemma_qadd_cong(s1, qz(), qz(), qz());
    } else if m.len() == 1 {
        let x = the_key(m);
        let xi = x as int;
        assert(m.contains_key(x)) by {
            let y = m.dom().choose();
            assert(m.dom().contains(y));
        }
        let c = m[x];
        assert(m =~= Map::<usize, Rational>::empty().insert(x, c)) by {
            assert forall|y: usize| m.contains_key(y) implies y == x by {
                if y != x {
                    assert(m.dom().remove(x).contains(y));
                    vstd::set::axiom_set_remove_len(m.dom(), x);
                    vstd::set::axiom_set_contains_len(m.dom().remove(x), y);
                }
            }
        }
        lemma_msum_single(x, c, fr, n);
        lemma_msum_single(x, c, fi, n);
        let b = eq_bound(c, k).unwrap();
        lemma_eq_bound_solves(c, k);
        let vx = vals[xi];
        assert(xi < f.num_vars());
        assert(f.lower(xi).leq(vals[xi]) && vals[xi].leq(f.upper(xi)));
        lemma_both_pins(o, f, VarId(x), b, c.num > 0);
        lemma_solves_same(c, k, b, vx);
        lemma_pos(rq(c), fr(xi));
        lemma_pos(rq(c), fi(xi));
        lemma_cancels_k(s0, qmul(rq(c), fr(xi)), kq);
        assert(c.num * fi(xi).0 == 0) by (nonlinear_arith)
            requires
                fi(xi).0 == 0,
        ;
        lemma_qz_sign(qmul(rq(c), fi(xi)));
        lemma_qeq_trans(s1, qmul(rq(c), fi(xi)), qz());
        lemma_qadd_cong(s1, qz(), qz(), qz());
    } else {
        let sv = o.num_vars() as int;
        let nk = k.neg_spec().unwrap();
        let b = crate::inf_rational::lift(nk);
        lemma_exact_neg(k);
        let mid = choose|mid: Engine| #[trigger] mid.row_var_added(&o, m, zero_spec()) && mid.both_effect(
            &f,
            VarId(o.num_vars() as usize),
            b,
            true,
            Ok(()),
        );
        assert(b.wf() && b.is_fin());
        lemma_both_pins(mid, f, VarId(sv as usize), b, true);
        let (midr, midr1) = choose|mi: Engine, r1: Result<(), PropagationError>| {
            &&& #[trigger] mid.bound_effect(&mi, VarId(sv as usize), b, true, r1)
            &&& (r1 is Err ==> Ok::<(), PropagationError>(()) == r1 && f == mi)
            &&& (r1 is Ok ==> mi.inv() && mi.bound_effect(&f, VarId(sv as usize), b, false, Ok(())))
        };
        assert(f.basic(sv) == midr.basic(sv));
        assert(midr.basic(sv) == mid.basic(sv));
        assert(f.row(sv) == mid.row(sv));
        assert(holds(f.row(sv), vals, vals[sv]));
        assert(holds_part(f.row(sv), vals, vals[sv], true));
        assert(holds_part(f.row(sv), vals, vals[sv], false));
        let vs = vals[sv];
        assert(f.lower(sv).leq(vals[sv]) && vals[sv].leq(f.upper(sv)));
        assert(vs.same(b));
        lemma_ring(s0, qz(), qz());
        lemma_ring(s1, qz(), qz());
        lemma_qeq_sym(rq(vs.rat), qadd(s0, qz()));
        lemma_qeq_sym(rq(vs.inf), qadd(s1, qz()));
        assert(qeq(rq(vs.rat), rq(nk)));
        lemma_qeq_trans(s0, rq(vs.rat), rq(nk));
        lemma_cancel(kq);
        lemma_ring(qneg(kq), kq, qz());
        lemma_cancels_k(s0, rq(nk), kq);
        assert(vs.inf.num * 1 == 0 * vs.inf.den);
        lemma_qz_sign(rq(vs.inf));
        lemma_qeq_trans(s1, rq(vs.inf), qz());
        lemma_qadd_cong(s1, qz(), qz(), qz());
    }
}

/// One term of the difference of two expressions is the difference of
/// their terms.
/// Scaling by `-1` is negation.
proof fn lemma_neg_one(t: Q)
    ensures
        qmul(qneg(qone()), t) == qneg(t),
{
    assert((-1) * t.0 == -t.0 && 1 * t.1 == t.1) by (nonlinear_arith);
}

proof fn lemma_diff_term(ma: Map<usize, Rational>, mb: Map<usize, Rational>, f: spec_fn(int) -> Q, k: int)
    requires
        map_ok(ma),
        map_ok(mb),
        sub_maps_ok(ma, mb),
        pos(f(k)),
        0 <= k <= usize::MAX,
    ensures
        qeq(term_q(sub_maps(ma, mb), f, k), qadd(term_q(ma, f, k), qmul(qneg(qone()), term_q(mb, f, k)))),
{
    let m = sub_maps(ma, mb);
    let x = k as usize;
    let fk = f(k);
    let tb = term_q(mb, f, k);
    let ta = term_q(ma, f, k);
    lemma_neg_one(tb);
    lemma_ring(ta, qz(), qz());
    if mb.contains_key(x) {
        let oz = or_zero(ma, x);
        let bx = mb[x];
        lemma_exact_sub(oz, bx);
        // m[x]·f ≡ (oz - bx)·f ≡ f·oz + f·(-bx)
        lemma_ring(rq(m[x]), fk, qz());
        lemma_ring(qsub(rq(oz), rq(bx)), fk, qz());
        lemma_qmul_cong(rq(m[x]), qsub(rq(oz), rq(bx)), fk, fk);
        lemma_distrib(fk, rq(oz), qneg(rq(bx)));
        lemma_pos(rq(oz), qneg(rq(bx)));
        lemma_pos(qsub(rq(oz), rq(bx)), fk);
        lemma_qeq_trans(
            qmul(rq(m[x]), fk),
            qmul(qsub(rq(oz), rq(bx)), fk),
            qadd(qmul(fk, rq(oz)), qmul(fk, qneg(rq(bx)))),
        );
        lemma_ring(fk, rq(oz), qz());
        lemma_ring(fk, qneg(rq(bx)), qz());
        lemma_ring(rq(bx), fk, qz());
        assert(qmul(fk, qneg(rq(bx))) == qneg(qmul(rq(bx), fk)));
        if !ma.contains_key(x) {
            assert(qeq(qmul(rq(oz), fk), qz()));
            lemma_qadd_cong(qmul(rq(oz), fk), qz(), qneg(qmul(rq(bx), fk)), qneg(qmul(rq(bx), fk)));
            lemma_ring(qz(), qneg(qmul(rq(bx), fk)), qz());
            lemma_pos(rq(oz), fk);
            lemma_pos(rq(bx), fk);
            lemma_pos(qmul(rq(oz), fk), qneg(qmul(rq(bx), fk)));
            lemma_qeq_trans(
                qmul(rq(m[x]), fk),
                qadd(qmul(rq(oz), fk), qneg(qmul(rq(bx), fk))),
                qneg(qmul(rq(bx), fk)),
            );
        }
    }
}

/// The difference of two expressions has, under any values, the exact
/// value of the first less that of the second.
pub proof fn law_difference_value(lhs: Lin, rhs: Lin, vals: Seq<InfRational>, rat: bool)
    requires
        lhs.wf(),
        rhs.wf(),
        difference(lhs, rhs) is Some,
        vals.len() <= usize::MAX,
        vals_fin(vals),
    ensures
        qeq(
            expr_part(difference(lhs, rhs).unwrap().0, difference(lhs, rhs).unwrap().1, vals, rat),
            qsub(expr_part(lhs.coeffs(), lhs.known_term, vals, rat), expr_part(rhs.coeffs(), rhs.known_term, vals, rat)),
        ),
{
    let n = vals.len();
    let f = parts(vals, rat);
    let (ma, mb) = (lhs.coeffs(), rhs.coeffs());
    let d = difference(lhs, rhs).unwrap();
    let md = d.0;
    lemma_parts_pos(vals, rat);
    lemma_lin_pos(lhs);
    lemma_lin_pos(rhs);
    assert forall|k: int| 0 <= k < n implies qeq(#[trigger] term_q(md, f, k), qadd(term_q(ma, f, k), qmul(qneg(qone()), term_q(mb, f, k)))) by {
        lemma_diff_term(ma, mb, f, k);
    }
    assert forall|x: usize| #[trigger] md.contains_key(x) implies md[x].den > 0 by {
        if mb.contains_key(x) {
            lemma_exact_sub(or_zero(ma, x), mb[x]);
        }
    }
    lemma_msum_lin(md, f, ma, f, mb, f, qneg(qone()), n);
    let (sa, sb, sd) = (msum(ma, f, n), msum(mb, f, n), msum(md, f, n));
    let (ka, kb, kd) = (known_part(lhs.known_term, rat), known_part(rhs.known_term, rat), known_part(d.1, rat));
    lemma_neg_one(sb);
    if rat {
        lemma_exact_sub(lhs.known_term, rhs.known_term);
    } else {
        assert(qadd(qz(), qneg(qz())) == qz());
    }
    assert(qeq(kd, qadd(ka, qneg(kb))));
    lemma_msum_pos(ma, f, n);
    lemma_msum_pos(mb, f, n);
    lemma_msum_pos(md, f, n);
    lemma_qadd_cong(sd, qadd(sa, qneg(sb)), kd, qadd(ka, qneg(kb)));
    lemma_swap(sa, qneg(sb), ka, qneg(kb));
    lemma_ring(sb, kb, qz());
    assert(qadd(qneg(sb), qneg(kb)) == qneg(qadd(sb, kb)));
    lemma_pos(sa, qneg(sb));
    lemma_pos(ka, qneg(kb));
    lemma_pos(sd, kd);
    assert(qeq(qadd(sd, kd), qadd(qadd(sa, qneg(sb)), qadd(ka, qneg(kb)))));
}

/// The exact value of an expression with well-formed coefficients has
/// positive denominators.
proof fn lemma_expr_pos(m: Map<usize, Rational>, k: Rational, vals: Seq<InfRational>, rat: bool)
    requires
        map_ok(m),
        k.wf() && k.is_fin(),
        vals_fin(vals),
    ensures
        pos(expr_part(m, k, vals, rat)),
{
    lemma_parts_pos(vals, rat);
    assert(coeffs_pos(m));
    lemma_msum_pos(m, parts(vals, rat), vals.len());
    lemma_pos(msum(m, parts(vals, rat), vals.len()), known_part(k, rat));
}

/// The coefficients of a difference are well formed, finite in number and
/// on the variables of the two expressions.
proof fn lemma_diff_below(e: Engine, lhs: Lin, rhs: Lin)
    requires
        e.lin_ok(lhs),
        e.lin_ok(rhs),
        difference(lhs, rhs) is Some,
    ensures
        coeffs_below(difference(lhs, rhs).unwrap().0, e.num_vars()),
        difference(lhs, rhs).unwrap().1.wf() && difference(lhs, rhs).unwrap().1.is_fin(),
{
    let (ma, mb) = (lhs.coeffs(), rhs.coeffs());
    let md = sub_maps(ma, mb);
    lhs.lemma_coeffs_ok();
    rhs.lemma_coeffs_ok();
    vstd::set::axiom_set_union_finite(ma.dom(), mb.dom());
    assert(md.dom() =~= ma.dom().union(mb.dom()));
    assert forall|x: usize| #[trigger] md.contains_key(x) implies md[x].wf() && md[x].is_fin() && x < e.num_vars() by {
        if mb.contains_key(x) {
            lemma_exact_sub(or_zero(ma, x), mb[x]);
            let i = choose|i: int| 0 <= i < rhs.vars@.len() && rhs.vars@[i].0.0 == x;
        } else {
            let i = choose|i: int| 0 <= i < lhs.vars@.len() && lhs.vars@[i].0.0 == x;
        }
    }
    lemma_exact_sub(lhs.known_term, rhs.known_term);
}

/// `a - b` compared with zero is `a` compared with `b`.
proof fn lemma_qsub_sign(a: Q, b: Q)
    requires
        pos(a),
        pos(b),
    ensures
        qlt(qsub(a, b), qz()) <==> qlt(a, b),
        qeq(qsub(a, b), qz()) <==> qeq(a, b),
{
    assert((-b.0) * a.1 == -(b.0 * a.1)) by (nonlinear_arith);
    lemma_qz_sign(qsub(a, b));
}

/// A difference below (or at most, or equal to) zero orders its two sides.
proof fn lemma_sub_lex(a: (Q, Q), b: (Q, Q), d: (Q, Q))
    requires
        pair_pos(a),
        pair_pos(b),
        pair_pos(d),
        qeq(d.0, qsub(a.0, b.0)),
        qeq(d.1, qsub(a.1, b.1)),
    ensures
        lex_lt(d, (qz(), qz())) ==> lex_lt(a, b),
        lex_le(d, (qz(), qz())) ==> lex_le(a, b),
        qeq(d.0, qz()) && qeq(d.1, qz()) ==> qeq(a.0, b.0) && qeq(a.1, b.1),
{
    lemma_qsub_sign(a.0, b.0);
    lemma_qsub_sign(a.1, b.1);
    lemma_pos(a.0, qneg(b.0));
    lemma_pos(a.1, qneg(b.1));
    lemma_qorder(d.0, qsub(a.0, b.0), qz());
    lemma_qorder(d.1, qsub(a.1, b.1), qz());
    lemma_qorder(qsub(a.0, b.0), d.0, qz());
    lemma_qorder(qsub(a.1, b.1), d.1, qz());
    lemma_qorder(a.1, b.1, b.1);
    lemma_qorder(d.1, qz(), qz());
    lemma_qz_sign(qz());
    if qeq(d.0, qz()) {
        lemma_qeq_sym(d.0, qsub(a.0, b.0));
        lemma_qeq_trans(qsub(a.0, b.0), d.0, qz());
    }
    if qeq(d.1, qz()) {
        lemma_qeq_sym(d.1, qsub(a.1, b.1));
        lemma_qeq_trans(qsub(a.1, b.1), d.1, qz());
    }
}

/// A constraint accepted without a guard keeps the rows there were: values
/// that satisfy the rows after it satisfy those before.
proof fn lemma_lt_keeps_rows(
    o: Engine,
    f: Engine,
    m: Map<usize, Rational>,
    k: Rational,
    strict: bool,
    vals: Seq<InfRational>,
)
    requires
        o.inv(),
        o.lt_outcome(&f, m, k, strict, None, Ok(())),
        f.rows_satisfied(vals),
    ensures
        o.rows_satisfied(vals),
        o.num_vars() <= f.num_vars(),
{
    if is_constant(m) {
    } else if m.len() == 1 {
        law_same_tableau_same_rows(o, f, vals);
    } else {
        let b = slack_bound(k, strict).unwrap();
        let mid = choose|mid: Engine| #[trigger] mid.row_var_added(&o, m, zero_spec()) && mid.ub_effect(
            &f,
            VarId(o.num_vars() as usize),
            b,
            None,
            Ok(()),
        );
        law_same_tableau_same_rows(mid, f, vals);
        assert forall|b: int| 0 <= b < o.num_vars() && #[trigger] o.basic(b) implies holds(o.row(b), vals, vals[b]) by {
            assert(mid.value(b) == o.value(b));
            assert(mid.basic(b));
        }
    }
}

/// An equation accepted without a guard keeps the rows there were.
proof fn lemma_eq_keeps_rows(o: Engine, f: Engine, m: Map<usize, Rational>, k: Rational, vals: Seq<InfRational>)
    requires
        o.inv(),
        o.eq_outcome(&f, m, k, None, Ok(())),
        f.rows_satisfied(vals),
    ensures
        o.rows_satisfied(vals),
        o.num_vars() <= f.num_vars(),
{
    if is_constant(m) {
    } else {
        let (g, x, b, lf) = if m.len() == 1 {
            (o, the_key(m), eq_bound(m[the_key(m)], k).unwrap(), m[the_key(m)].num > 0)
        } else {
            let mid = choose|mid: Engine| #[trigger] mid.row_var_added(&o, m, zero_spec()) && mid.both_effect(
                &f,
                VarId(o.num_vars() as usize),
                crate::inf_rational::lift(k.neg_spec().unwrap()),
                true,
                Ok(()),
            );
            (mid, o.num_vars() as usize, crate::inf_rational::lift(k.neg_spec().unwrap()), true)
        };
        let (mi, r1) = choose|mi: Engine, r1: Result<(), PropagationError>| {
            &&& #[trigger] g.bound_effect(&mi, VarId(x), b, lf, r1)
            &&& (r1 is Err ==> Ok::<(), PropagationError>(()) == r1 && f == mi)
            &&& (r1 is Ok ==> mi.inv() && mi.bound_effect(&f, VarId(x), b, !lf, Ok(())))
        };
        law_same_tableau_same_rows(mi, f, vals);
        law_same_tableau_same_rows(g, mi, vals);
        if m.len() != 1 {
            assert forall|b: int| 0 <= b < o.num_vars() && #[trigger] o.basic(b) implies holds(o.row(b), vals, vals[b]) by {
                assert(g.value(b) == o.value(b));
                assert(g.basic(b));
            }
        }
    }
}

/// A constraint `lhs < rhs` (strict) or `lhs <= rhs` that `new_lt` accepts
/// without a guard holds of every assignment within the bounds that
/// satisfies the rows: whatever the reduction and the bound it adds, the
/// exact value of `lhs` is below (or at most) that of `rhs`.
pub proof fn law_lt_constraint_holds(o: Engine, f: Engine, lhs: Lin, rhs: Lin, strict: bool, vals: Seq<InfRational>)
    requires
        o.inv(),
        f.inv(),
        o.lin_ok(lhs),
        o.lin_ok(rhs),
        o.reduction(lhs, rhs) is Some,
        o.lt_outcome(&f, o.reduction(lhs, rhs).unwrap().0, o.reduction(lhs, rhs).unwrap().1, strict, None, Ok(())),
        vals.len() == f.num_vars(),
        vals_fin(vals),
        f.rows_satisfied(vals),
        forall|v: int| 0 <= v < f.num_vars() ==> f.lower(v).leq(#[trigger] vals[v]) && vals[v].leq(f.upper(v)),
    ensures
        strict ==> lex_lt(
            (expr_part(lhs.coeffs(), lhs.known_term, vals, true), expr_part(lhs.coeffs(), lhs.known_term, vals, false)),
            (expr_part(rhs.coeffs(), rhs.known_term, vals, true), expr_part(rhs.coeffs(), rhs.known_term, vals, false)),
        ),
        !strict ==> lex_le(
            (expr_part(lhs.coeffs(), lhs.known_term, vals, true), expr_part(lhs.coeffs(), lhs.known_term, vals, false)),
            (expr_part(rhs.coeffs(), rhs.known_term, vals, true), expr_part(rhs.coeffs(), rhs.known_term, vals, false)),
        ),
{
    let red = o.reduction(lhs, rhs).unwrap();
    let d = difference(lhs, rhs).unwrap();
    lemma_lt_keeps_rows(o, f, red.0, red.1, strict, vals);
    f.lemma_value_facts();
    lemma_diff_below(o, lhs, rhs);
    lhs.lemma_coeffs_ok();
    rhs.lemma_coeffs_ok();
    let vs = term_vars(lhs.vars@) + term_vars(rhs.vars@);
    lemma_reduce_value(o, d, vs, vals, true);
    lemma_reduce_value(o, d, vs, vals, false);
    law_difference_value(lhs, rhs, vals, true);
    law_difference_value(lhs, rhs, vals, false);
    law_lt_bounds_its_solutions(o, f, red.0, red.1, strict, vals);
    let a = (expr_part(lhs.coeffs(), lhs.known_term, vals, true), expr_part(lhs.coeffs(), lhs.known_term, vals, false));
    let b = (expr_part(rhs.coeffs(), rhs.known_term, vals, true), expr_part(rhs.coeffs(), rhs.known_term, vals, false));
    let dd = (expr_part(d.0, d.1, vals, true), expr_part(d.0, d.1, vals, false));
    let rr = (expr_part(red.0, red.1, vals, true), expr_part(red.0, red.1, vals, false));
    lemma_expr_pos(lhs.coeffs(), lhs.known_term, vals, true);
    lemma_expr_pos(lhs.coeffs(), lhs.known_term, vals, false);
    lemma_expr_pos(rhs.coeffs(), rhs.known_term, vals, true);
    lemma_expr_pos(rhs.coeffs(), rhs.known_term, vals, false);
    lemma_expr_pos(d.0, d.1, vals, true);
    lemma_expr_pos(d.0, d.1, vals, false);
    lemma_expr_pos(red.0, red.1, vals, true);
    lemma_expr_pos(red.0, red.1, vals, false);
    // the reduced expression has the value of the difference
    lemma_qeq_sym(dd.0, rr.0);
    lemma_qeq_sym(dd.1, rr.1);
    lemma_qeq_trans(rr.0, dd.0, qsub(a.0, b.0));
    lemma_qeq_trans(rr.1, dd.1, qsub(a.1, b.1));
    lemma_sub_lex(a, b, rr);
}

/// An equation `lhs == rhs` that `new_eq` accepts without a guard holds
/// exactly of every assignment within the bounds that satisfies the rows.
pub proof fn law_eq_constraint_holds(o: Engine, f: Engine, lhs: Lin, rhs: Lin, vals: Seq<InfRational>)
    requires
        o.inv(),
        f.inv(),
        o.lin_ok(lhs),
        o.lin_ok(rhs),
        o.reduction(lhs, rhs) is Some,
        o.eq_outcome(&f, o.reduction(lhs, rhs).unwrap().0, o.reduction(lhs, rhs).unwrap().1, None, Ok(())),
        vals.len() == f.num_vars(),
        vals_fin(vals),
        f.rows_satisfied(vals),
        forall|v: int| 0 <= v < f.num_vars() ==> f.lower(v).leq(#[trigger] vals[v]) && vals[v].leq(f.upper(v)),
    ensures
        qeq(expr_part(lhs.coeffs(), lhs.known_term, vals, true), expr_part(rhs.coeffs(), rhs.known_term, vals, true)),
        qeq(expr_part(lhs.coeffs(), lhs.known_term, vals, false), expr_part(rhs.coeffs(), rhs.known_term, vals, false)),
{
    let red = o.reduction(lhs, rhs).unwrap();
    let d = difference(lhs, rhs).unwrap();
    lemma_eq_keeps_rows(o, f, red.0, red.1, vals);
    f.lemma_value_facts();
    lemma_diff_below(o, lhs, rhs);
    let vs = term_vars(lhs.vars@) + term_vars(rhs.vars@);
    lemma_reduce_value(o, d, vs, vals, true);
    lemma_reduce_value(o, d, vs, vals, false);
    law_difference_value(lhs, rhs, vals, true);
    law_difference_value(lhs, rhs, vals, false);
    law_eq_holds_of_its_solutions(o, f, red.0, red.1, vals);
    let a = (expr_part(lhs.coeffs(), lhs.known_term, vals, true), expr_part(lhs.coeffs(), lhs.known_term, vals, false));
    let b = (expr_part(rhs.coeffs(), rhs.known_term, vals, true), expr_part(rhs.coeffs(), rhs.known_term, vals, false));
    let dd = (expr_part(d.0, d.1, vals, true), expr_part(d.0, d.1, vals, false));
    let rr = (expr_part(red.0, red.1, vals, true), expr_part(red.0, red.1, vals, false));
    lhs.lemma_coeffs_ok();
    rhs.lemma_coeffs_ok();
    lemma_expr_pos(lhs.coeffs(), lhs.known_term, vals, true);
    lemma_expr_pos(lhs.coeffs(), lhs.known_term, vals, false);
    lemma_expr_pos(rhs.coeffs(), rhs.known_term, vals, true);
    lemma_expr_pos(rhs.coeffs(), rhs.known_term, vals, false);
    lemma_expr_pos(d.0, d.1, vals, true);
    lemma_expr_pos(d.0, d.1, vals, false);
    lemma_expr_pos(red.0, red.1, vals, true);
    lemma_expr_pos(red.0, red.1, vals, false);
    lemma_qeq_sym(dd.0, rr.0);
    lemma_qeq_sym(dd.1, rr.1);
    lemma_qeq_trans(rr.0, dd.0, qsub(a.0, b.0));
    lemma_qeq_trans(rr.1, dd.1, qsub(a.1, b.1));
    lemma_sub_lex(a, b, rr);
}

/// `c·v + k` as exact parts.
pub open spec fn scaled_plus(c: Rational, k: Rational, v: InfRational) -> (Q, Q) {
    (qadd(qmul(rq(c), rq(v.rat)), rq(k)), qadd(qmul(rq(c), rq(v.inf)), qz()))
}

/// A value on the allowed side of the bound that `c·x + k < 0` (strict)
/// or `<= 0` puts on `x` satisfies the constraint.
proof fn lemma_lt_bound_side(c: Rational, k: Rational, strict: bool, v: InfRational)
    requires
        c.wf() && c.is_fin() && c.num != 0,
        k.wf() && k.is_fin(),
        lt_bound(c, k, strict) is Some,
        v.wf() && v.is_fin(),
        c.num > 0 ==> v.leq(lt_bound(c, k, strict).unwrap()),
        c.num < 0 ==> lt_bound(c, k, strict).unwrap().leq(v),
    ensures
        strict ==> lex_lt(scaled_plus(c, k, v), (qz(), qz())),
        !strict ==> lex_le(scaled_plus(c, k, v), (qz(), qz())),
{
    let b = lt_bound(c, k, strict).unwrap();
    assert(b.rat == eq_bound(c, k).unwrap().rat);
    lemma_eq_bound_solves(c, k);
    lemma_int_rat_pos(-1);
    lemma_int_rat_pos(1);
    assert(b.wf() && b.is_fin());
    if c.num > 0 {
        lemma_lex_of(v, b);
        lemma_lex_scale(rq(c), xq(v), xq(b));
    } else {
        lemma_lex_of(b, v);
        lemma_lex_scale(rq(c), xq(b), xq(v));
    }
    let p = pair_scale(rq(c), xq(v));
    let bnd = pair_scale(rq(c), xq(b));
    let kq = rq(k);
    lemma_pos(rq(c), rq(v.rat));
    lemma_pos(rq(c), rq(v.inf));
    lemma_pos(rq(c), rq(b.rat));
    lemma_pos(rq(c), rq(b.inf));
    lemma_ring(qmul(rq(c), rq(b.rat)), kq, qz());
    lemma_qz_sign(bnd.1);
    if strict {
        if c.num > 0 {
            assert(rq(b.inf) == (-1int, 1int));
            assert((c.num as int) * (-1int) < 0) by (nonlinear_arith)
                requires
                    c.num > 0,
            ;
        } else {
            assert(rq(b.inf) == (1int, 1int));
            assert((c.num as int) * 1int < 0) by (nonlinear_arith)
                requires
                    c.num < 0,
            ;
        }
        assert(qlt(bnd.1, qz()));
    } else {
        assert(c.num * b.inf.num == 0);
        assert(qle(bnd.1, qz()));
    }
    lemma_shifted(p, bnd, kq, p.0, p.1);
}

/// A constraint `c·x + k < 0` (strict) or `<= 0` on one variable, added
/// under a guard, is recorded by the guard as a bound of `x` that only
/// values satisfying the constraint meet: every value at most the recorded
/// upper bound (for positive `c`), or at least the recorded lower bound
/// (for negative `c`), satisfies it.
pub proof fn law_lt_guard_records_the_constraint(
    o: Engine,
    f: Engine,
    m: Map<usize, Rational>,
    k: Rational,
    strict: bool,
    g: GuardId,
)
    requires
        o.inv(),
        coeffs_below(m, o.num_vars()),
        k.wf() && k.is_fin(),
        m.len() == 1,
        !is_constant(m),
        g.0 < o.num_guards(),
        o.lt_outcome(&f, m, k, strict, Some(g), Ok(())),
    ensures
        m[the_key(m)].num > 0 ==> f.pending_ubs(g.0 as int).contains_key(the_key(m)) && forall|v: InfRational|
            v.wf() && v.is_fin() && #[trigger] v.leq(f.pending_ubs(g.0 as int)[the_key(m)]) ==> (strict ==> lex_lt(
                scaled_plus(m[the_key(m)], k, v),
                (qz(), qz()),
            )) && (!strict ==> lex_le(scaled_plus(m[the_key(m)], k, v), (qz(), qz()))),
        m[the_key(m)].num < 0 ==> f.pending_lbs(g.0 as int).contains_key(the_key(m)) && forall|v: InfRational|
            v.wf() && v.is_fin() && #[trigger] f.pending_lbs(g.0 as int)[the_key(m)].leq(v) ==> (strict ==> lex_lt(
                scaled_plus(m[the_key(m)], k, v),
                (qz(), qz()),
            )) && (!strict ==> lex_le(scaled_plus(m[the_key(m)], k, v), (qz(), qz()))),
{
    let x = the_key(m);
    let c = m[x];
    assert(m.contains_key(x)) by {
        let y = m.dom().choose();
        assert(m.dom().contains(y));
    }
    let b = lt_bound(c, k, strict).unwrap();
    let gi = g.0 as int;
    assert(b.rat == eq_bound(c, k).unwrap().rat);
    lemma_eq_bound_solves(c, k);
    lemma_int_rat_pos(-1);
    lemma_int_rat_pos(1);
    assert(b.wf() && b.is_fin());
    o.lemma_pending_facts(gi, x);
    assert(f.guard_records(&o, x as int, if c.num > 0 { None } else { Some(b) }, if c.num > 0 { Some(b) } else { None }, g));
    assert(f.pending_lbs(gi) == (if c.num > 0 { o.pending_lbs(gi) } else { o.pending_lbs_after(gi, x as int, b, Some(g)) }));
    if c.num > 0 {
        let rec = f.pending_ubs(gi)[x];
        assert(rec == min_ub(o.pending_ubs(gi), x, b));
        if o.pending_ubs(gi).contains_key(x) {
            lemma_inf_order(b, o.pending_ubs(gi)[x], b);
        } else {
            lemma_inf_order(b, b, b);
        }
        assert(rec.leq(b));
        assert forall|v: InfRational| v.wf() && v.is_fin() && #[trigger] v.leq(rec) implies (strict ==> lex_lt(
            scaled_plus(c, k, v),
            (qz(), qz()),
        )) && (!strict ==> lex_le(scaled_plus(c, k, v), (qz(), qz()))) by {
            lemma_inf_order(v, rec, b);
            lemma_lt_bound_side(c, k, strict, v);
        }
    } else {
        let rec = f.pending_lbs(gi)[x];
        assert(rec == max_lb(o.pending_lbs(gi), x, b));
        if o.pending_lbs(gi).contains_key(x) {
            lemma_inf_order(o.pending_lbs(gi)[x], b, b);
        } else {
            lemma_inf_order(b, b, b);
        }
        assert(b.leq(rec));
        assert forall|v: InfRational| v.wf() && v.is_fin() && #[trigger] rec.leq(v) implies (strict ==> lex_lt(
            scaled_plus(c, k, v),
            (qz(), qz()),
        )) && (!strict ==> lex_le(scaled_plus(c, k, v), (qz(), qz()))) by {
            lemma_inf_order(b, rec, v);
            lemma_lt_bound_side(c, k, strict, v);
        }
    }
}

/// A conflict that asserting guard `c` answers names `c` and the guards of
/// the tightest bound that one of the bounds `c` records crosses: the upper
/// bound of `x` below a recorded lower bound, or the lower bound of `x`
/// (with those of `c` set) above a recorded upper bound.
pub proof fn law_assert_conflict_names_the_crossed_bound(o: Engine, c: GuardId, l: Seq<GuardId>)
    requires
        o.inv(),
        c.0 < o.num_guards(),
        o.guard_conflict(c, l),
    ensures
        l.contains(c),
        (exists|x: usize, i: int| {
            &&& #[trigger] o.pending_lbs(c.0 as int).contains_key(x)
            &&& 0 <= i < o.upper_entries(x as int).len()
            &&& (#[trigger] o.upper_entries(x as int)[i]).0.same(o.upper(x as int))
            &&& o.upper(x as int).less(o.pending_lbs(c.0 as int)[x])
            &&& held_by(o.upper_entries(x as int)[i], l)
        }) || (exists|x: usize, i: int| {
            &&& #[trigger] o.pending_ubs(c.0 as int).contains_key(x)
            &&& 0 <= i < o.lower_entries_asserting(c, x as int).len()
            &&& (#[trigger] o.lower_entries_asserting(c, x as int)[i]).0.same(lb_of(o.lower_entries_asserting(c, x as int)))
            &&& o.pending_ubs(c.0 as int)[x].less(lb_of(o.lower_entries_asserting(c, x as int)))
            &&& held_by(o.lower_entries_asserting(c, x as int)[i], l)
        }),
{
    let gi = c.0 as int;
    if exists|x: usize| #[trigger] o.pending_lbs(gi).contains_key(x) && o.upper(x as int).less(o.pending_lbs(gi)[x])
        && l == o.lb_conflict(x as int, Some(c)) {
        let x = choose|x: usize| #[trigger] o.pending_lbs(gi).contains_key(x) && o.upper(x as int).less(o.pending_lbs(gi)[x])
            && l == o.lb_conflict(x as int, Some(c));
        let s = o.upper_entries(x as int);
        o.lemma_pending_facts(gi, x);
        assert(s.len() > 0);
        assert(s[0].0.rat.same(s[0].0.rat) && s[0].0.inf.same(s[0].0.inf));
        lemma_suffix_held(opt_seq(Some(c)), s[0]);
        assert(l[0] == c);
        assert(o.upper_entries(x as int)[0].0.same(o.upper(x as int)));
    } else {
        let x = choose|x: usize| #[trigger] o.pending_ubs(gi).contains_key(x) && o.pending_ubs(gi)[x].less(
            lb_of(o.lower_entries_asserting(c, x as int)),
        ) && l == opt_seq(Some(c)) + o.lower_entries_asserting(c, x as int).last().1;
        let s = o.lower_entries_asserting(c, x as int);
        o.lemma_pending_facts(gi, x);
        assert(s.len() > 0);
        let i = s.len() - 1;
        assert(s[i].0.rat.same(s[i].0.rat) && s[i].0.inf.same(s[i].0.inf));
        lemma_suffix_held(opt_seq(Some(c)), s[i]);
        assert(l[0] == c);
        assert(s[i].0.same(lb_of(s)));
    }
}

} // verus!
