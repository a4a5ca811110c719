//! The exact values of linear expressions, and why the values of the basic
//! variables keep satisfying their rows as the simplex method moves values
//! and trades basic for non-basic variables.
use vstd::prelude::*;
use crate::exact::{
    Q, coeffs_pos, lemma_add_cancel, lemma_add_zero, lemma_distrib, lemma_cancel, lemma_exact_add, lemma_exact_div,
    lemma_exact_mul, lemma_exact_neg, lemma_exact_sub, lemma_msum_empty, lemma_msum_eq, lemma_qle_add, lemma_qle_scale,
    lemma_qorder, lemma_swap, qle, qlt,
    lemma_inv, lemma_msum_diff, lemma_msum_lin, lemma_msum_pos, lemma_msum_single, lemma_mul_zero, lemma_pos,
    lemma_qadd_cong, lemma_qeq_sym, lemma_qeq_trans, lemma_qmul_cong, lemma_ring, lemma_term_pos, msum, pos, qadd,
    qeq, qinv, qmul, qneg, qone, qsub, qz, rq, term_q, vals_pos,
};
use crate::engine::fold_terms;
use crate::inf_rational::InfRational;
use crate::terms::{Term, lemma_push_term, sorted_terms, term_map};
use crate::lin::{Lin, coeffs_ok, cancels, divide_ok, is_zero_value, map_ok, over, subst_coeff, subst_map, subst_ok};
use crate::rational::Rational;
use crate::var::VarId;

verus! {

/// `(a + k) + (b + c)` regrouped as `((a + b) + k) + c`.
pub proof fn lemma_regroup(a: Q, k: Q, b: Q, c: Q)
    ensures
        qadd(qadd(a, k), qadd(b, c)) == qadd(qadd(qadd(a, b), k), c),
{
    lemma_ring(a, k, qadd(b, c));
    lemma_ring(k, b, c);
    lemma_ring(k, b, qz());
    lemma_ring(b, k, c);
    lemma_ring(a, qadd(b, k), c);
    lemma_ring(a, b, k);
}

/// `c · (g - f)` is `c·g + -(c·f)`.
pub proof fn lemma_scaled_difference(c: Q, g: Q, f: Q)
    requires
        pos(c),
    ensures
        qeq(qmul(c, qsub(g, f)), qadd(qmul(c, g), qneg(qmul(c, f)))),
{
    lemma_distrib(c, g, qneg(f));
    lemma_ring(c, qneg(f), qz());
    lemma_ring(f, c, qz());
    lemma_ring(qneg(f), c, qz());
    assert(qmul(c, qneg(f)) == qneg(qmul(c, f))) by {
        lemma_ring(f, c, qz());
        lemma_ring(c, f, qz());
    }
}

/// When the values `f` give way to `g`, which differ from `f` at most at
/// `x` among the variables of `m`, a value `vw` of `Σ m·f + kw` that moves by
/// `m[x] · (g(x) - f(x))` becomes a value of `Σ m·g + kw`.
pub proof fn lemma_move_part(
    m: Map<usize, Rational>,
    f: spec_fn(int) -> Q,
    g: spec_fn(int) -> Q,
    n: nat,
    x: int,
    kw: Q,
    vw: Q,
    vw2: Q,
)
    requires
        0 <= x < n,
        x <= usize::MAX,
        coeffs_pos(m),
        vals_pos(f, n),
        vals_pos(g, n),
        pos(kw),
        pos(vw),
        pos(vw2),
        forall|k: int| 0 <= k < n && k != x && m.contains_key(k as usize) ==> #[trigger] g(k) == f(k),
        qeq(vw, qadd(msum(m, f, n), kw)),
        m.contains_key(x as usize) ==> qeq(vw2, qadd(vw, qmul(rq(m[x as usize]), qsub(g(x), f(x))))),
        !m.contains_key(x as usize) ==> vw2 == vw,
    ensures
        qeq(vw2, qadd(msum(m, g, n), kw)),
{
    let mf = msum(m, f, n);
    let mg = msum(m, g, n);
    assert forall|k: int| 0 <= k < n && k != x implies #[trigger] term_q(m, g, k) == term_q(m, f, k) by {
        if m.contains_key(k as usize) {
            assert(g(k) == f(k));
        }
    }
    lemma_msum_diff(m, g, m, f, n, x);
    lemma_msum_pos(m, f, n);
    lemma_msum_pos(m, g, n);
    lemma_pos(mf, kw);
    lemma_pos(mg, kw);
    if m.contains_key(x as usize) {
        let c = rq(m[x as usize]);
        let cg = qmul(c, g(x));
        let cf = qmul(c, f(x));
        assert(pos(c));
        lemma_pos(c, g(x));
        lemma_pos(c, f(x));
        lemma_pos(cg, qneg(cf));
        lemma_pos(mf, cg);
        lemma_pos(mg, cf);
        lemma_pos(qadd(mf, cg), kw);
        lemma_pos(qadd(mg, cf), kw);
        lemma_pos(qadd(mf, kw), qadd(cg, qneg(cf)));
        lemma_pos(g(x), qneg(f(x)));
        lemma_pos(c, qsub(g(x), f(x)));
        // vw2 ≡ (mf + kw) + c·(g - f)
        lemma_pos(vw, qmul(c, qsub(g(x), f(x))));
        lemma_qadd_cong(vw, qadd(mf, kw), qmul(c, qsub(g(x), f(x))), qmul(c, qsub(g(x), f(x))));
        lemma_qeq_trans(vw2, qadd(vw, qmul(c, qsub(g(x), f(x)))), qadd(qadd(mf, kw), qmul(c, qsub(g(x), f(x)))));
        // ≡ (mf + kw) + (cg + -cf)
        lemma_scaled_difference(c, g(x), f(x));
        lemma_qadd_cong(qadd(mf, kw), qadd(mf, kw), qmul(c, qsub(g(x), f(x))), qadd(cg, qneg(cf)));
        lemma_pos(qadd(mf, kw), qmul(c, qsub(g(x), f(x))));
        lemma_qeq_trans(vw2, qadd(qadd(mf, kw), qmul(c, qsub(g(x), f(x)))), qadd(qadd(mf, kw), qadd(cg, qneg(cf))));
        // = ((mf + cg) + kw) + -cf
        lemma_regroup(mf, kw, cg, qneg(cf));
        // ≡ ((mg + cf) + kw) + -cf
        lemma_qeq_sym(qadd(mg, cf), qadd(mf, cg));
        lemma_qadd_cong(qadd(mf, cg), qadd(mg, cf), kw, kw);
        lemma_qadd_cong(qadd(qadd(mf, cg), kw), qadd(qadd(mg, cf), kw), qneg(cf), qneg(cf));
        lemma_pos(qadd(qadd(mf, cg), kw), qneg(cf));
        lemma_qeq_trans(vw2, qadd(qadd(qadd(mf, cg), kw), qneg(cf)), qadd(qadd(qadd(mg, cf), kw), qneg(cf)));
        // = (mg + kw) + (cf + -cf)
        lemma_regroup(mg, kw, cf, qneg(cf));
        // ≡ (mg + kw) + 0
        lemma_cancel(cf);
        lemma_qadd_cong(qadd(mg, kw), qadd(mg, kw), qadd(cf, qneg(cf)), qz());
        lemma_pos(cf, qneg(cf));
        lemma_pos(qadd(mg, kw), qadd(cf, qneg(cf)));
        lemma_qeq_trans(vw2, qadd(qadd(mg, kw), qadd(cf, qneg(cf))), qadd(qadd(mg, kw), qz()));
        lemma_ring(qadd(mg, kw), qz(), qz());
    } else {
        lemma_ring(mg, qz(), qz());
        lemma_ring(mf, qz(), qz());
        lemma_qadd_cong(mf, mg, kw, kw);
        lemma_qeq_trans(vw2, qadd(mf, kw), qadd(mg, kw));
    }
}

/// The coefficients of the row of `e`, solved from a row `r` of `l` that
/// has coefficient `c` on `e`: `e = (1/c)·l + Σ (r[k] / -c)·k`.
pub open spec fn solved(r: Map<usize, Rational>, e: usize, l: usize) -> Map<usize, Rational> {
    let c = r[e];
    r.remove(e).map_values(over(c.neg_spec().unwrap())).insert(l, Rational { num: 1, den: 1 }.div_spec(c).unwrap())
}

/// Solving the row of `l` for `e` needs a negation and divisions in range.
pub open spec fn solvable(r: Map<usize, Rational>, e: usize) -> bool {
    let c = r[e];
    &&& r.contains_key(e)
    &&& c.num != 0
    &&& c.neg_spec() is Some
    &&& divide_ok(r.remove(e), c.neg_spec().unwrap())
    &&& Rational { num: 1, den: 1 }.div_spec(c) is Some
}

/// If `f(l)` is `Σ r·f + kl`, then `f(e)` is `Σ solved(r)·f + kp`, where
/// `kp` is `kl / -c`.
pub proof fn lemma_solve_part(r: Map<usize, Rational>, e: usize, l: usize, f: spec_fn(int) -> Q, n: nat, kl: Q, kp: Q)
    requires
        e < n,
        l < n,
        e != l,
        n <= usize::MAX,
        map_ok(r),
        solvable(r, e),
        !r.contains_key(l),
        vals_pos(f, n),
        pos(kl),
        pos(kp),
        qeq(f(l as int), qadd(msum(r, f, n), kl)),
        qeq(kp, qmul(kl, qinv(rq(r[e].neg_spec().unwrap())))),
    ensures
        qeq(f(e as int), qadd(msum(solved(r, e, l), f, n), kp)),
{
    let c = r[e];
    let cq = rq(c);
    let cn = c.neg_spec().unwrap();
    let ic = qinv(cq);
    let s = qinv(rq(cn));
    let oc = Rational { num: 1, den: 1 }.div_spec(c).unwrap();
    let rr = r.remove(e);
    let pc = solved(r, e, l);
    let single = Map::<usize, Rational>::empty().insert(l, oc);
    let fe = f(e as int);
    let fl = f(l as int);
    assert(coeffs_pos(r));
    assert(c.den > 0);
    lemma_exact_neg(c);
    lemma_inv(cq);
    assert(s == qneg(ic));
    lemma_exact_div(Rational { num: 1, den: 1 }, c);
    lemma_ring(ic, ic, ic);
    assert(rq(Rational { num: 1, den: 1 }) == qone());
    assert(qeq(rq(oc), ic));
    assert(coeffs_pos(rr));
    assert(coeffs_pos(single));
    assert forall|k: usize| pc.contains_key(k) implies (#[trigger] pc[k]).den > 0 by {
        if k != l {
            assert(rr.contains_key(k));
            assert(rr[k] == r[k]);
            lemma_exact_div(r[k], cn);
        }
    }
    // Σ r·f ≡ Σ rr·f + c·fe
    assert forall|k: int| 0 <= k < n && k != e implies #[trigger] term_q(r, f, k) == term_q(rr, f, k) by {
        assert(k as usize as int == k);
    }
    lemma_msum_diff(r, f, rr, f, n, e as int);
    assert(term_q(rr, f, e as int) == qz());
    assert(term_q(r, f, e as int) == qmul(cq, fe));
    let mr = msum(r, f, n);
    let m = msum(rr, f, n);
    lemma_ring(mr, qz(), qz());
    lemma_msum_pos(r, f, n);
    lemma_msum_pos(rr, f, n);
    lemma_pos(cq, fe);
    lemma_pos(m, qmul(cq, fe));
    // Σ pc·f ≡ Σ single·f + s·Σ rr·f
    assert forall|k: int| 0 <= k < n implies qeq(
        #[trigger] term_q(pc, f, k),
        qadd(term_q(single, f, k), qmul(s, term_q(rr, f, k))),
    ) by {
        assert(k as usize as int == k);
        let ku = k as usize;
        assert(pos(f(k)));
        if ku == l {
            assert(!rr.contains_key(l));
            lemma_mul_zero(s, qz());
            lemma_pos(s, qz());
            lemma_pos(rq(oc), fl);
            lemma_add_zero(term_q(single, f, k), qmul(s, qz()));
            lemma_qeq_sym(qadd(term_q(single, f, k), qmul(s, qz())), term_q(single, f, k));
        } else if rr.contains_key(ku) {
            let a = rq(r[ku]);
            assert(rr[ku] == r[ku]);
            lemma_exact_div(r[ku], cn);
            assert(pc[ku] == r[ku].div_spec(cn).unwrap());
            lemma_qmul_cong(rq(pc[ku]), qmul(a, s), f(k), f(k));
            lemma_ring(a, s, f(k));
            lemma_ring(s, a, f(k));
            lemma_ring(a, s, qz());
            lemma_ring(qmul(s, qmul(a, f(k))), qz(), qz());
        } else {
            assert(!pc.contains_key(ku));
            lemma_mul_zero(s, qz());
            lemma_pos(s, qz());
            lemma_add_zero(qz(), qmul(s, qz()));
            lemma_qeq_sym(qadd(qz(), qmul(s, qz())), qz());
        }
    }
    assert(vals_pos(f, n));
    lemma_msum_lin(pc, f, single, f, rr, f, s, n);
    lemma_msum_single(l, oc, f, n);
    let mp = msum(pc, f, n);
    let ms = msum(single, f, n);
    lemma_msum_pos(pc, f, n);
    lemma_msum_pos(single, f, n);
    // ms ≡ ic·fl
    lemma_qmul_cong(rq(oc), ic, fl, fl);
    lemma_pos(rq(oc), fl);
    lemma_qeq_trans(ms, qmul(rq(oc), fl), qmul(ic, fl));
    // mp + kp ≡ (ic·fl + s·m) + s·kl
    lemma_pos(s, m);
    lemma_pos(s, kl);
    lemma_pos(ic, fl);
    lemma_pos(ms, qmul(s, m));
    lemma_qadd_cong(ms, qmul(ic, fl), qmul(s, m), qmul(s, m));
    lemma_qeq_trans(mp, qadd(ms, qmul(s, m)), qadd(qmul(ic, fl), qmul(s, m)));
    lemma_ring(kl, s, qz());
    lemma_qadd_cong(mp, qadd(qmul(ic, fl), qmul(s, m)), kp, qmul(s, kl));
    // = ic·fl + (s·m + s·kl) ≡ ic·fl + s·(m + kl) = ic·fl + -(ic·(m + kl))
    let x = qmul(ic, qadd(m, kl));
    let y = qmul(ic, qmul(cq, fe));
    lemma_ring(qmul(ic, fl), qmul(s, m), qmul(s, kl));
    lemma_distrib(s, m, kl);
    lemma_qeq_sym(qmul(s, qadd(m, kl)), qadd(qmul(s, m), qmul(s, kl)));
    lemma_ring(ic, qadd(m, kl), qz());
    assert(qmul(s, qadd(m, kl)) == qneg(x));
    lemma_qadd_cong(qmul(ic, fl), qmul(ic, fl), qadd(qmul(s, m), qmul(s, kl)), qneg(x));
    // ic·fl ≡ x + y
    lemma_pos(m, kl);
    lemma_pos(qadd(m, qmul(cq, fe)), kl);
    lemma_pos(mr, kl);
    lemma_qadd_cong(mr, qadd(m, qmul(cq, fe)), kl, kl);
    lemma_qeq_trans(fl, qadd(mr, kl), qadd(qadd(m, qmul(cq, fe)), kl));
    lemma_ring(m, qmul(cq, fe), kl);
    lemma_ring(qmul(cq, fe), kl, qz());
    lemma_ring(m, kl, qmul(cq, fe));
    lemma_qmul_cong(ic, ic, fl, qadd(qadd(m, kl), qmul(cq, fe)));
    lemma_distrib(ic, qadd(m, kl), qmul(cq, fe));
    lemma_pos(ic, qadd(qadd(m, kl), qmul(cq, fe)));
    lemma_qeq_trans(qmul(ic, fl), qmul(ic, qadd(qadd(m, kl), qmul(cq, fe))), qadd(x, y));
    // (x + y) + -x ≡ y
    lemma_pos(ic, qadd(m, kl));
    lemma_pos(cq, fe);
    lemma_pos(ic, qmul(cq, fe));
    lemma_qadd_cong(qmul(ic, fl), qadd(x, y), qneg(x), qneg(x));
    lemma_add_cancel(x, y);
    // y ≡ fe
    lemma_ring(ic, cq, fe);
    lemma_ring(cq, ic, qz());
    lemma_qmul_cong(qmul(cq, ic), qone(), fe, fe);
    lemma_ring(fe, fe, fe);
    // chain: mp + kp ≡ (ic·fl + s·m) + s·kl == ic·fl + (s·m + s·kl) ≡ ic·fl + -x ≡ (x + y) + -x ≡ y ≡ fe
    let t0 = qadd(mp, kp);
    let t1 = qadd(qadd(qmul(ic, fl), qmul(s, m)), qmul(s, kl));
    let t2 = qadd(qmul(ic, fl), qneg(x));
    let t3 = qadd(qadd(x, y), qneg(x));
    lemma_pos(qmul(ic, fl), qmul(s, m));
    lemma_pos(qadd(qmul(ic, fl), qmul(s, m)), qmul(s, kl));
    lemma_pos(qmul(ic, fl), qneg(x));
    lemma_pos(x, y);
    lemma_pos(qadd(x, y), qneg(x));
    lemma_qeq_trans(t0, t1, t2);
    lemma_qeq_trans(t0, t2, t3);
    lemma_qeq_trans(t0, t3, y);
    lemma_pos(qmul(cq, ic), fe);
    lemma_qeq_trans(t0, y, fe);
    lemma_qeq_sym(t0, fe);
}

/// `(x + y) · f` is `x·f + y·f`.
pub proof fn lemma_distrib_right(x: Q, y: Q, f: Q)
    requires
        pos(f),
    ensures
        qeq(qmul(qadd(x, y), f), qadd(qmul(x, f), qmul(y, f))),
{
    lemma_distrib(f, x, y);
    lemma_ring(qadd(x, y), f, qz());
    lemma_ring(x, f, qz());
    lemma_ring(y, f, qz());
}

/// The term of `k` after substituting `e` by an expression with
/// coefficients `p` in `a`: `a[k]·f(k) + a[e]·(p[k]·f(k))`, with `a[e]`'s own
/// term gone.
proof fn lemma_subst_term(a: Map<usize, Rational>, e: usize, p: Map<usize, Rational>, f: spec_fn(int) -> Q, k: int)
    requires
        0 <= k <= usize::MAX,
        map_ok(a),
        map_ok(p),
        a.contains_key(e),
        !p.contains_key(e),
        subst_ok(a, e, p),
        pos(f(k)),
    ensures
        qeq(
            term_q(subst_map(a, e, p), f, k),
            qadd(term_q(a.remove(e), f, k), qmul(rq(a[e]), term_q(p, f, k))),
        ),
{
    let ku = k as usize;
    assert(ku as int == k);
    let sm = subst_map(a, e, p);
    let aa = a.remove(e);
    let s = rq(a[e]);
    let fk = f(k);
    assert(a[e].wf() && a[e].is_fin());
    assert(pos(s));
    if p.contains_key(ku) {
        assert(ku != e);
        let pk = p[ku];
        assert(pk.wf() && pk.is_fin());
        let prod = pk.mul_spec(a[e]).unwrap();
        lemma_exact_mul(pk, a[e]);
        let z = subst_coeff(a, e, p, ku);
        // rq(z) ≡ a·1 + p·s (or p·s)
        if aa.contains_key(ku) {
            assert(a[ku].wf() && a[ku].is_fin());
            assert(prod.wf() && prod.is_fin()) by {
                crate::exact::lemma_exact_mul(pk, a[e]);
            }
            lemma_exact_add(a[ku], prod);
            lemma_pos(rq(pk), s);
            lemma_qadd_cong(rq(a[ku]), rq(a[ku]), rq(prod), qmul(rq(pk), s));
            lemma_pos(rq(a[ku]), rq(prod));
            lemma_qeq_trans(rq(z), qadd(rq(a[ku]), rq(prod)), qadd(rq(a[ku]), qmul(rq(pk), s)));
            // (a + p·s)·fk ≡ a·fk + (p·s)·fk == a·fk + s·(p·fk)
            lemma_qmul_cong(rq(z), qadd(rq(a[ku]), qmul(rq(pk), s)), fk, fk);
            lemma_distrib_right(rq(a[ku]), qmul(rq(pk), s), fk);
            lemma_ring(rq(pk), s, fk);
            lemma_ring(s, rq(pk), fk);
            lemma_ring(rq(pk), s, qz());
            lemma_pos(rq(a[ku]), qmul(rq(pk), s));
            lemma_pos(rq(z), fk);
            lemma_pos(qadd(rq(a[ku]), qmul(rq(pk), s)), fk);
            lemma_qeq_trans(
                qmul(rq(z), fk),
                qmul(qadd(rq(a[ku]), qmul(rq(pk), s)), fk),
                qadd(qmul(rq(a[ku]), fk), qmul(s, qmul(rq(pk), fk))),
            );
            if cancels(a, e, p, ku) {
                assert(!sm.contains_key(ku));
                assert(is_zero_value(z));
                lemma_mul_zero(fk, rq(z));
                lemma_pos(rq(z), fk);
                assert(qeq(qmul(rq(z), fk), qz()));
                lemma_qeq_sym(qmul(rq(z), fk), qadd(qmul(rq(a[ku]), fk), qmul(s, qmul(rq(pk), fk))));
                lemma_qeq_trans(qadd(qmul(rq(a[ku]), fk), qmul(s, qmul(rq(pk), fk))), qmul(rq(z), fk), qz());
                lemma_qeq_sym(qadd(qmul(rq(a[ku]), fk), qmul(s, qmul(rq(pk), fk))), qz());
            } else {
                assert(sm.contains_key(ku));
                assert(sm[ku] == z);
            }
        } else {
            assert(z == prod);
            assert(sm.contains_key(ku)) by {
                assert(!cancels(a, e, p, ku));
            }
            lemma_qmul_cong(rq(z), qmul(rq(pk), s), fk, fk);
            lemma_ring(rq(pk), s, fk);
            lemma_ring(s, rq(pk), fk);
            lemma_ring(rq(pk), s, qz());
            lemma_ring(qmul(s, qmul(rq(pk), fk)), qz(), qz());
        }
    } else if ku == e {
        assert(!sm.contains_key(ku));
        assert(!aa.contains_key(ku));
        lemma_mul_zero(s, qz());
        lemma_pos(s, qz());
        lemma_add_zero(qz(), qmul(s, qz()));
        lemma_qeq_sym(qadd(qz(), qmul(s, qz())), qz());
    } else {
        assert(sm.contains_key(ku) == aa.contains_key(ku));
        if aa.contains_key(ku) {
            assert(sm[ku] == a[ku]);
            assert(a[ku].den > 0);
            lemma_pos(rq(a[ku]), fk);
        }
        lemma_mul_zero(s, qz());
        lemma_pos(s, qz());
        assert(coeffs_pos(aa));
        lemma_term_pos(aa, f, k);
        lemma_add_zero(term_q(aa, f, k), qmul(s, qz()));
        lemma_qeq_sym(qadd(term_q(aa, f, k), qmul(s, qz())), term_q(aa, f, k));
    }
}

/// If `vw` is `Σ a·f + kw` and `f(e)` is `Σ p·f + kp`, then `vw` is
/// `Σ subst_map(a, e, p)·f + kw2`, where `kw2` is `kw + kp·a[e]`.
pub proof fn lemma_subst_part(
    a: Map<usize, Rational>,
    e: usize,
    p: Map<usize, Rational>,
    f: spec_fn(int) -> Q,
    n: nat,
    kw: Q,
    kp: Q,
    kw2: Q,
    vw: Q,
)
    requires
        e < n,
        n <= usize::MAX,
        map_ok(a),
        map_ok(p),
        a.contains_key(e),
        !p.contains_key(e),
        subst_ok(a, e, p),
        vals_pos(f, n),
        pos(kw),
        pos(kp),
        pos(kw2),
        qeq(vw, qadd(msum(a, f, n), kw)),
        qeq(f(e as int), qadd(msum(p, f, n), kp)),
        qeq(kw2, qadd(kw, qmul(kp, rq(a[e])))),
    ensures
        qeq(vw, qadd(msum(subst_map(a, e, p), f, n), kw2)),
{
    let sm = subst_map(a, e, p);
    let aa = a.remove(e);
    let s = rq(a[e]);
    let fe = f(e as int);
    assert(coeffs_pos(a));
    assert(coeffs_pos(p));
    assert(coeffs_pos(aa));
    assert(pos(s));
    assert forall|k: usize| sm.contains_key(k) implies (#[trigger] sm[k]).den > 0 by {
        if p.contains_key(k) {
            assert(p[k].wf() && p[k].is_fin());
            lemma_exact_mul(p[k], a[e]);
            if aa.contains_key(k) {
                assert(a[k].wf() && a[k].is_fin());
                lemma_exact_add(a[k], p[k].mul_spec(a[e]).unwrap());
            }
        }
    }
    assert forall|k: int| 0 <= k < n implies qeq(
        #[trigger] term_q(sm, f, k),
        qadd(term_q(aa, f, k), qmul(s, term_q(p, f, k))),
    ) by {
        lemma_subst_term(a, e, p, f, k);
    }
    lemma_msum_lin(sm, f, aa, f, p, f, s, n);
    assert forall|k: int| 0 <= k < n && k != e implies #[trigger] term_q(a, f, k) == term_q(aa, f, k) by {
        assert(k as usize as int == k);
    }
    lemma_msum_diff(a, f, aa, f, n, e as int);
    let ma = msum(a, f, n);
    let maa = msum(aa, f, n);
    let mp = msum(p, f, n);
    let ms = msum(sm, f, n);
    lemma_msum_pos(a, f, n);
    lemma_msum_pos(aa, f, n);
    lemma_msum_pos(p, f, n);
    lemma_msum_pos(sm, f, n);
    assert(term_q(aa, f, e as int) == qz());
    assert(term_q(a, f, e as int) == qmul(s, fe));
    lemma_ring(ma, qz(), qz());
    // ms + kw2 ≡ (maa + s·mp) + (kw + s·kp)
    lemma_ring(kp, s, qz());
    lemma_qadd_cong(ms, qadd(maa, qmul(s, mp)), kw2, qadd(kw, qmul(s, kp)));
    // == (maa + kw) + (s·mp + s·kp)
    lemma_swap(maa, qmul(s, mp), kw, qmul(s, kp));
    // s·mp + s·kp ≡ s·(mp + kp) ≡ s·fe
    lemma_distrib(s, mp, kp);
    lemma_qeq_sym(qmul(s, qadd(mp, kp)), qadd(qmul(s, mp), qmul(s, kp)));
    lemma_qeq_sym(fe, qadd(mp, kp));
    lemma_qmul_cong(s, s, qadd(mp, kp), fe);
    lemma_pos(mp, kp);
    lemma_pos(s, qadd(mp, kp));
    lemma_qeq_trans(qadd(qmul(s, mp), qmul(s, kp)), qmul(s, qadd(mp, kp)), qmul(s, fe));
    lemma_qadd_cong(qadd(maa, kw), qadd(maa, kw), qadd(qmul(s, mp), qmul(s, kp)), qmul(s, fe));
    // == (maa + s·fe) + kw
    lemma_ring(maa, kw, qmul(s, fe));
    lemma_ring(kw, qmul(s, fe), qz());
    lemma_ring(maa, qmul(s, fe), kw);
    // ≡ ma + kw ≡ vw
    lemma_qeq_sym(ma, qadd(maa, qmul(s, fe)));
    lemma_qadd_cong(qadd(maa, qmul(s, fe)), ma, kw, kw);
    lemma_qeq_sym(vw, qadd(ma, kw));
    let t0 = qadd(ms, kw2);
    let t1 = qadd(qadd(maa, qmul(s, mp)), qadd(kw, qmul(s, kp)));
    let t2 = qadd(qadd(maa, kw), qmul(s, fe));
    let t3 = qadd(ma, kw);
    lemma_pos(s, mp);
    lemma_pos(s, kp);
    lemma_pos(s, fe);
    lemma_pos(maa, qmul(s, mp));
    lemma_pos(kw, qmul(s, kp));
    lemma_pos(qadd(maa, qmul(s, mp)), qadd(kw, qmul(s, kp)));
    lemma_pos(maa, kw);
    lemma_pos(qadd(maa, kw), qmul(s, fe));
    lemma_pos(ma, kw);
    lemma_qeq_trans(t0, t1, t2);
    lemma_qeq_trans(t0, t2, t3);
    lemma_qeq_trans(t0, t3, vw);
    lemma_qeq_sym(t0, vw);
}

/// The rational part of a value, or the factor of its infinitesimal.
pub open spec fn part(x: InfRational, rat: bool) -> Rational {
    if rat {
        x.rat
    } else {
        x.inf
    }
}

/// The exact parts of a sequence of values, by variable.
pub open spec fn parts(vals: Seq<InfRational>, rat: bool) -> spec_fn(int) -> Q {
    |k: int| rq(part(vals[k], rat))
}

/// The part of a known term: the known term itself, or no infinitesimal.
pub open spec fn known_part(k: Rational, rat: bool) -> Q {
    if rat {
        rq(k)
    } else {
        qz()
    }
}

/// Every value is a well-formed finite value.
pub open spec fn vals_fin(vals: Seq<InfRational>) -> bool {
    forall|k: int| 0 <= k < vals.len() ==> (#[trigger] vals[k]).wf() && vals[k].is_fin()
}

/// Finite values have exact parts with positive denominators.
pub proof fn lemma_parts_pos(vals: Seq<InfRational>, rat: bool)
    requires
        vals_fin(vals),
    ensures
        vals_pos(parts(vals, rat), vals.len()),
{
    assert forall|k: int| 0 <= k < vals.len() implies pos(#[trigger] parts(vals, rat)(k)) by {
        assert(vals[k].wf() && vals[k].is_fin());
    }
}

/// The sum of the terms of `ts` on the values `vals`, from the known term `k`
/// on, in range, is exact.
pub proof fn lemma_fold_part(
    ts: Seq<Term>,
    k: Rational,
    g: spec_fn(Term) -> Option<InfRational>,
    vals: Seq<InfRational>,
    rat: bool,
)
    requires
        sorted_terms(ts),
        coeffs_ok(ts),
        k.wf(),
        k.is_fin(),
        vals.len() <= usize::MAX,
        vals_fin(vals),
        forall|i: int| 0 <= i < ts.len() ==> (#[trigger] ts[i]).0.0 < vals.len(),
        forall|t: Term| #[trigger] g(t) == vals[t.0.0 as int].mul_rat_spec(t.1),
        fold_terms(ts, k, g) is Some,
    ensures
        fold_terms(ts, k, g).unwrap().wf(),
        fold_terms(ts, k, g).unwrap().is_fin(),
        qeq(
            rq(part(fold_terms(ts, k, g).unwrap(), rat)),
            qadd(msum(term_map(ts), parts(vals, rat), vals.len()), known_part(k, rat)),
        ),
    decreases ts.len(),
{
    let n = vals.len();
    let f = parts(vals, rat);
    lemma_parts_pos(vals, rat);
    if ts.len() == 0 {
        assert(term_map(ts) =~= Map::<usize, Rational>::empty());
        lemma_msum_empty(f, n);
        lemma_ring(known_part(k, rat), qz(), qz());
    } else {
        let init = ts.drop_last();
        let t = ts.last();
        let j = t.0.0;
        let c = t.1;
        assert(sorted_terms(init));
        assert(coeffs_ok(init));
        assert(forall|i: int| 0 <= i < init.len() ==> init[i] == ts[i]);
        assert(fold_terms(init, k, g) is Some);
        lemma_fold_part(init, k, g, vals, rat);
        let a = fold_terms(init, k, g).unwrap();
        let p = g(t);
        assert(p == vals[j as int].mul_rat_spec(c));
        assert(ts[ts.len() - 1] == t);
        assert(j < n);
        assert(vals[j as int].wf() && vals[j as int].is_fin());
        assert(c.wf() && c.is_fin());
        let vj = part(vals[j as int], rat);
        lemma_exact_mul(vj, c);
        let pp = part(p.unwrap(), rat);
        assert(pp == vj.mul_spec(c).unwrap());
        let aa = part(a, rat);
        lemma_exact_add(aa, pp);
        let v = fold_terms(ts, k, g).unwrap();
        assert(part(v, rat) == aa.add_spec(pp).unwrap());
        assert(v.wf() && v.is_fin()) by {
            lemma_exact_mul(vals[j as int].rat, c);
            lemma_exact_mul(vals[j as int].inf, c);
            lemma_exact_add(a.rat, p.unwrap().rat);
            lemma_exact_add(a.inf, p.unwrap().inf);
        }
        // the map gains j
        assert(forall|i: int| 0 <= i < init.len() ==> init[i].0.0 < j) by {
            assert forall|i: int| 0 <= i < init.len() implies init[i].0.0 < j by {
                assert(ts[i].0.0 < ts[ts.len() - 1].0.0);
            }
        }
        lemma_push_term(init, j, c);
        assert(init.push((VarId(j), c)) =~= ts);
        let mi = term_map(init);
        let mt = term_map(ts);
        assert(mt == mi.insert(j, c));
        assert(!mi.contains_key(j)) by {
            if mi.contains_key(j) {
                let i = choose|i: int| 0 <= i < init.len() && init[i].0.0 == j;
                assert(init[i].0.0 < j);
            }
        }
        assert(coeffs_pos(mi)) by {
            assert forall|key: usize| mi.contains_key(key) implies (#[trigger] mi[key]).den > 0 by {
                let i = choose|i: int| 0 <= i < init.len() && init[i].0.0 == key;
                crate::terms::lemma_term_index(init, i);
            }
        }
        assert(coeffs_pos(mt)) by {
            assert forall|key: usize| mt.contains_key(key) implies (#[trigger] mt[key]).den > 0 by {
                if key != j {
                    assert(mi.contains_key(key));
                }
            }
        }
        assert forall|i: int| 0 <= i < n && i != j implies #[trigger] term_q(mt, f, i) == term_q(mi, f, i) by {
            assert(i as usize as int == i);
        }
        lemma_msum_diff(mt, f, mi, f, n, j as int);
        let ms_t = msum(mt, f, n);
        let ms_i = msum(mi, f, n);
        let kp = known_part(k, rat);
        let cf = qmul(rq(c), f(j as int));
        assert(term_q(mi, f, j as int) == qz());
        assert(term_q(mt, f, j as int) == cf);
        lemma_ring(ms_t, qz(), qz());
        lemma_msum_pos(mi, f, n);
        lemma_msum_pos(mt, f, n);
        assert(pos(f(j as int)));
        lemma_pos(rq(c), f(j as int));
        // part(v) ≡ aa + pp ≡ (ms_i + kp) + vj·c
        lemma_pos(rq(vj), rq(c));
        lemma_qadd_cong(rq(aa), qadd(ms_i, kp), rq(pp), qmul(rq(vj), rq(c)));
        lemma_ring(rq(vj), rq(c), qz());
        assert(f(j as int) == rq(vj));
        // == (ms_i + cf) + kp
        lemma_ring(ms_i, kp, cf);
        lemma_ring(kp, cf, qz());
        lemma_ring(ms_i, cf, kp);
        // ≡ ms_t + kp
        lemma_qeq_sym(ms_t, qadd(ms_i, cf));
        lemma_qadd_cong(qadd(ms_i, cf), ms_t, kp, kp);
        assert(pos(kp));
        lemma_pos(rq(aa), rq(pp));
        lemma_pos(ms_i, kp);
        lemma_pos(qadd(ms_i, kp), cf);
        lemma_qeq_trans(rq(part(v, rat)), qadd(rq(aa), rq(pp)), qadd(qadd(ms_i, kp), cf));
        lemma_pos(ms_i, cf);
        lemma_pos(qadd(ms_i, cf), kp);
        lemma_qeq_trans(rq(part(v, rat)), qadd(qadd(ms_i, cf), kp), qadd(ms_t, kp));
    }
}

/// One part of `v` is the exact value of that part of `l` under `vals`.
pub open spec fn holds_part(l: Lin, vals: Seq<InfRational>, v: InfRational, rat: bool) -> bool {
    qeq(rq(part(v, rat)), qadd(msum(l.coeffs(), parts(vals, rat), vals.len()), known_part(l.known_term, rat)))
}

/// `v` is the exact value of `l` under `vals`.
pub open spec fn holds(l: Lin, vals: Seq<InfRational>, v: InfRational) -> bool {
    holds_part(l, vals, v, true) && holds_part(l, vals, v, false)
}

/// The value of every variable that has a row is the exact value of its
/// row under the values of all variables.
#[verifier::opaque]
pub open spec fn rows_hold(vals: Seq<InfRational>, tab: Seq<Option<Lin>>) -> bool {
    forall|b: int| 0 <= b < vals.len() && (#[trigger] tab[b]) is Some ==> holds(tab[b].unwrap(), vals, vals[b])
}

/// Every row is well formed and over variables without a row.
pub open spec fn rows_over(tab: Seq<Option<Lin>>) -> bool {
    forall|b: int| 0 <= b < tab.len() && (#[trigger] tab[b]) is Some ==> {
        &&& tab[b].unwrap().wf()
        &&& forall|k: usize| #[trigger] tab[b].unwrap().coeffs().contains_key(k) ==> k < tab.len() && tab[k as int] is None
    }
}

/// One part of `v2` is that of `v` plus `c` times the move of `x` from `x1` to `x2`.
pub open spec fn shift_part(v2: InfRational, v: InfRational, c: Rational, x2: InfRational, x1: InfRational, rat: bool) -> bool {
    qeq(rq(part(v2, rat)), qadd(rq(part(v, rat)), qmul(rq(c), qsub(rq(part(x2, rat)), rq(part(x1, rat))))))
}

/// `v2` is `v` plus `c` times the move of `x` from `x1` to `x2`, exactly.
pub open spec fn shifted_by(v2: InfRational, v: InfRational, c: Rational, x2: InfRational, x1: InfRational) -> bool {
    shift_part(v2, v, c, x2, x1, true) && shift_part(v2, v, c, x2, x1, false)
}

/// A well-formed expression's coefficients are finite.
pub proof fn lemma_lin_pos(l: Lin)
    requires
        l.wf(),
    ensures
        map_ok(l.coeffs()),
        coeffs_pos(l.coeffs()),
{
    l.lemma_coeffs_ok();
}

/// Values changed only outside a row leave its value.
pub proof fn lemma_holds_frame(l: Lin, vals: Seq<InfRational>, vals2: Seq<InfRational>, v: InfRational)
    requires
        l.wf(),
        holds(l, vals, v),
        vals.len() <= vals2.len(),
        vals2.len() <= usize::MAX,
        forall|k: usize| #[trigger] l.coeffs().contains_key(k) ==> k < vals.len() && vals2[k as int] == vals[k as int],
    ensures
        holds(l, vals2, v),
{
    let n = vals.len();
    let n2 = vals2.len();
    let m = l.coeffs();
    assert forall|rat: bool| #[trigger] holds_part(l, vals2, v, rat) by {
        let f = parts(vals, rat);
        let g = parts(vals2, rat);
        assert forall|k: int| 0 <= k < n implies #[trigger] term_q(m, g, k) == term_q(m, f, k) by {
            if m.contains_key(k as usize) {
                assert(k as usize as int == k);
            }
        }
        lemma_msum_eq(m, g, m, f, n);
        lemma_msum_extend(m, g, n, n2);
        assert(holds_part(l, vals, v, rat));
    }
}

/// Variables at or above `n` outside the coefficients add nothing.
pub proof fn lemma_msum_extend(m: Map<usize, Rational>, f: spec_fn(int) -> Q, n: nat, n2: nat)
    requires
        n <= n2,
        n2 <= usize::MAX,
        forall|k: usize| #[trigger] m.contains_key(k) ==> k < n,
    ensures
        msum(m, f, n2) == msum(m, f, n),
    decreases n2,
{
    if n2 > n {
        lemma_msum_extend(m, f, n, (n2 - 1) as nat);
        assert(!m.contains_key((n2 - 1) as usize));
        lemma_ring(msum(m, f, n), qz(), qz());
    }
}

/// Giving a value to a new variable, or a new value to a variable outside
/// every row, keeps the rows satisfied.
pub proof fn lemma_rows_frame(vals: Seq<InfRational>, tab: Seq<Option<Lin>>, vals2: Seq<InfRational>, tab2: Seq<Option<Lin>>, x: int)
    requires
        rows_hold(vals, tab),
        rows_over(tab),
        tab.len() == vals.len(),
        tab2.len() == vals2.len(),
        vals.len() <= vals2.len(),
        vals2.len() <= usize::MAX,
        0 <= x < vals2.len(),
        tab2[x] is None,
        forall|k: int| 0 <= k < vals.len() ==> #[trigger] tab2[k] == tab[k],
        forall|k: int| vals.len() <= k < vals2.len() ==> #[trigger] tab2[k] is None,
        forall|k: int| 0 <= k < vals.len() && k != x ==> #[trigger] vals2[k] == vals[k],
        forall|b: int| 0 <= b < tab.len() && (#[trigger] tab[b]) is Some ==> !tab[b].unwrap().coeffs().contains_key(x as usize),
    ensures
        rows_hold(vals2, tab2),
{
    reveal(rows_hold);
    assert forall|b: int| 0 <= b < vals2.len() && (#[trigger] tab2[b]) is Some implies holds(tab2[b].unwrap(), vals2, vals2[b]) by {
        assert(b < vals.len());
        assert(tab2[b] == tab[b]);
        let l = tab[b].unwrap();
        assert(holds(l, vals, vals[b]));
        assert(b != x);
        assert forall|k: usize| #[trigger] l.coeffs().contains_key(k) implies k < vals.len() && vals2[k as int] == vals[k as int] by {
            assert(k as int != x);
        }
        lemma_holds_frame(l, vals, vals2, vals[b]);
    }
}

/// Moving non-basic `x`, with each basic variable whose row contains it
/// moving by its coefficient times the move, keeps the rows satisfied.
pub proof fn lemma_move_rows(vals: Seq<InfRational>, vals2: Seq<InfRational>, tab: Seq<Option<Lin>>, x: int)
    requires
        vals.len() == tab.len(),
        vals2.len() == vals.len(),
        vals.len() <= usize::MAX,
        vals_fin(vals),
        vals_fin(vals2),
        rows_hold(vals, tab),
        rows_over(tab),
        0 <= x < vals.len(),
        tab[x] is None,
        forall|k: int| 0 <= k < vals.len() && k != x && tab[k] is None ==> #[trigger] vals2[k] == vals[k],
        forall|b: int| 0 <= b < vals.len() && (#[trigger] tab[b]) is Some ==> if tab[b].unwrap().coeffs().contains_key(
            x as usize,
        ) {
            shifted_by(vals2[b], vals[b], tab[b].unwrap().coeffs()[x as usize], vals2[x], vals[x])
        } else {
            vals2[b] == vals[b]
        },
    ensures
        rows_hold(vals2, tab),
{
    reveal(rows_hold);
    let n = vals.len();
    assert forall|b: int| 0 <= b < vals2.len() && (#[trigger] tab[b]) is Some implies holds(tab[b].unwrap(), vals2, vals2[b]) by {
        let l = tab[b].unwrap();
        let m = l.coeffs();
        lemma_lin_pos(l);
        assert(holds(l, vals, vals[b]));
        assert(vals[b].wf() && vals[b].is_fin());
        assert(vals2[b].wf() && vals2[b].is_fin());
        assert(x as usize as int == x);
        assert forall|rat: bool| #[trigger] holds_part(l, vals2, vals2[b], rat) by {
            let f = parts(vals, rat);
            let g = parts(vals2, rat);
            lemma_parts_pos(vals, rat);
            lemma_parts_pos(vals2, rat);
            assert forall|k: int| 0 <= k < n && k != x && m.contains_key(k as usize) implies #[trigger] g(k) == f(k) by {
                assert(k as usize as int == k);
                assert(tab[k] is None);
                assert(vals2[k] == vals[k]);
            }
            assert(holds_part(l, vals, vals[b], rat));
            if m.contains_key(x as usize) {
                assert(shift_part(vals2[b], vals[b], m[x as usize], vals2[x], vals[x], rat));
            }
            lemma_move_part(m, f, g, n, x, known_part(l.known_term, rat), rq(part(vals[b], rat)), rq(part(vals2[b], rat)));
        }
        assert(holds_part(l, vals2, vals2[b], true));
        assert(holds_part(l, vals2, vals2[b], false));
    }
}

/// `vw + (nv - vx)·c` computed in range is a shift of `vw` by `c` times the
/// move of `x` from `vx` to `nv`.
pub proof fn lemma_shift_exact(vw: InfRational, vx: InfRational, nv: InfRational, c: Rational)
    requires
        vw.wf() && vw.is_fin(),
        vx.wf() && vx.is_fin(),
        nv.wf() && nv.is_fin(),
        c.wf() && c.is_fin(),
        nv.sub_spec(vx) is Some,
        nv.sub_spec(vx).unwrap().mul_rat_spec(c) is Some,
        vw.add_spec(nv.sub_spec(vx).unwrap().mul_rat_spec(c).unwrap()) is Some,
    ensures
        shifted_by(vw.add_spec(nv.sub_spec(vx).unwrap().mul_rat_spec(c).unwrap()).unwrap(), vw, c, nv, vx),
        vw.add_spec(nv.sub_spec(vx).unwrap().mul_rat_spec(c).unwrap()).unwrap().wf(),
        vw.add_spec(nv.sub_spec(vx).unwrap().mul_rat_spec(c).unwrap()).unwrap().is_fin(),
{
    let d = nv.sub_spec(vx).unwrap();
    let delta = d.mul_rat_spec(c).unwrap();
    let r = vw.add_spec(delta).unwrap();
    assert forall|rat: bool| #[trigger] shift_part(r, vw, c, nv, vx, rat) by {
        let pw = part(vw, rat);
        let px = part(vx, rat);
        let pn = part(nv, rat);
        lemma_exact_sub(pn, px);
        let pd = part(d, rat);
        lemma_exact_mul(pd, c);
        let pdl = part(delta, rat);
        lemma_exact_add(pw, pdl);
        // part(r) ≡ pw + pd·c ≡ pw + c·(pn - px)
        lemma_pos(rq(pn), qneg(rq(px)));
        lemma_qmul_cong(rq(pd), qsub(rq(pn), rq(px)), rq(c), rq(c));
        lemma_ring(qsub(rq(pn), rq(px)), rq(c), qz());
        lemma_pos(rq(pd), rq(c));
        lemma_qeq_trans(rq(pdl), qmul(rq(pd), rq(c)), qmul(rq(c), qsub(rq(pn), rq(px))));
        lemma_qadd_cong(rq(pw), rq(pw), rq(pdl), qmul(rq(c), qsub(rq(pn), rq(px))));
        lemma_pos(rq(pw), rq(pdl));
        lemma_qeq_trans(rq(part(r, rat)), qadd(rq(pw), rq(pdl)), qadd(rq(pw), qmul(rq(c), qsub(rq(pn), rq(px)))));
    }
    assert(shift_part(r, vw, c, nv, vx, true));
    assert(shift_part(r, vw, c, nv, vx, false));
    lemma_exact_sub(nv.rat, vx.rat);
    lemma_exact_sub(nv.inf, vx.inf);
    lemma_exact_mul(d.rat, c);
    lemma_exact_mul(d.inf, c);
    lemma_exact_add(vw.rat, delta.rat);
    lemma_exact_add(vw.inf, delta.inf);
}

/// The rows after trading basic `l` for non-basic `e`: `e` gets the row of
/// `l` solved for `e`, `l` loses its row, every other row containing `e`
/// gets `e` substituted, and the remaining rows stay.
pub open spec fn pivoted(tab: Seq<Option<Lin>>, tab2: Seq<Option<Lin>>, e: int, l: int) -> bool {
    let rl = tab[l].unwrap();
    let c = rl.coeffs()[e as usize];
    &&& tab2.len() == tab.len()
    &&& tab2[e] is Some
    &&& tab2[e].unwrap().wf()
    &&& tab2[e].unwrap().coeffs() == solved(rl.coeffs(), e as usize, l as usize)
    &&& tab2[e].unwrap().known_term == rl.known_term.div_spec(c.neg_spec().unwrap()).unwrap()
    &&& rl.known_term.div_spec(c.neg_spec().unwrap()) is Some
    &&& tab2[l] is None
    &&& forall|w: int| 0 <= w < tab.len() && w != e && w != l ==> {
        let rw = tab[w].unwrap();
        let ae = rw.coeffs()[e as usize];
        if (#[trigger] tab[w]) is Some && rw.coeffs().contains_key(e as usize) {
            &&& tab2[w] is Some
            &&& tab2[w].unwrap().wf()
            &&& subst_ok(rw.coeffs(), e as usize, tab2[e].unwrap().coeffs())
            &&& tab2[e].unwrap().known_term.mul_spec(ae) is Some
            &&& rw.known_term.add_spec(tab2[e].unwrap().known_term.mul_spec(ae).unwrap()) is Some
            &&& tab2[w].unwrap().coeffs() == subst_map(rw.coeffs(), e as usize, tab2[e].unwrap().coeffs())
            &&& tab2[w].unwrap().known_term == rw.known_term.add_spec(
                tab2[e].unwrap().known_term.mul_spec(ae).unwrap(),
            ).unwrap()
        } else {
            tab2[w] == tab[w]
        }
    }
}

/// Trading basic `l` for non-basic `e` keeps the rows satisfied.
pub proof fn lemma_pivot_rows(vals: Seq<InfRational>, tab: Seq<Option<Lin>>, tab2: Seq<Option<Lin>>, e: int, l: int)
    requires
        vals.len() == tab.len(),
        vals.len() <= usize::MAX,
        vals_fin(vals),
        rows_hold(vals, tab),
        rows_over(tab),
        0 <= e < vals.len(),
        0 <= l < vals.len(),
        e != l,
        tab[e] is None,
        tab[l] is Some,
        solvable(tab[l].unwrap().coeffs(), e as usize),
        pivoted(tab, tab2, e, l),
    ensures
        rows_hold(vals, tab2),
{
    reveal(rows_hold);
    let n = vals.len();
    let rl = tab[l].unwrap();
    let nr = tab2[e].unwrap();
    let c = rl.coeffs()[e as usize];
    let cn = c.neg_spec().unwrap();
    lemma_lin_pos(rl);
    lemma_lin_pos(nr);
    assert(e as usize as int == e);
    assert(l as usize as int == l);
    assert(!rl.coeffs().contains_key(l as usize)) by {
        if rl.coeffs().contains_key(l as usize) {
            assert(tab[l] is None);
        }
    }
    assert(holds(rl, vals, vals[l]));
    assert(c.wf() && c.is_fin());
    lemma_exact_neg(c);
    // the new row of e
    assert forall|rat: bool| #[trigger] holds_part(nr, vals, vals[e], rat) by {
        let f = parts(vals, rat);
        lemma_parts_pos(vals, rat);
        let kl = known_part(rl.known_term, rat);
        let kp = known_part(nr.known_term, rat);
        assert(holds_part(rl, vals, vals[l], rat));
        assert(cn.num != 0);
        lemma_inv(rq(cn));
        if rat {
            lemma_exact_div(rl.known_term, cn);
        } else {
            lemma_mul_zero(qinv(rq(cn)), qz());
            lemma_ring(qz(), qinv(rq(cn)), qz());
        }
        lemma_solve_part(rl.coeffs(), e as usize, l as usize, f, n, kl, kp);
    }
    assert(holds(nr, vals, vals[e]));
    assert forall|b: int| 0 <= b < n && (#[trigger] tab2[b]) is Some implies holds(tab2[b].unwrap(), vals, vals[b]) by {
        if b == e {
        } else {
            assert(b != l);
            let rw = tab[b].unwrap();
            if tab[b] is Some && rw.coeffs().contains_key(e as usize) {
                let r2 = tab2[b].unwrap();
                let ae = rw.coeffs()[e as usize];
                lemma_lin_pos(rw);
                assert(ae.wf() && ae.is_fin());
                assert(holds(rw, vals, vals[b]));
                assert(vals[b].wf() && vals[b].is_fin());
                assert(!nr.coeffs().contains_key(e as usize));
                assert forall|rat: bool| #[trigger] holds_part(r2, vals, vals[b], rat) by {
                    let f = parts(vals, rat);
                    lemma_parts_pos(vals, rat);
                    let kw = known_part(rw.known_term, rat);
                    let kp = known_part(nr.known_term, rat);
                    let kw2 = known_part(r2.known_term, rat);
                    assert(holds_part(rw, vals, vals[b], rat));
                    assert(holds_part(nr, vals, vals[e], rat));
                    if rat {
                        lemma_exact_mul(nr.known_term, ae);
                        lemma_exact_add(rw.known_term, nr.known_term.mul_spec(ae).unwrap());
                        lemma_qadd_cong(rq(rw.known_term), rq(rw.known_term), rq(nr.known_term.mul_spec(ae).unwrap()), qmul(rq(nr.known_term), rq(ae)));
                        lemma_pos(rq(rw.known_term), rq(nr.known_term.mul_spec(ae).unwrap()));
                        lemma_qeq_trans(kw2, qadd(rq(rw.known_term), rq(nr.known_term.mul_spec(ae).unwrap())), qadd(kw, qmul(kp, rq(ae))));
                    } else {
                        lemma_mul_zero(rq(ae), qz());
                        lemma_pos(qz(), rq(ae));
                        lemma_add_zero(qz(), qmul(qz(), rq(ae)));
                        lemma_qeq_sym(qadd(qz(), qmul(qz(), rq(ae))), qz());
                    }
                    lemma_subst_part(rw.coeffs(), e as usize, nr.coeffs(), f, n, kw, kp, kw2, rq(part(vals[b], rat)));
                }
            } else {
                assert(tab2[b] == tab[b]);
            }
        }
    }
}

/// An equivalence of sums with the same second term drops that term.
proof fn lemma_cancel_right(a: Q, b: Q, k: Q)
    requires
        pos(a),
        pos(b),
        pos(k),
        qeq(qadd(a, k), qadd(b, k)),
    ensures
        qeq(a, b),
{
    let (a0, a1) = a;
    let (b0, b1) = b;
    let (k0, k1) = k;
    assert((a0 * k1 + k0 * a1) * (b1 * k1) == (a0 * k1) * (b1 * k1) + (k0 * a1) * (b1 * k1)) by (nonlinear_arith);
    assert((a0 * k1) * (b1 * k1) == (a0 * b1) * (k1 * k1)) by (nonlinear_arith);
    assert((k0 * a1) * (b1 * k1) == (k0 * a1 * b1) * k1) by (nonlinear_arith);
    assert((b0 * k1 + k0 * b1) * (a1 * k1) == (b0 * k1) * (a1 * k1) + (k0 * b1) * (a1 * k1)) by (nonlinear_arith);
    assert((b0 * k1) * (a1 * k1) == (b0 * a1) * (k1 * k1)) by (nonlinear_arith);
    assert((k0 * b1) * (a1 * k1) == (k0 * a1 * b1) * k1) by (nonlinear_arith);
    assert(k1 * k1 > 0) by (nonlinear_arith)
        requires
            k1 > 0,
    ;
    assert(a0 * b1 == b0 * a1) by (nonlinear_arith)
        requires
            (a0 * b1) * (k1 * k1) == (b0 * a1) * (k1 * k1),
            k1 * k1 > 0,
    ;
}

/// Equivalent products with the same nonzero first factor have equivalent
/// second factors.
proof fn lemma_mul_cancel(o: Q, x: Q, y: Q)
    requires
        pos(o),
        pos(x),
        pos(y),
        o.0 != 0,
        qeq(qmul(o, x), qmul(o, y)),
    ensures
        qeq(x, y),
{
    let (o0, o1) = o;
    let (x0, x1) = x;
    let (y0, y1) = y;
    assert((o0 * o1) * (x0 * y1) == (o0 * x0) * (o1 * y1)) by (nonlinear_arith);
    assert((o0 * o1) * (y0 * x1) == (o0 * y0) * (o1 * x1)) by (nonlinear_arith);
    assert(o0 * o1 != 0) by (nonlinear_arith)
        requires
            o0 != 0,
            o1 > 0,
    ;
    assert(x0 * y1 == y0 * x1) by (nonlinear_arith)
        requires
            (o0 * o1) * (x0 * y1) == (o0 * o1) * (y0 * x1),
            o0 * o1 != 0,
    ;
}

/// If `f(e)` is `Σ solved(r)·f + kp`, where `kp` is `kl / -c`, then `f(l)`
/// is `Σ r·f + kl`: the row of `l` follows back from the solved one.
pub proof fn lemma_unsolve_part(r: Map<usize, Rational>, e: usize, l: usize, f: spec_fn(int) -> Q, n: nat, kl: Q, kp: Q)
    requires
        e < n,
        l < n,
        e != l,
        n <= usize::MAX,
        map_ok(r),
        solvable(r, e),
        !r.contains_key(l),
        vals_pos(f, n),
        pos(kl),
        pos(kp),
        qeq(f(e as int), qadd(msum(solved(r, e, l), f, n), kp)),
        qeq(kp, qmul(kl, qinv(rq(r[e].neg_spec().unwrap())))),
    ensures
        qeq(f(l as int), qadd(msum(r, f, n), kl)),
{
    let sv = solved(r, e, l);
    let c = r[e];
    let oc = Rational { num: 1, den: 1 }.div_spec(c).unwrap();
    assert(coeffs_pos(r));
    lemma_msum_pos(r, f, n);
    let bl = qadd(msum(r, f, n), kl);
    lemma_pos(msum(r, f, n), kl);
    let g = |k: int| if k == l as int { bl } else { f(k) };
    assert(vals_pos(g, n)) by {
        assert forall|k: int| 0 <= k < n implies pos(#[trigger] g(k)) by {
            if k != l as int {
                assert(pos(f(k)));
            }
        }
    }
    assert forall|k: int| 0 <= k < n implies #[trigger] term_q(r, g, k) == term_q(r, f, k) by {
        if k == l as int {
            assert(k as usize == l);
        }
    }
    lemma_msum_eq(r, g, r, f, n);
    assert(qeq(g(l as int), qadd(msum(r, g, n), kl)));
    lemma_solve_part(r, e, l, g, n, kl, kp);
    assert(g(e as int) == f(e as int));
    // the two sums of the solved row agree
    assert forall|k: usize| sv.contains_key(k) implies (#[trigger] sv[k]).den > 0 by {
        if k != l {
            let rr = r.remove(e);
            assert(rr.contains_key(k));
            assert(rr[k] == r[k]);
            assert(r[k].wf() && r[k].is_fin());
            lemma_exact_neg(c);
            assert(c.neg_spec().unwrap().num != 0);
            assert(r[k].div_spec(c.neg_spec().unwrap()) is Some);
            lemma_exact_div(r[k], c.neg_spec().unwrap());
        } else {
            lemma_exact_div(Rational { num: 1, den: 1 }, c);
        }
    }
    assert(coeffs_pos(sv));
    lemma_msum_pos(sv, f, n);
    lemma_msum_pos(sv, g, n);
    let sf = msum(sv, f, n);
    let sg = msum(sv, g, n);
    lemma_pos(sf, kp);
    lemma_pos(sg, kp);
    assert(pos(f(e as int)));
    lemma_qeq_sym(f(e as int), qadd(sf, kp));
    lemma_qeq_trans(qadd(sf, kp), f(e as int), qadd(sg, kp));
    lemma_cancel_right(sf, sg, kp);
    assert forall|k: int| 0 <= k < n && k != l as int implies #[trigger] term_q(sv, f, k) == term_q(sv, g, k) by {}
    lemma_msum_diff(sv, f, sv, g, n, l as int);
    let tg = term_q(sv, g, l as int);
    let tf = term_q(sv, f, l as int);
    assert(sv.contains_key(l));
    assert(sv[l] == oc);
    assert(tg == qmul(rq(oc), bl));
    assert(tf == qmul(rq(oc), f(l as int)));
    lemma_exact_div(Rational { num: 1, den: 1 }, c);
    assert(pos(rq(oc)));
    assert(pos(f(l as int)));
    lemma_pos(rq(oc), bl);
    lemma_pos(rq(oc), f(l as int));
    // sf + tg ≡ sg + tf ≡ sf + tf
    lemma_qeq_sym(sf, sg);
    lemma_qadd_cong(sg, sf, tf, tf);
    lemma_pos(sg, tf);
    lemma_pos(sf, tg);
    lemma_pos(sf, tf);
    lemma_qeq_trans(qadd(sf, tg), qadd(sg, tf), qadd(sf, tf));
    lemma_ring(sf, tg, qz());
    lemma_ring(sf, tf, qz());
    lemma_cancel_right(tg, tf, sf);
    // the coefficient of `l` is not zero
    let ic = qinv(rq(c));
    lemma_inv(rq(c));
    assert(rq(Rational { num: 1, den: 1 }) == qone());
    lemma_ring(ic, qz(), qz());
    assert(qmul(rq(Rational { num: 1, den: 1 }), ic) == ic);
    assert(ic.0 != 0);
    assert(rq(oc).0 != 0) by (nonlinear_arith)
        requires
            rq(oc).0 * ic.1 == ic.0 * rq(oc).1,
            ic.0 != 0,
            rq(oc).1 > 0,
            ic.1 > 0,
    ;
    lemma_mul_cancel(rq(oc), bl, f(l as int));
    lemma_qeq_sym(bl, f(l as int));
}

/// The rows before trading basic `l` for non-basic `e` follow from the rows
/// after it: a pivot keeps exactly the same solutions.
pub proof fn lemma_unpivot_rows(vals: Seq<InfRational>, tab: Seq<Option<Lin>>, tab2: Seq<Option<Lin>>, e: int, l: int)
    requires
        vals.len() == tab.len(),
        vals.len() <= usize::MAX,
        vals_fin(vals),
        rows_hold(vals, tab2),
        rows_over(tab),
        0 <= e < vals.len(),
        0 <= l < vals.len(),
        e != l,
        tab[e] is None,
        tab[l] is Some,
        solvable(tab[l].unwrap().coeffs(), e as usize),
        pivoted(tab, tab2, e, l),
    ensures
        rows_hold(vals, tab),
{
    reveal(rows_hold);
    let n = vals.len();
    let rl = tab[l].unwrap();
    let nr = tab2[e].unwrap();
    let c = rl.coeffs()[e as usize];
    let cn = c.neg_spec().unwrap();
    lemma_lin_pos(rl);
    lemma_lin_pos(nr);
    assert(e as usize as int == e);
    assert(l as usize as int == l);
    assert(!rl.coeffs().contains_key(l as usize)) by {
        if rl.coeffs().contains_key(l as usize) {
            assert(tab[l] is None);
        }
    }
    assert(holds(nr, vals, vals[e]));
    assert(c.wf() && c.is_fin());
    lemma_exact_neg(c);
    assert forall|rat: bool| #[trigger] holds_part(rl, vals, vals[l], rat) by {
        let f = parts(vals, rat);
        lemma_parts_pos(vals, rat);
        let kl = known_part(rl.known_term, rat);
        let kp = known_part(nr.known_term, rat);
        assert(holds_part(nr, vals, vals[e], rat));
        assert(cn.num != 0);
        lemma_inv(rq(cn));
        if rat {
            lemma_exact_div(rl.known_term, cn);
        } else {
            lemma_mul_zero(qinv(rq(cn)), qz());
            lemma_ring(qz(), qinv(rq(cn)), qz());
        }
        lemma_unsolve_part(rl.coeffs(), e as usize, l as usize, f, n, kl, kp);
    }
    assert(holds(rl, vals, vals[l]));
    assert forall|b: int| 0 <= b < n && (#[trigger] tab[b]) is Some implies holds(tab[b].unwrap(), vals, vals[b]) by {
        if b == l {
        } else {
            assert(b != e);
            let rw = tab[b].unwrap();
            if rw.coeffs().contains_key(e as usize) {
                let r2 = tab2[b].unwrap();
                let ae = rw.coeffs()[e as usize];
                lemma_lin_pos(rw);
                lemma_lin_pos(r2);
                assert(ae.wf() && ae.is_fin());
                assert(holds(r2, vals, vals[b]));
                assert(vals[b].wf() && vals[b].is_fin());
                assert(!nr.coeffs().contains_key(e as usize));
                assert forall|rat: bool| #[trigger] holds_part(rw, vals, vals[b], rat) by {
                    let f = parts(vals, rat);
                    lemma_parts_pos(vals, rat);
                    let kw = known_part(rw.known_term, rat);
                    let kp = known_part(nr.known_term, rat);
                    let kw2 = known_part(r2.known_term, rat);
                    assert(holds_part(r2, vals, vals[b], rat));
                    assert(holds_part(nr, vals, vals[e], rat));
                    if rat {
                        lemma_exact_mul(nr.known_term, ae);
                        lemma_exact_add(rw.known_term, nr.known_term.mul_spec(ae).unwrap());
                        lemma_qadd_cong(rq(rw.known_term), rq(rw.known_term), rq(nr.known_term.mul_spec(ae).unwrap()), qmul(rq(nr.known_term), rq(ae)));
                        lemma_pos(rq(rw.known_term), rq(nr.known_term.mul_spec(ae).unwrap()));
                        lemma_qeq_trans(kw2, qadd(rq(rw.known_term), rq(nr.known_term.mul_spec(ae).unwrap())), qadd(kw, qmul(kp, rq(ae))));
                    } else {
                        lemma_mul_zero(rq(ae), qz());
                        lemma_pos(qz(), rq(ae));
                        lemma_add_zero(qz(), qmul(qz(), rq(ae)));
                        lemma_qeq_sym(qadd(qz(), qmul(qz(), rq(ae))), qz());
                    }
                    let vw = qadd(msum(rw.coeffs(), f, n), kw);
                    lemma_subst_part(rw.coeffs(), e as usize, nr.coeffs(), f, n, kw, kp, kw2, vw);
                    let sm = msum(subst_map(rw.coeffs(), e as usize, nr.coeffs()), f, n);
                    assert(coeffs_pos(rw.coeffs()));
                    lemma_msum_pos(rw.coeffs(), f, n);
                    lemma_msum_pos(r2.coeffs(), f, n);
                    lemma_pos(msum(r2.coeffs(), f, n), kw2);
                    lemma_qeq_sym(vw, qadd(sm, kw2));
                    lemma_qeq_trans(rq(part(vals[b], rat)), qadd(sm, kw2), vw);
                }
            } else {
                assert(tab2[b] == tab[b]);
            }
        }
    }
}

/// Moving `x` by `t` from `vx`, a value `vw` that moves by `t·c` in range
/// is shifted by `c` times the move of `x`.
pub proof fn lemma_move_exact(vw: InfRational, vx: InfRational, t: InfRational, c: Rational)
    requires
        vw.wf() && vw.is_fin(),
        vx.wf() && vx.is_fin(),
        t.wf() && t.is_fin(),
        c.wf() && c.is_fin(),
        vx.add_spec(t) is Some,
        t.mul_rat_spec(c) is Some,
        vw.add_spec(t.mul_rat_spec(c).unwrap()) is Some,
    ensures
        shifted_by(vw.add_spec(t.mul_rat_spec(c).unwrap()).unwrap(), vw, c, vx.add_spec(t).unwrap(), vx),
{
    let x2 = vx.add_spec(t).unwrap();
    let d = t.mul_rat_spec(c).unwrap();
    let w2 = vw.add_spec(d).unwrap();
    assert forall|rat: bool| #[trigger] shift_part(w2, vw, c, x2, vx, rat) by {
        let pw = rq(part(vw, rat));
        let px = rq(part(vx, rat));
        let pt = rq(part(t, rat));
        let cq = rq(c);
        lemma_exact_add(part(vx, rat), part(t, rat));
        lemma_exact_mul(part(t, rat), c);
        lemma_exact_add(part(vw, rat), part(d, rat));
        // x2 - vx ≡ t
        let px2 = rq(part(x2, rat));
        lemma_qadd_cong(px2, qadd(px, pt), qneg(px), qneg(px));
        lemma_add_cancel(px, pt);
        lemma_pos(px, pt);
        lemma_pos(qadd(px, pt), qneg(px));
        lemma_qeq_trans(qsub(px2, px), qadd(qadd(px, pt), qneg(px)), pt);
        // c·(x2 - vx) ≡ c·t == t·c
        lemma_qmul_cong(cq, cq, qsub(px2, px), pt);
        lemma_ring(cq, pt, qz());
        // w2 ≡ vw + t·c
        lemma_qadd_cong(pw, pw, rq(part(d, rat)), qmul(pt, cq));
        lemma_pos(pw, rq(part(d, rat)));
        lemma_qeq_trans(rq(part(w2, rat)), qadd(pw, rq(part(d, rat))), qadd(pw, qmul(pt, cq)));
        lemma_qeq_sym(qmul(cq, qsub(px2, px)), qmul(pt, cq));
        lemma_qadd_cong(pw, pw, qmul(pt, cq), qmul(cq, qsub(px2, px)));
        lemma_pos(pt, cq);
        lemma_pos(pw, qmul(pt, cq));
        lemma_qeq_trans(rq(part(w2, rat)), qadd(pw, qmul(pt, cq)), qadd(pw, qmul(cq, qsub(px2, px))));
    }
    assert(shift_part(w2, vw, c, x2, vx, true));
    assert(shift_part(w2, vw, c, x2, vx, false));
}

/// Moving `x` by `(nv - vl) / c` shifts `vl` by `c` times the move to `nv`.
pub proof fn lemma_theta_exact(vl: InfRational, nv: InfRational, vx: InfRational, c: Rational)
    requires
        vl.wf() && vl.is_fin(),
        nv.wf() && nv.is_fin(),
        vx.wf() && vx.is_fin(),
        c.wf() && c.is_fin(),
        c.num != 0,
        nv.sub_spec(vl) is Some,
        nv.sub_spec(vl).unwrap().div_rat_spec(c) is Some,
        vx.add_spec(nv.sub_spec(vl).unwrap().div_rat_spec(c).unwrap()) is Some,
    ensures
        shifted_by(nv, vl, c, vx.add_spec(nv.sub_spec(vl).unwrap().div_rat_spec(c).unwrap()).unwrap(), vx),
        nv.sub_spec(vl).unwrap().div_rat_spec(c).unwrap().wf(),
        nv.sub_spec(vl).unwrap().div_rat_spec(c).unwrap().is_fin(),
{
    let d = nv.sub_spec(vl).unwrap();
    let t = d.div_rat_spec(c).unwrap();
    let x2 = vx.add_spec(t).unwrap();
    let cq = rq(c);
    let ic = qinv(cq);
    lemma_inv(cq);
    assert forall|rat: bool| #[trigger] shift_part(nv, vl, c, x2, vx, rat) by {
        let pl = rq(part(vl, rat));
        let pn = rq(part(nv, rat));
        let px = rq(part(vx, rat));
        lemma_exact_sub(part(nv, rat), part(vl, rat));
        let pd = rq(part(d, rat));
        lemma_exact_div(part(d, rat), c);
        let pt = rq(part(t, rat));
        lemma_exact_add(part(vx, rat), part(t, rat));
        let px2 = rq(part(x2, rat));
        // x2 - vx ≡ t
        lemma_qadd_cong(px2, qadd(px, pt), qneg(px), qneg(px));
        lemma_add_cancel(px, pt);
        lemma_pos(px, pt);
        lemma_pos(qadd(px, pt), qneg(px));
        lemma_qeq_trans(qsub(px2, px), qadd(qadd(px, pt), qneg(px)), pt);
        // c·t ≡ c·(d·ic) == (c·ic)·d ≡ d ≡ nv - vl
        lemma_qmul_cong(cq, cq, pt, qmul(pd, ic));
        lemma_ring(cq, pd, ic);
        lemma_ring(pd, ic, qz());
        lemma_ring(cq, ic, pd);
        lemma_qmul_cong(qmul(cq, ic), qone(), pd, pd);
        lemma_ring(pd, pd, pd);
        lemma_pos(pd, ic);
        lemma_pos(cq, ic);
        lemma_pos(cq, qmul(pd, ic));
        lemma_pos(qmul(cq, ic), pd);
        lemma_qeq_trans(qmul(cq, pt), qmul(cq, qmul(pd, ic)), pd);
        lemma_pos(pn, qneg(pl));
        lemma_qeq_trans(qmul(cq, pt), pd, qsub(pn, pl));
        // c·(x2 - vx) ≡ nv - vl
        lemma_qmul_cong(cq, cq, qsub(px2, px), pt);
        lemma_pos(cq, pt);
        lemma_qeq_trans(qmul(cq, qsub(px2, px)), qmul(cq, pt), qsub(pn, pl));
        // vl + c·(x2 - vx) ≡ vl + (nv - vl) == (vl + nv) + -vl ≡ nv
        lemma_qadd_cong(pl, pl, qmul(cq, qsub(px2, px)), qsub(pn, pl));
        lemma_ring(pl, pn, qneg(pl));
        lemma_ring(pl, pn, qz());
        lemma_add_cancel(pl, pn);
        lemma_pos(pl, qsub(pn, pl));
        lemma_qeq_trans(qadd(pl, qmul(cq, qsub(px2, px))), qadd(pl, qsub(pn, pl)), pn);
        lemma_qeq_sym(qadd(pl, qmul(cq, qsub(px2, px))), pn);
    }
    assert(shift_part(nv, vl, c, x2, vx, true));
    assert(shift_part(nv, vl, c, x2, vx, false));
    lemma_exact_sub(nv.rat, vl.rat);
    lemma_exact_sub(nv.inf, vl.inf);
    lemma_exact_div(d.rat, c);
    lemma_exact_div(d.inf, c);
}

/// The exact parts of a value: its rational part and the factor of its
/// infinitesimal.
pub open spec fn xq(x: InfRational) -> (Q, Q) {
    (rq(x.rat), rq(x.inf))
}

/// `a` is at most `b` in the order of values: by rational part, then by
/// infinitesimal.
pub open spec fn lex_le(a: (Q, Q), b: (Q, Q)) -> bool {
    qlt(a.0, b.0) || (qeq(a.0, b.0) && qle(a.1, b.1))
}

pub open spec fn lex_lt(a: (Q, Q), b: (Q, Q)) -> bool {
    qlt(a.0, b.0) || (qeq(a.0, b.0) && qlt(a.1, b.1))
}

pub open spec fn pair_pos(a: (Q, Q)) -> bool {
    pos(a.0) && pos(a.1)
}

pub open spec fn pair_add(a: (Q, Q), b: (Q, Q)) -> (Q, Q) {
    (qadd(a.0, b.0), qadd(a.1, b.1))
}

pub open spec fn pair_scale(c: Q, a: (Q, Q)) -> (Q, Q) {
    (qmul(c, a.0), qmul(c, a.1))
}

/// The order of finite values is the order of their exact parts.
pub proof fn lemma_lex_of(x: InfRational, y: InfRational)
    requires
        x.wf() && x.is_fin(),
        y.wf() && y.is_fin(),
    ensures
        x.less(y) <==> lex_lt(xq(x), xq(y)),
        x.leq(y) <==> lex_le(xq(x), xq(y)),
{
    lemma_qorder(rq(x.inf), rq(y.inf), rq(y.inf));
}

/// Order of values through equivalent parts, and transitivity.
pub proof fn lemma_lex_trans(a: (Q, Q), b: (Q, Q), c: (Q, Q))
    requires
        pair_pos(a),
        pair_pos(b),
        pair_pos(c),
    ensures
        lex_le(a, b) && lex_le(b, c) ==> lex_le(a, c),
        lex_le(a, b) && lex_lt(b, c) ==> lex_lt(a, c),
        lex_lt(a, b) && lex_le(b, c) ==> lex_lt(a, c),
        qeq(a.0, b.0) && qeq(a.1, b.1) ==> lex_le(a, b) && lex_le(b, a),
{
    lemma_qorder(a.0, b.0, c.0);
    lemma_qorder(a.1, b.1, c.1);
    if qeq(a.0, b.0) {
        lemma_qeq_sym(a.0, b.0);
    }
    if qeq(a.1, b.1) {
        lemma_qeq_sym(a.1, b.1);
    }
    if qeq(a.0, b.0) && qeq(b.0, c.0) {
        lemma_qeq_trans(a.0, b.0, c.0);
    }
    lemma_qorder(b.0, a.0, a.0);
    lemma_qorder(b.1, a.1, a.1);
}

/// Sums keep the order of values.
pub proof fn lemma_lex_add(a: (Q, Q), a2: (Q, Q), b: (Q, Q), b2: (Q, Q))
    requires
        pair_pos(a),
        pair_pos(a2),
        pair_pos(b),
        pair_pos(b2),
        lex_le(a, a2),
        lex_le(b, b2),
    ensures
        lex_le(pair_add(a, b), pair_add(a2, b2)),
{
    lemma_qorder(a.0, a2.0, a2.0);
    lemma_qorder(b.0, b2.0, b2.0);
    lemma_qorder(a.1, a2.1, a2.1);
    lemma_qorder(b.1, b2.1, b2.1);
    lemma_qle_add(a.0, a2.0, b.0, b2.0);
    if !(qlt(a.0, a2.0) || qlt(b.0, b2.0)) {
        lemma_qadd_cong(a.0, a2.0, b.0, b2.0);
        lemma_qle_add(a.1, a2.1, b.1, b2.1);
    }
}

/// Scaling by a positive factor keeps the order of values; by a negative
/// one it reverses it.
pub proof fn lemma_lex_scale(c: Q, a: (Q, Q), b: (Q, Q))
    requires
        pos(c),
        pair_pos(a),
        pair_pos(b),
        lex_le(a, b),
    ensures
        c.0 > 0 ==> lex_le(pair_scale(c, a), pair_scale(c, b)),
        c.0 < 0 ==> lex_le(pair_scale(c, b), pair_scale(c, a)),
{
    lemma_qle_scale(c, a.0, b.0);
    lemma_qle_scale(c, a.1, b.1);
    lemma_qorder(a.1, b.1, b.1);
    if qeq(a.0, b.0) {
        lemma_qmul_cong(c, c, a.0, b.0);
        lemma_qeq_sym(qmul(c, a.0), qmul(c, b.0));
    }
}

/// A sum whose terms are each at most those of another is at most it.
pub proof fn lemma_msum_lex(
    m: Map<usize, Rational>,
    fr: spec_fn(int) -> Q,
    fi: spec_fn(int) -> Q,
    gr: spec_fn(int) -> Q,
    gi: spec_fn(int) -> Q,
    n: nat,
)
    requires
        coeffs_pos(m),
        vals_pos(fr, n),
        vals_pos(fi, n),
        vals_pos(gr, n),
        vals_pos(gi, n),
        forall|k: int| 0 <= k < n ==> lex_le(
            (#[trigger] term_q(m, fr, k), term_q(m, fi, k)),
            (term_q(m, gr, k), term_q(m, gi, k)),
        ),
    ensures
        lex_le((msum(m, fr, n), msum(m, fi, n)), (msum(m, gr, n), msum(m, gi, n))),
    decreases n,
{
    if n == 0 {
        lemma_qorder(qz(), qz(), qz());
    } else {
        let p = (n - 1) as nat;
        lemma_msum_lex(m, fr, fi, gr, gi, p);
        let k = p as int;
        lemma_msum_pos(m, fr, p);
        lemma_msum_pos(m, fi, p);
        lemma_msum_pos(m, gr, p);
        lemma_msum_pos(m, gi, p);
        lemma_term_pos(m, fr, k);
        lemma_term_pos(m, fi, k);
        lemma_term_pos(m, gr, k);
        lemma_term_pos(m, gi, k);
        assert(lex_le((term_q(m, fr, k), term_q(m, fi, k)), (term_q(m, gr, k), term_q(m, gi, k))));
        lemma_lex_add(
            (msum(m, fr, p), msum(m, fi, p)),
            (msum(m, gr, p), msum(m, gi, p)),
            (term_q(m, fr, k), term_q(m, fi, k)),
            (term_q(m, gr, k), term_q(m, gi, k)),
        );
    }
}

/// The value of an expression grows with each variable of positive
/// coefficient and falls with each of negative coefficient: if every
/// variable moves so that its term does not grow, the value does not grow.
pub proof fn lemma_row_monotone(l: Lin, vals: Seq<InfRational>, at: Seq<InfRational>, v: InfRational, w: InfRational)
    requires
        l.wf(),
        vals.len() == at.len(),
        vals.len() <= usize::MAX,
        vals_fin(vals),
        vals_fin(at),
        v.wf() && v.is_fin(),
        w.wf() && w.is_fin(),
        holds(l, vals, v),
        holds(l, at, w),
        forall|k: usize| #[trigger] l.coeffs().contains_key(k) ==> {
            &&& k < vals.len()
            &&& l.coeffs()[k].num > 0 ==> vals[k as int].leq(at[k as int])
            &&& l.coeffs()[k].num < 0 ==> at[k as int].leq(vals[k as int])
        },
    ensures
        v.leq(w),
{
    let n = vals.len();
    let m = l.coeffs();
    lemma_lin_pos(l);
    let fr = parts(vals, true);
    let fi = parts(vals, false);
    let gr = parts(at, true);
    let gi = parts(at, false);
    lemma_parts_pos(vals, true);
    lemma_parts_pos(vals, false);
    lemma_parts_pos(at, true);
    lemma_parts_pos(at, false);
    assert forall|k: int| 0 <= k < n implies lex_le(
        (#[trigger] term_q(m, fr, k), term_q(m, fi, k)),
        (term_q(m, gr, k), term_q(m, gi, k)),
    ) by {
        let ku = k as usize;
        assert(ku as int == k);
        if m.contains_key(ku) {
            let c = rq(m[ku]);
            assert(m[ku].wf() && m[ku].is_fin());
            assert(vals[k].wf() && vals[k].is_fin());
            assert(at[k].wf() && at[k].is_fin());
            lemma_lex_of(vals[k], at[k]);
            lemma_lex_of(at[k], vals[k]);
            assert(fr(k) == rq(vals[k].rat));
            assert(fi(k) == rq(vals[k].inf));
            assert(gr(k) == rq(at[k].rat));
            assert(gi(k) == rq(at[k].inf));
            if m[ku].num > 0 {
                assert(vals[k].leq(at[k]));
                lemma_lex_scale(c, xq(vals[k]), xq(at[k]));
                assert(lex_le((term_q(m, fr, k), term_q(m, fi, k)), (term_q(m, gr, k), term_q(m, gi, k))));
            } else if m[ku].num < 0 {
                assert(at[k].leq(vals[k]));
                lemma_lex_scale(c, xq(at[k]), xq(vals[k]));
                assert(lex_le((term_q(m, fr, k), term_q(m, fi, k)), (term_q(m, gr, k), term_q(m, gi, k))));
            } else {
                lemma_mul_zero(fr(k), c);
                lemma_mul_zero(fi(k), c);
                lemma_mul_zero(gr(k), c);
                lemma_mul_zero(gi(k), c);
                lemma_pos(c, fr(k));
                lemma_pos(c, fi(k));
                lemma_pos(c, gr(k));
                lemma_pos(c, gi(k));
                assert(lex_le((term_q(m, fr, k), term_q(m, fi, k)), (term_q(m, gr, k), term_q(m, gi, k))));
            }
        } else {
            lemma_qorder(qz(), qz(), qz());
            assert(lex_le((term_q(m, fr, k), term_q(m, fi, k)), (term_q(m, gr, k), term_q(m, gi, k))));
        }
    }
    lemma_msum_lex(m, fr, fi, gr, gi, n);
    let sv = (msum(m, fr, n), msum(m, fi, n));
    let sw = (msum(m, gr, n), msum(m, gi, n));
    let k = (rq(l.known_term), qz());
    lemma_msum_pos(m, fr, n);
    lemma_msum_pos(m, fi, n);
    lemma_msum_pos(m, gr, n);
    lemma_msum_pos(m, gi, n);
    lemma_qorder(k.0, k.0, k.0);
    lemma_qorder(k.1, k.1, k.1);
    lemma_lex_add(sv, sw, k, k);
    // v ≡ sv + k ≤ sw + k ≡ w
    assert(holds_part(l, vals, v, true) && holds_part(l, vals, v, false));
    assert(holds_part(l, at, w, true) && holds_part(l, at, w, false));
    lemma_pos(sv.0, k.0);
    lemma_pos(sv.1, k.1);
    lemma_pos(sw.0, k.0);
    lemma_pos(sw.1, k.1);
    lemma_lex_trans(xq(v), pair_add(sv, k), pair_add(sw, k));
    lemma_qeq_sym(rq(w.rat), qadd(sw.0, k.0));
    lemma_qeq_sym(rq(w.inf), qadd(sw.1, k.1));
    lemma_lex_trans(pair_add(sw, k), xq(w), xq(w));
    lemma_lex_trans(xq(v), pair_add(sw, k), xq(w));
    lemma_lex_of(v, w);
}

} // verus!
