//! Exact rational arithmetic on unbounded integers, in which the results of
//! the bounded operations are stated.
//!
//! A value `(n, d)` with `d > 0` stands for the rational `n / d`; two values
//! are equivalent (`qeq`) when they stand for the same rational.
use vstd::prelude::*;
use crate::inf_rational::InfRational;
use crate::rational::Rational;
use crate::numtheory::lemma_norm;

verus! {

/// An exact rational `n / d`, meaningful for `d > 0`.
pub type Q = (int, int);

pub open spec fn qz() -> Q {
    (0, 1)
}

pub open spec fn qone() -> Q {
    (1, 1)
}

/// The denominator is positive.
pub open spec fn pos(a: Q) -> bool {
    a.1 > 0
}

/// `a` and `b` stand for the same rational.
pub open spec fn qeq(a: Q, b: Q) -> bool {
    a.0 * b.1 == b.0 * a.1
}

pub open spec fn qadd(a: Q, b: Q) -> Q {
    (a.0 * b.1 + b.0 * a.1, a.1 * b.1)
}

pub open spec fn qmul(a: Q, b: Q) -> Q {
    (a.0 * b.0, a.1 * b.1)
}

pub open spec fn qneg(a: Q) -> Q {
    (-a.0, a.1)
}

pub open spec fn qsub(a: Q, b: Q) -> Q {
    qadd(a, qneg(b))
}

/// `1 / a`, for a nonzero `a`, with a positive denominator.
pub open spec fn qinv(a: Q) -> Q {
    if a.0 > 0 {
        (a.1, a.0)
    } else {
        (-a.1, -a.0)
    }
}

/// The exact value of a finite rational.
pub open spec fn rq(r: Rational) -> Q {
    (r.num as int, r.den as int)
}

/// Sums, products and negations keep denominators positive.
pub proof fn lemma_pos(a: Q, b: Q)
    requires
        pos(a),
        pos(b),
    ensures
        pos(qadd(a, b)),
        pos(qmul(a, b)),
        pos(qneg(a)),
        pos(qsub(a, b)),
{
    assert(a.1 * b.1 > 0) by (nonlinear_arith)
        requires
            a.1 > 0,
            b.1 > 0,
    ;
}

/// Equivalence is symmetric.
pub proof fn lemma_qeq_sym(a: Q, b: Q)
    requires
        qeq(a, b),
    ensures
        qeq(b, a),
{
}

/// Equivalence is transitive.
pub proof fn lemma_qeq_trans(a: Q, b: Q, c: Q)
    requires
        pos(b),
        qeq(a, b),
        qeq(b, c),
    ensures
        qeq(a, c),
{
    assert(b.1 * (a.0 * c.1 - c.0 * a.1) == 0) by (nonlinear_arith)
        requires
            a.0 * b.1 == b.0 * a.1,
            b.0 * c.1 == c.0 * b.1,
    ;
    assert(a.0 * c.1 - c.0 * a.1 == 0) by (nonlinear_arith)
        requires
            b.1 * (a.0 * c.1 - c.0 * a.1) == 0,
            b.1 > 0,
    ;
}

/// `(p + q) · (r · s)` regrouped.
proof fn lemma_expand(x: int, y: int, u: int, v: int, r: int, t: int)
    ensures
        (x * y + u * v) * (r * t) == (x * r) * (y * t) + (u * t) * (v * r),
{
    assert((x * y) * (r * t) == (x * r) * (y * t)) by (nonlinear_arith);
    assert((u * v) * (r * t) == (u * t) * (v * r)) by (nonlinear_arith);
    assert((x * y + u * v) * (r * t) == (x * y) * (r * t) + (u * v) * (r * t)) by (nonlinear_arith);
}

/// Equivalent summands give equivalent sums.
pub proof fn lemma_qadd_cong(a: Q, a2: Q, b: Q, b2: Q)
    requires
        qeq(a, a2),
        qeq(b, b2),
    ensures
        qeq(qadd(a, b), qadd(a2, b2)),
{
    let (a0, a1) = a;
    let (c0, c1) = a2;
    let (b0, b1) = b;
    let (d0, d1) = b2;
    // (a0 b1 + b0 a1)(c1 d1) = (a0 c1)(b1 d1) + (b0 d1)(a1 c1)
    lemma_expand(a0, b1, b0, a1, c1, d1);
    // (c0 d1 + d0 c1)(a1 b1) = (c0 a1)(d1 b1) + (d0 b1)(c1 a1)
    lemma_expand(c0, d1, d0, c1, a1, b1);
    assert(d1 * b1 == b1 * d1) by (nonlinear_arith);
    assert(c1 * a1 == a1 * c1) by (nonlinear_arith);
}

/// Equivalent factors give equivalent products.
pub proof fn lemma_qmul_cong(a: Q, a2: Q, b: Q, b2: Q)
    requires
        qeq(a, a2),
        qeq(b, b2),
    ensures
        qeq(qmul(a, b), qmul(a2, b2)),
{
    let (a0, a1) = a;
    let (c0, c1) = a2;
    let (b0, b1) = b;
    let (d0, d1) = b2;
    assert((a0 * b0) * (c1 * d1) == (a0 * c1) * (b0 * d1)) by (nonlinear_arith);
    assert((c0 * d0) * (a1 * b1) == (c0 * a1) * (d0 * b1)) by (nonlinear_arith);
}

proof fn lemma_assoc_num(a0: int, a1: int, b0: int, b1: int, c0: int, c1: int)
    ensures
        (a0 * b1 + b0 * a1) * c1 + c0 * (a1 * b1) == a0 * (b1 * c1) + (b0 * c1 + c0 * b1) * a1,
        (a1 * b1) * c1 == a1 * (b1 * c1),
{
    assert((a0 * b1 + b0 * a1) * c1 == a0 * (b1 * c1) + (b0 * c1) * a1) by (nonlinear_arith);
    assert(c0 * (a1 * b1) == (c0 * b1) * a1) by (nonlinear_arith);
    assert((b0 * c1 + c0 * b1) * a1 == (b0 * c1) * a1 + (c0 * b1) * a1) by (nonlinear_arith);
    assert((a1 * b1) * c1 == a1 * (b1 * c1)) by (nonlinear_arith);
}

/// Sums and products are commutative and associative, exactly.
pub proof fn lemma_ring(a: Q, b: Q, c: Q)
    ensures
        qadd(a, b) == qadd(b, a),
        qmul(a, b) == qmul(b, a),
        qadd(qadd(a, b), c) == qadd(a, qadd(b, c)),
        qmul(qmul(a, b), c) == qmul(a, qmul(b, c)),
        qadd(a, qz()) == a,
        qadd(qz(), a) == a,
        qmul(qone(), a) == a,
        qmul(a, qone()) == a,
        qneg(qmul(a, b)) == qmul(qneg(a), b),
        qneg(qneg(a)) == a,
        qneg(qadd(a, b)) == qadd(qneg(a), qneg(b)),
{
    let (a0, a1) = a;
    let (b0, b1) = b;
    let (c0, c1) = c;
    assert(a1 * b1 == b1 * a1) by (nonlinear_arith);
    assert(a0 * b0 == b0 * a0) by (nonlinear_arith);
    lemma_assoc_num(a0, a1, b0, b1, c0, c1);
    assert((a0 * b0) * c0 == a0 * (b0 * c0)) by (nonlinear_arith);
    assert(-(a0 * b0) == (-a0) * b0) by (nonlinear_arith);
    assert(-(a0 * b1 + b0 * a1) == (-a0) * b1 + (-b0) * a1) by (nonlinear_arith);
}

/// Rearranging four terms: `(a + b) + (c + d) = (a + c) + (b + d)`.
pub proof fn lemma_swap(a: Q, b: Q, c: Q, d: Q)
    ensures
        qadd(qadd(a, b), qadd(c, d)) == qadd(qadd(a, c), qadd(b, d)),
{
    lemma_ring(a, b, qadd(c, d));
    lemma_ring(b, c, d);
    lemma_ring(c, b, d);
    lemma_ring(b, c, qz());
    lemma_ring(a, c, qadd(b, d));
}

/// Multiplication distributes over addition.
pub proof fn lemma_distrib(c: Q, a: Q, b: Q)
    requires
        pos(c),
    ensures
        qeq(qmul(c, qadd(a, b)), qadd(qmul(c, a), qmul(c, b))),
{
    let (c0, c1) = c;
    let (a0, a1) = a;
    let (b0, b1) = b;
    let l0 = c0 * (a0 * b1 + b0 * a1);
    let l1 = c1 * (a1 * b1);
    let r0 = (c0 * a0) * (c1 * b1) + (c0 * b0) * (c1 * a1);
    let r1 = (c1 * a1) * (c1 * b1);
    assert((c0 * a0) * (c1 * b1) == c1 * (c0 * (a0 * b1))) by (nonlinear_arith);
    assert((c0 * b0) * (c1 * a1) == c1 * (c0 * (b0 * a1))) by (nonlinear_arith);
    assert(c0 * (a0 * b1 + b0 * a1) == c0 * (a0 * b1) + c0 * (b0 * a1)) by (nonlinear_arith);
    assert(c1 * (c0 * (a0 * b1) + c0 * (b0 * a1)) == c1 * (c0 * (a0 * b1)) + c1 * (c0 * (b0 * a1))) by (nonlinear_arith);
    assert(r0 == c1 * l0);
    assert(r1 == c1 * l1) by (nonlinear_arith)
        requires
            l1 == c1 * (a1 * b1),
            r1 == (c1 * a1) * (c1 * b1),
    ;
    assert(l0 * r1 == r0 * l1) by (nonlinear_arith)
        requires
            r0 == c1 * l0,
            r1 == c1 * l1,
    ;
}

/// Anything times zero is zero.
pub proof fn lemma_mul_zero(a: Q, z: Q)
    requires
        z.0 == 0,
    ensures
        qmul(a, z).0 == 0,
        qmul(z, a).0 == 0,
{
}

/// `a - a` is zero.
pub proof fn lemma_cancel(a: Q)
    ensures
        qeq(qadd(a, qneg(a)), qz()),
{
    assert(a.0 * a.1 + (-a.0) * a.1 == 0) by (nonlinear_arith);
}

/// `a · (1/a)` is one.
pub proof fn lemma_inv(a: Q)
    requires
        pos(a),
        a.0 != 0,
    ensures
        pos(qinv(a)),
        qeq(qmul(a, qinv(a)), qone()),
        qinv(qneg(a)) == qneg(qinv(a)),
{
    if a.0 > 0 {
        assert(a.0 * a.1 == a.1 * a.0) by (nonlinear_arith);
    } else {
        assert(a.0 * (-a.1) == a.1 * (-a.0)) by (nonlinear_arith);
    }
}

/// A sum in range is the exact sum.
pub proof fn lemma_exact_add(x: Rational, y: Rational)
    requires
        x.wf() && x.is_fin(),
        y.wf() && y.is_fin(),
        x.add_spec(y) is Some,
    ensures
        pos(rq(x.add_spec(y).unwrap())),
        qeq(rq(x.add_spec(y).unwrap()), qadd(rq(x), rq(y))),
{
    lemma_pos(rq(x), rq(y));
    lemma_norm(x.num * y.den + y.num * x.den, x.den * y.den);
}

/// A difference in range is the exact difference.
pub proof fn lemma_exact_sub(x: Rational, y: Rational)
    requires
        x.wf() && x.is_fin(),
        y.wf() && y.is_fin(),
        x.sub_spec(y) is Some,
    ensures
        pos(rq(x.sub_spec(y).unwrap())),
        qeq(rq(x.sub_spec(y).unwrap()), qsub(rq(x), rq(y))),
{
    lemma_pos(rq(x), rq(y));
    assert(x.num * y.den - y.num * x.den == x.num * y.den + (-y.num) * x.den) by (nonlinear_arith);
    lemma_norm(x.num * y.den - y.num * x.den, x.den * y.den);
}

/// A product in range is the exact product.
pub proof fn lemma_exact_mul(x: Rational, y: Rational)
    requires
        x.wf() && x.is_fin(),
        y.wf() && y.is_fin(),
        x.mul_spec(y) is Some,
    ensures
        pos(rq(x.mul_spec(y).unwrap())),
        qeq(rq(x.mul_spec(y).unwrap()), qmul(rq(x), rq(y))),
{
    lemma_pos(rq(x), rq(y));
    lemma_norm(x.num * y.num, x.den * y.den);
}

/// A quotient in range is the exact quotient.
pub proof fn lemma_exact_div(x: Rational, y: Rational)
    requires
        x.wf() && x.is_fin(),
        y.wf() && y.is_fin(),
        y.num != 0,
        x.div_spec(y) is Some,
    ensures
        pos(rq(x.div_spec(y).unwrap())),
        qeq(rq(x.div_spec(y).unwrap()), qmul(rq(x), qinv(rq(y)))),
{
    lemma_inv(rq(y));
    lemma_pos(rq(x), qinv(rq(y)));
    if y.num > 0 {
        lemma_norm(x.num * y.den, x.den * y.num);
    } else {
        assert(-x.num * y.den == x.num * (-y.den)) by (nonlinear_arith);
        lemma_norm(-x.num * y.den, x.den * (-y.num));
    }
}

/// A negation in range is exact.
pub proof fn lemma_exact_neg(x: Rational)
    requires
        x.neg_spec() is Some,
    ensures
        rq(x.neg_spec().unwrap()) == qneg(rq(x)),
{
}

/// The contribution `m[k] · f(k)` of variable `k` to a sum over the
/// coefficients `m`, zero when `k` has none.
pub open spec fn term_q(m: Map<usize, Rational>, f: spec_fn(int) -> Q, k: int) -> Q {
    if m.contains_key(k as usize) {
        qmul(rq(m[k as usize]), f(k))
    } else {
        qz()
    }
}

/// `Σ m[k] · f(k)` over the variables `k < n`.
pub open spec fn msum(m: Map<usize, Rational>, f: spec_fn(int) -> Q, n: nat) -> Q
    decreases n,
{
    if n == 0 {
        qz()
    } else {
        qadd(msum(m, f, (n - 1) as nat), term_q(m, f, n - 1))
    }
}

/// Every coefficient has a positive denominator.
pub open spec fn coeffs_pos(m: Map<usize, Rational>) -> bool {
    forall|k: usize| m.contains_key(k) ==> (#[trigger] m[k]).den > 0
}

/// Every value below `n` has a positive denominator.
pub open spec fn vals_pos(f: spec_fn(int) -> Q, n: nat) -> bool {
    forall|k: int| 0 <= k < n ==> pos(#[trigger] f(k))
}

/// A term of a sum has a positive denominator.
pub proof fn lemma_term_pos(m: Map<usize, Rational>, f: spec_fn(int) -> Q, k: int)
    requires
        coeffs_pos(m),
        pos(f(k)),
    ensures
        pos(term_q(m, f, k)),
{
    if m.contains_key(k as usize) {
        lemma_pos(rq(m[k as usize]), f(k));
    }
}

/// A sum has a positive denominator.
pub proof fn lemma_msum_pos(m: Map<usize, Rational>, f: spec_fn(int) -> Q, n: nat)
    requires
        coeffs_pos(m),
        vals_pos(f, n),
    ensures
        pos(msum(m, f, n)),
    decreases n,
{
    if n > 0 {
        lemma_msum_pos(m, f, (n - 1) as nat);
        lemma_term_pos(m, f, n - 1);
        lemma_pos(msum(m, f, (n - 1) as nat), term_q(m, f, n - 1));
    }
}

/// Sums of equal terms are equal.
pub proof fn lemma_msum_eq(m1: Map<usize, Rational>, f1: spec_fn(int) -> Q, m2: Map<usize, Rational>, f2: spec_fn(int) -> Q, n: nat)
    requires
        forall|k: int| 0 <= k < n ==> #[trigger] term_q(m1, f1, k) == term_q(m2, f2, k),
    ensures
        msum(m1, f1, n) == msum(m2, f2, n),
    decreases n,
{
    if n > 0 {
        lemma_msum_eq(m1, f1, m2, f2, (n - 1) as nat);
        assert(term_q(m1, f1, n - 1) == term_q(m2, f2, n - 1));
    }
}

/// Two sums whose terms agree but at `j`: each plus the other's term at `j`
/// are equivalent.
pub proof fn lemma_msum_diff(
    m1: Map<usize, Rational>,
    f1: spec_fn(int) -> Q,
    m2: Map<usize, Rational>,
    f2: spec_fn(int) -> Q,
    n: nat,
    j: int,
)
    requires
        0 <= j < n,
        coeffs_pos(m1),
        coeffs_pos(m2),
        vals_pos(f1, n),
        vals_pos(f2, n),
        forall|k: int| 0 <= k < n && k != j ==> #[trigger] term_q(m1, f1, k) == term_q(m2, f2, k),
    ensures
        qeq(qadd(msum(m1, f1, n), term_q(m2, f2, j)), qadd(msum(m2, f2, n), term_q(m1, f1, j))),
    decreases n,
{
    let p = (n - 1) as nat;
    let a1 = msum(m1, f1, p);
    let a2 = msum(m2, f2, p);
    let u1 = term_q(m1, f1, j);
    let u2 = term_q(m2, f2, j);
    let t = term_q(m1, f1, p as int);
    if j == p {
        lemma_msum_eq(m1, f1, m2, f2, p);
        lemma_ring(a1, u1, u2);
        lemma_ring(u1, u2, qz());
        lemma_ring(a1, u2, u1);
    } else {
        assert(term_q(m2, f2, p as int) == t);
        lemma_msum_diff(m1, f1, m2, f2, p, j);
        lemma_ring(a1, t, u2);
        lemma_ring(t, u2, qz());
        lemma_ring(a1, u2, t);
        lemma_qadd_cong(qadd(a1, u2), qadd(a2, u1), t, t);
        lemma_ring(a2, u1, t);
        lemma_ring(u1, t, qz());
        lemma_ring(a2, t, u1);
    }
}

/// A sum whose terms are, each, a term of a second sum plus `s` times a
/// term of a third is the second sum plus `s` times the third.
pub proof fn lemma_msum_lin(
    m1: Map<usize, Rational>,
    f1: spec_fn(int) -> Q,
    m2: Map<usize, Rational>,
    f2: spec_fn(int) -> Q,
    m3: Map<usize, Rational>,
    f3: spec_fn(int) -> Q,
    s: Q,
    n: nat,
)
    requires
        pos(s),
        coeffs_pos(m1),
        coeffs_pos(m2),
        coeffs_pos(m3),
        vals_pos(f1, n),
        vals_pos(f2, n),
        vals_pos(f3, n),
        forall|k: int| 0 <= k < n ==> qeq(#[trigger] term_q(m1, f1, k), qadd(term_q(m2, f2, k), qmul(s, term_q(m3, f3, k)))),
    ensures
        qeq(msum(m1, f1, n), qadd(msum(m2, f2, n), qmul(s, msum(m3, f3, n)))),
    decreases n,
{
    if n == 0 {
        lemma_ring(qmul(s, qz()), qz(), qz());
        lemma_mul_zero(s, qz());
    } else {
        let p = (n - 1) as nat;
        lemma_msum_lin(m1, f1, m2, f2, m3, f3, s, p);
        let a1 = msum(m1, f1, p);
        let a2 = msum(m2, f2, p);
        let a3 = msum(m3, f3, p);
        let t1 = term_q(m1, f1, p as int);
        let t2 = term_q(m2, f2, p as int);
        let t3 = term_q(m3, f3, p as int);
        lemma_msum_pos(m2, f2, p);
        lemma_msum_pos(m3, f3, p);
        lemma_term_pos(m2, f2, p as int);
        lemma_term_pos(m3, f3, p as int);
        lemma_pos(s, a3);
        lemma_pos(s, t3);
        lemma_pos(a2, qmul(s, a3));
        lemma_pos(t2, qmul(s, t3));
        lemma_pos(a3, t3);
        lemma_pos(a2, t2);
        lemma_pos(qmul(s, a3), qmul(s, t3));
        lemma_pos(qadd(a2, t2), qadd(qmul(s, a3), qmul(s, t3)));
        // a1 + t1 ≡ (a2 + s·a3) + (t2 + s·t3)
        lemma_qadd_cong(a1, qadd(a2, qmul(s, a3)), t1, qadd(t2, qmul(s, t3)));
        // = (a2 + t2) + (s·a3 + s·t3)
        lemma_swap(a2, qmul(s, a3), t2, qmul(s, t3));
        // s·(a3 + t3) ≡ s·a3 + s·t3
        lemma_distrib(s, a3, t3);
        lemma_qeq_sym(qmul(s, qadd(a3, t3)), qadd(qmul(s, a3), qmul(s, t3)));
        lemma_qadd_cong(qadd(a2, t2), qadd(a2, t2), qadd(qmul(s, a3), qmul(s, t3)), qmul(s, qadd(a3, t3)));
        lemma_qeq_trans(
            qadd(a1, t1),
            qadd(qadd(a2, t2), qadd(qmul(s, a3), qmul(s, t3))),
            qadd(qadd(a2, t2), qmul(s, qadd(a3, t3))),
        );
    }
}

/// Adding something with a zero numerator changes nothing.
pub proof fn lemma_add_zero(t: Q, z: Q)
    requires
        z.0 == 0,
        pos(z),
    ensures
        qeq(qadd(t, z), t),
        qeq(qadd(z, t), t),
{
    assert((t.0 * z.1 + z.0 * t.1) * t.1 == t.0 * (t.1 * z.1)) by (nonlinear_arith)
        requires
            z.0 == 0,
    ;
    assert((z.0 * t.1 + t.0 * z.1) * t.1 == t.0 * (z.1 * t.1)) by (nonlinear_arith)
        requires
            z.0 == 0,
    ;
}

/// `(x + y) + -x` is `y`.
pub proof fn lemma_add_cancel(x: Q, y: Q)
    requires
        pos(x),
        pos(y),
    ensures
        qeq(qadd(qadd(x, y), qneg(x)), y),
{
    lemma_ring(x, y, qneg(x));
    lemma_ring(y, x, qneg(x));
    lemma_ring(x, y, qz());
    lemma_ring(y, qadd(x, qneg(x)), qz());
    lemma_cancel(x);
    lemma_pos(x, qneg(x));
    lemma_qadd_cong(y, y, qadd(x, qneg(x)), qz());
    lemma_ring(y, qz(), qz());
}

/// The sum over no coefficients is zero.
pub proof fn lemma_msum_empty(f: spec_fn(int) -> Q, n: nat)
    ensures
        msum(Map::<usize, Rational>::empty(), f, n) == qz(),
    decreases n,
{
    if n > 0 {
        lemma_msum_empty(f, (n - 1) as nat);
        lemma_ring(qz(), qz(), qz());
    }
}

/// The sum over one coefficient `c` on `k` is `c · f(k)`.
pub proof fn lemma_msum_single(k: usize, c: Rational, f: spec_fn(int) -> Q, n: nat)
    requires
        k < n,
        n <= usize::MAX,
        c.den > 0,
        vals_pos(f, n),
    ensures
        qeq(msum(Map::<usize, Rational>::empty().insert(k, c), f, n), qmul(rq(c), f(k as int))),
{
    let m = Map::<usize, Rational>::empty().insert(k, c);
    assert forall|j: int| 0 <= j < n && j != k implies #[trigger] term_q(m, f, j) == term_q(
        Map::<usize, Rational>::empty(),
        f,
        j,
    ) by {
        assert(j as usize as int == j);
        assert(!m.contains_key(j as usize));
    }
    lemma_msum_diff(m, f, Map::<usize, Rational>::empty(), f, n, k as int);
    lemma_msum_empty(f, n);
    lemma_ring(msum(m, f, n), qz(), qz());
    lemma_ring(qmul(rq(c), f(k as int)), qz(), qz());
}

/// `a` stands for a rational at most that of `b`.
pub open spec fn qle(a: Q, b: Q) -> bool {
    a.0 * b.1 <= b.0 * a.1
}

/// `a` stands for a rational below that of `b`.
pub open spec fn qlt(a: Q, b: Q) -> bool {
    a.0 * b.1 < b.0 * a.1
}

/// Order and equivalence agree with each other and are transitive.
pub proof fn lemma_qorder(a: Q, b: Q, c: Q)
    requires
        pos(a),
        pos(b),
        pos(c),
    ensures
        qle(a, b) <==> qlt(a, b) || qeq(a, b),
        qlt(a, b) ==> !qle(b, a),
        qle(a, b) || qle(b, a),
        qle(a, b) && qle(b, c) ==> qle(a, c),
        qlt(a, b) && qle(b, c) ==> qlt(a, c),
        qle(a, b) && qlt(b, c) ==> qlt(a, c),
        qeq(a, b) && qle(b, c) ==> qle(a, c),
        qle(a, b) && qeq(b, c) ==> qle(a, c),
        qeq(a, b) && qlt(b, c) ==> qlt(a, c),
        qlt(a, b) && qeq(b, c) ==> qlt(a, c),
{
    let (a0, a1) = a;
    let (b0, b1) = b;
    let (c0, c1) = c;
    assert(qle(a, b) && qle(b, c) ==> qle(a, c)) by {
        if qle(a, b) && qle(b, c) {
            assert(b1 * (a0 * c1) <= b1 * (c0 * a1)) by (nonlinear_arith)
                requires
                    a0 * b1 <= b0 * a1,
                    b0 * c1 <= c0 * b1,
                    a1 > 0,
                    b1 > 0,
                    c1 > 0,
            {
                assert((a0 * b1) * c1 <= (b0 * a1) * c1);
                assert((b0 * c1) * a1 <= (c0 * b1) * a1);
            }
            assert(a0 * c1 <= c0 * a1) by (nonlinear_arith)
                requires
                    b1 * (a0 * c1) <= b1 * (c0 * a1),
                    b1 > 0,
            ;
        }
    }
    assert(qlt(a, b) && qle(b, c) ==> qlt(a, c)) by {
        if qlt(a, b) && qle(b, c) {
            assert(b1 * (a0 * c1) < b1 * (c0 * a1)) by (nonlinear_arith)
                requires
                    a0 * b1 < b0 * a1,
                    b0 * c1 <= c0 * b1,
                    a1 > 0,
                    b1 > 0,
                    c1 > 0,
            {
                assert((a0 * b1) * c1 < (b0 * a1) * c1);
                assert((b0 * c1) * a1 <= (c0 * b1) * a1);
            }
            assert(a0 * c1 < c0 * a1) by (nonlinear_arith)
                requires
                    b1 * (a0 * c1) < b1 * (c0 * a1),
                    b1 > 0,
            ;
        }
    }
    assert(qle(a, b) && qlt(b, c) ==> qlt(a, c)) by {
        if qle(a, b) && qlt(b, c) {
            assert(b1 * (a0 * c1) < b1 * (c0 * a1)) by (nonlinear_arith)
                requires
                    a0 * b1 <= b0 * a1,
                    b0 * c1 < c0 * b1,
                    a1 > 0,
                    b1 > 0,
                    c1 > 0,
            {
                assert((a0 * b1) * c1 <= (b0 * a1) * c1);
                assert((b0 * c1) * a1 < (c0 * b1) * a1);
            }
            assert(a0 * c1 < c0 * a1) by (nonlinear_arith)
                requires
                    b1 * (a0 * c1) < b1 * (c0 * a1),
                    b1 > 0,
            ;
        }
    }
}

/// Sums of ordered values are ordered.
pub proof fn lemma_qle_add(a: Q, a2: Q, b: Q, b2: Q)
    requires
        pos(a),
        pos(a2),
        pos(b),
        pos(b2),
        qle(a, a2),
        qle(b, b2),
    ensures
        qle(qadd(a, b), qadd(a2, b2)),
        qlt(a, a2) ==> qlt(qadd(a, b), qadd(a2, b2)),
        qlt(b, b2) ==> qlt(qadd(a, b), qadd(a2, b2)),
{
    let (a0, a1) = a;
    let (c0, c1) = a2;
    let (b0, b1) = b;
    let (d0, d1) = b2;
    // (a0 b1 + b0 a1)(c1 d1) = (a0 c1)(b1 d1) + (b0 d1)(a1 c1)
    lemma_expand(a0, b1, b0, a1, c1, d1);
    lemma_expand(c0, d1, d0, c1, a1, b1);
    assert(d1 * b1 == b1 * d1) by (nonlinear_arith);
    assert(c1 * a1 == a1 * c1) by (nonlinear_arith);
    assert(b1 * d1 > 0 && a1 * c1 > 0) by (nonlinear_arith)
        requires
            a1 > 0,
            b1 > 0,
            c1 > 0,
            d1 > 0,
    ;
    assert((a0 * c1) * (b1 * d1) <= (c0 * a1) * (b1 * d1)) by (nonlinear_arith)
        requires
            a0 * c1 <= c0 * a1,
            b1 * d1 > 0,
    ;
    assert((b0 * d1) * (a1 * c1) <= (d0 * b1) * (a1 * c1)) by (nonlinear_arith)
        requires
            b0 * d1 <= d0 * b1,
            a1 * c1 > 0,
    ;
    if qlt(a, a2) {
        assert((a0 * c1) * (b1 * d1) < (c0 * a1) * (b1 * d1)) by (nonlinear_arith)
            requires
                a0 * c1 < c0 * a1,
                b1 * d1 > 0,
        ;
    }
    if qlt(b, b2) {
        assert((b0 * d1) * (a1 * c1) < (d0 * b1) * (a1 * c1)) by (nonlinear_arith)
            requires
                b0 * d1 < d0 * b1,
                a1 * c1 > 0,
        ;
    }
}

/// Scaling by a positive factor keeps the order; by a negative one it
/// reverses it.
pub proof fn lemma_qle_scale(c: Q, a: Q, b: Q)
    requires
        pos(c),
        pos(a),
        pos(b),
    ensures
        c.0 > 0 && qle(a, b) ==> qle(qmul(c, a), qmul(c, b)),
        c.0 > 0 && qlt(a, b) ==> qlt(qmul(c, a), qmul(c, b)),
        c.0 < 0 && qle(a, b) ==> qle(qmul(c, b), qmul(c, a)),
        c.0 < 0 && qlt(a, b) ==> qlt(qmul(c, b), qmul(c, a)),
{
    let (c0, c1) = c;
    let (a0, a1) = a;
    let (b0, b1) = b;
    assert((c0 * a0) * (c1 * b1) == (c0 * c1) * (a0 * b1)) by (nonlinear_arith);
    assert((c0 * b0) * (c1 * a1) == (c0 * c1) * (b0 * a1)) by (nonlinear_arith);
    if c0 > 0 {
        assert(c0 * c1 > 0) by (nonlinear_arith)
            requires
                c0 > 0,
                c1 > 0,
        ;
        if qle(a, b) {
            assert((c0 * c1) * (a0 * b1) <= (c0 * c1) * (b0 * a1)) by (nonlinear_arith)
                requires
                    a0 * b1 <= b0 * a1,
                    c0 * c1 > 0,
            ;
        }
        if qlt(a, b) {
            assert((c0 * c1) * (a0 * b1) < (c0 * c1) * (b0 * a1)) by (nonlinear_arith)
                requires
                    a0 * b1 < b0 * a1,
                    c0 * c1 > 0,
            ;
        }
    }
    if c0 < 0 {
        assert(c0 * c1 < 0) by (nonlinear_arith)
            requires
                c0 < 0,
                c1 > 0,
        ;
        if qle(a, b) {
            assert((c0 * c1) * (b0 * a1) <= (c0 * c1) * (a0 * b1)) by (nonlinear_arith)
                requires
                    a0 * b1 <= b0 * a1,
                    c0 * c1 < 0,
            ;
        }
        if qlt(a, b) {
            assert((c0 * c1) * (b0 * a1) < (c0 * c1) * (a0 * b1)) by (nonlinear_arith)
                requires
                    a0 * b1 < b0 * a1,
                    c0 * c1 < 0,
            ;
        }
    }
}

/// Equivalence is preserved by negation.
pub proof fn lemma_qneg_cong(a: Q, b: Q)
    requires
        qeq(a, b),
    ensures
        qeq(qneg(a), qneg(b)),
{
    assert((-a.0) * b.1 == -(a.0 * b.1)) by (nonlinear_arith);
    assert((-b.0) * a.1 == -(b.0 * a.1)) by (nonlinear_arith);
}

/// `z = x·y` with `y` nonzero gives `z · (1/y) = x`.
pub proof fn lemma_cancel_factor(x: Q, y: Q, z: Q)
    requires
        pos(x),
        pos(y),
        y.0 != 0,
        pos(z),
        qeq(z, qmul(x, y)),
    ensures
        pos(qmul(z, qinv(y))),
        qeq(qmul(z, qinv(y)), x),
{
    let i = qinv(y);
    lemma_inv(y);
    lemma_pos(x, y);
    lemma_pos(z, i);
    lemma_pos(y, i);
    lemma_pos(x, qmul(y, i));
    lemma_pos(qmul(x, y), i);
    lemma_qmul_cong(z, qmul(x, y), i, i);
    lemma_ring(x, y, i);
    lemma_qmul_cong(x, x, qmul(y, i), qone());
    lemma_ring(x, qone(), qz());
    lemma_qeq_trans(qmul(z, i), qmul(qmul(x, y), i), qmul(x, qone()));
}

/// Dividing a product of rationals by its nonzero factor gives back the
/// value: `(a·c)/c = a`.
pub proof fn lemma_mul_div_back(a: Rational, c: Rational)
    requires
        a.wf() && a.is_fin(),
        c.wf() && c.is_fin(),
        c.num != 0,
        a.mul_spec(c) is Some,
        a.mul_spec(c).unwrap().div_spec(c) is Some,
    ensures
        a.mul_spec(c).unwrap().div_spec(c).unwrap().same(a),
{
    let p = a.mul_spec(c).unwrap();
    let q = p.div_spec(c).unwrap();
    lemma_exact_mul(a, c);
    lemma_exact_div(p, c);
    lemma_cancel_factor(rq(a), rq(c), rq(p));
    lemma_qeq_trans(rq(q), qmul(rq(p), qinv(rq(c))), rq(a));
}

/// Dividing a product of values by a factor whose rational part is nonzero
/// gives back the value: `(x·y)/y = x`, whenever both steps are in range.
pub proof fn law_mul_div_back(x: InfRational, y: InfRational)
    requires
        x.wf() && x.is_fin(),
        y.wf() && y.is_fin(),
        y.rat.num != 0,
        x.mul_spec(y) is Some,
        x.mul_spec(y).unwrap().div_spec(y) is Some,
    ensures
        x.mul_spec(y).unwrap().div_spec(y).unwrap().same(x),
{
    let (a, b, c, d) = (x.rat, x.inf, y.rat, y.inf);
    let p = x.mul_spec(y).unwrap();
    let ac = a.mul_spec(c).unwrap();
    let ad = a.mul_spec(d).unwrap();
    let bc = b.mul_spec(c).unwrap();
    assert(p.rat == ac);
    assert(p.inf == ad.add_spec(bc).unwrap());
    let bc2 = p.inf.mul_spec(c).unwrap();
    let ad2 = p.rat.mul_spec(d).unwrap();
    let cc = c.mul_spec(c).unwrap();
    let num = bc2.sub_spec(ad2).unwrap();
    let q = p.div_spec(y).unwrap();
    assert(q.rat == ac.div_spec(c).unwrap());
    assert(q.inf == num.div_spec(cc).unwrap());
    lemma_mul_div_back(a, c);
    let (qa, qb, qc, qd) = (rq(a), rq(b), rq(c), rq(d));
    lemma_exact_mul(a, c);
    lemma_exact_mul(a, d);
    lemma_exact_mul(b, c);
    lemma_exact_mul(c, c);
    lemma_exact_add(ad, bc);
    let pi = p.inf;
    // the infinitesimal part of the product is `ad + bc`
    lemma_pos(qa, qd);
    lemma_pos(qb, qc);
    lemma_pos(rq(ad), rq(bc));
    lemma_qadd_cong(rq(ad), qmul(qa, qd), rq(bc), qmul(qb, qc));
    let s = qadd(qmul(qa, qd), qmul(qb, qc));
    lemma_pos(qmul(qa, qd), qmul(qb, qc));
    lemma_qeq_trans(rq(pi), qadd(rq(ad), rq(bc)), s);
    // `bc2 = (ad + bc)·c` and `ad2 = (a·c)·d`
    lemma_exact_mul(pi, c);
    lemma_exact_mul(ac, d);
    lemma_pos(rq(pi), qc);
    lemma_qmul_cong(rq(pi), s, qc, qc);
    lemma_qeq_trans(rq(bc2), qmul(rq(pi), qc), qmul(s, qc));
    lemma_pos(qa, qc);
    lemma_pos(rq(ac), qd);
    lemma_qmul_cong(rq(ac), qmul(qa, qc), qd, qd);
    let xx = qmul(qmul(qa, qc), qd);
    lemma_qeq_trans(rq(ad2), qmul(rq(ac), qd), xx);
    // `num = bc2 - ad2`
    lemma_exact_sub(bc2, ad2);
    lemma_qneg_cong(rq(ad2), xx);
    lemma_qadd_cong(rq(bc2), qmul(s, qc), qneg(rq(ad2)), qneg(xx));
    lemma_pos(rq(bc2), rq(ad2));
    lemma_qeq_trans(rq(num), qsub(rq(bc2), rq(ad2)), qadd(qmul(s, qc), qneg(xx)));
    // `(ad + bc)·c - (a·c)·d = b·(c·c)`
    let yy = qmul(qb, qmul(qc, qc));
    lemma_ring(s, qc, qz());
    lemma_distrib(qc, qmul(qa, qd), qmul(qb, qc));
    lemma_ring(qc, qa, qd);
    lemma_ring(qa, qc, qz());
    lemma_ring(qc, qb, qc);
    lemma_ring(qb, qc, qc);
    lemma_ring(qb, qc, qz());
    assert(qmul(qc, qmul(qa, qd)) == xx);
    assert(qmul(qc, qmul(qb, qc)) == yy);
    assert(qeq(qmul(s, qc), qadd(xx, yy)));
    lemma_qadd_cong(qmul(s, qc), qadd(xx, yy), qneg(xx), qneg(xx));
    lemma_ring(xx, yy, qneg(xx));
    lemma_ring(yy, xx, qneg(xx));
    lemma_ring(xx, yy, qz());
    lemma_cancel(xx);
    lemma_qadd_cong(yy, yy, qadd(xx, qneg(xx)), qz());
    lemma_ring(yy, qz(), qz());
    assert(qeq(qadd(qadd(xx, yy), qneg(xx)), yy));
    lemma_pos(s, qc);
    lemma_pos(qa, qc);
    lemma_pos(qmul(qa, qc), qd);
    lemma_pos(qmul(s, qc), xx);
    lemma_pos(qc, qc);
    lemma_pos(qb, qmul(qc, qc));
    lemma_pos(xx, yy);
    lemma_pos(qadd(xx, yy), xx);
    lemma_qeq_trans(qadd(qmul(s, qc), qneg(xx)), qadd(qadd(xx, yy), qneg(xx)), yy);
    lemma_qeq_trans(rq(num), qadd(qmul(s, qc), qneg(xx)), yy);
    // `b·(c·c) = b·cc`
    lemma_qeq_sym(rq(cc), qmul(qc, qc));
    lemma_qmul_cong(qb, qb, qmul(qc, qc), rq(cc));
    lemma_qeq_trans(rq(num), yy, qmul(qb, rq(cc)));
    // dividing by `cc` gives back `b`
    assert(cc.num != 0) by {
        assert(c.num * c.num != 0) by (nonlinear_arith)
            requires
                c.num != 0,
        ;
        assert(cc.num * (c.den * c.den) == (c.num * c.num) * cc.den);
        assert(cc.num * (c.den * c.den) != 0) by (nonlinear_arith)
            requires
                cc.num * (c.den * c.den) == (c.num * c.num) * cc.den,
                c.num * c.num != 0,
                cc.den > 0,
        ;
    }
    lemma_exact_div(num, cc);
    lemma_cancel_factor(qb, rq(cc), rq(num));
    lemma_qeq_trans(rq(q.inf), qmul(rq(num), qinv(rq(cc))), qb);
}

} // verus!
