//! Greatest common divisors and the normal form of a fraction.
use vstd::prelude::*;
use vstd::arithmetic::div_mod::*;

verus! {

/// The greatest common divisor, by Euclid's algorithm.
pub open spec fn gcd(a: nat, b: nat) -> nat
    decreases b,
{
    if b == 0 {
        a
    } else {
        gcd(b, a % b)
    }
}

/// The absolute value of an integer.
pub open spec fn abs(x: int) -> nat {
    if x < 0 {
        (-x) as nat
    } else {
        x as nat
    }
}

/// `gcd(a, b)` is positive and divides both arguments when one of them is nonzero.
pub proof fn lemma_gcd_divides(a: nat, b: nat)
    requires
        a > 0 || b > 0,
    ensures
        gcd(a, b) > 0,
        a % gcd(a, b) == 0,
        b % gcd(a, b) == 0,
    decreases b,
{
    if b == 0 {
        lemma_mod_self_0(a as int);
    } else {
        let r = a % b;
        lemma_gcd_divides(b, r);
        let g = gcd(b, r);
        assert(gcd(a, b) == g);
        lemma_fundamental_div_mod(a as int, b as int);
        lemma_fundamental_div_mod(b as int, g as int);
        lemma_fundamental_div_mod(r as int, g as int);
        let q = a / b;
        let kb = b / g;
        let kr = r / g;
        assert(b == g * kb);
        assert(r == g * kr);
        assert(a == b * q + r);
        assert(a == g * (q * kb + kr)) by (nonlinear_arith)
            requires
                a == b * q + r,
                b == g * kb,
                r == g * kr,
        ;
        lemma_mod_multiples_basic((q * kb + kr) as int, g as int);
        assert((q * kb + kr) * g == g * (q * kb + kr)) by (nonlinear_arith);
    }
}

/// Euclid's algorithm on nonnegative machine integers.
pub fn gcd_i128(a: i128, b: i128) -> (g: i128)
    requires
        a >= 0,
        b >= 0,
    ensures
        g == gcd(a as nat, b as nat),
{
    let mut x: i128 = a;
    let mut y: i128 = b;
    while y != 0
        invariant
            x >= 0,
            y >= 0,
            gcd(x as nat, y as nat) == gcd(a as nat, b as nat),
        decreases y,
    {
        let t: i128 = x % y;
        x = y;
        y = t;
    }
    x
}

/// Numerator of `n / d` in lowest terms (for `d > 0`).
pub open spec fn norm_num(n: int, d: int) -> int {
    let g = gcd(abs(n), abs(d));
    if n < 0 {
        -((abs(n) / g) as int)
    } else {
        (abs(n) / g) as int
    }
}

/// Denominator of `n / d` in lowest terms (for `d > 0`).
pub open spec fn norm_den(n: int, d: int) -> int {
    (abs(d) / gcd(abs(n), abs(d))) as int
}

/// Reducing `n / d` keeps its value and a positive denominator.
pub proof fn lemma_norm(n: int, d: int)
    requires
        d > 0,
    ensures
        norm_den(n, d) > 0,
        norm_num(n, d) * d == n * norm_den(n, d),
        norm_den(n, d) <= d,
        abs(norm_num(n, d)) <= abs(n),
{
    let an = abs(n);
    let ad = abs(d);
    lemma_gcd_divides(an, ad);
    let g = gcd(an, ad);
    lemma_fundamental_div_mod(an as int, g as int);
    lemma_fundamental_div_mod(ad as int, g as int);
    let qn = an / g;
    let qd = ad / g;
    assert(an == g * qn);
    assert(ad == g * qd);
    assert(qd > 0) by (nonlinear_arith)
        requires
            ad == g * qd,
            ad > 0,
            g > 0,
    ;
    assert(qd <= ad) by (nonlinear_arith)
        requires
            ad == g * qd,
            g > 0,
            qd > 0,
    ;
    assert(qn <= an) by (nonlinear_arith)
        requires
            an == g * qn,
            g > 0,
    ;
    assert(qn * ad == an * qd) by (nonlinear_arith)
        requires
            an == g * qn,
            ad == g * qd,
    ;
    if n < 0 {
        assert(-(qn as int) * d == n * qd) by (nonlinear_arith)
            requires
                qn * ad == an * qd,
                ad == d,
                an == -n,
        ;
    }
}

} // verus!
