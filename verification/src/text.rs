//! Text forms of values, built as strings whose characters are specified.
use vstd::prelude::*;
use vstd::string::StringExecFns;
use crate::engine::Engine;
use crate::inf_rational::InfRational;
use crate::lin::Lin;
use crate::rational::Rational;
use crate::terms::Term;
use crate::var::VarId;

verus! {

/// The decimal digit `d` as a character.
pub open spec fn digit_char(d: int) -> char {
    (48 + d) as char
}

/// The decimal digits of `n`.
pub open spec fn nat_text(n: nat) -> Seq<char>
    decreases n,
{
    if n < 10 {
        seq![digit_char(n as int)]
    } else {
        nat_text(n / 10) + seq![digit_char((n % 10) as int)]
    }
}

/// The decimal form of `v`, with a leading `-` when negative.
pub open spec fn int_text(v: int) -> Seq<char> {
    if v < 0 {
        seq!['-'] + nat_text((-v) as nat)
    } else {
        nat_text(v as nat)
    }
}

/// The form of the rational `n / d`: `+inf` or `-inf` for a zero `d`, the
/// integer `n` for `d` one, `n/d` otherwise.
pub open spec fn ratio_text(n: int, d: int) -> Seq<char> {
    if d == 0 {
        if n > 0 {
            seq!['+', 'i', 'n', 'f']
        } else {
            seq!['-', 'i', 'n', 'f']
        }
    } else if d == 1 {
        int_text(n)
    } else {
        int_text(n) + seq!['/'] + int_text(d)
    }
}

/// The form of `r`.
pub open spec fn rat_text(r: Rational) -> Seq<char> {
    ratio_text(r.num as int, r.den as int)
}

/// The form of `-r`.
pub open spec fn neg_rat_text(r: Rational) -> Seq<char> {
    ratio_text(-r.num, r.den as int)
}

/// `r` has the value zero.
pub open spec fn zero_value(r: Rational) -> bool {
    r.den != 0 && r.num == 0
}

/// `r` has the value one.
pub open spec fn one_value(r: Rational) -> bool {
    r.den != 0 && r.num == r.den
}

/// `r` has the value minus one.
pub open spec fn minus_one_value(r: Rational) -> bool {
    r.den != 0 && r.num == -r.den
}

/// The form of `x`: its rational part alone when the infinitesimal part is
/// zero, `kε` when the rational part is zero, else `r + kε` or `r - kε`.
pub open spec fn inf_rat_text(x: InfRational) -> Seq<char> {
    if zero_value(x.inf) {
        rat_text(x.rat)
    } else if zero_value(x.rat) {
        rat_text(x.inf) + seq!['ε']
    } else if x.inf.num > 0 {
        rat_text(x.rat) + seq![' ', '+', ' '] + rat_text(x.inf) + seq!['ε']
    } else {
        rat_text(x.rat) + seq![' ', '-', ' '] + neg_rat_text(x.inf) + seq!['ε']
    }
}

/// The form of variable `v`: `x` and its index.
pub open spec fn var_text(v: VarId) -> Seq<char> {
    seq!['x'] + nat_text(v.0 as nat)
}

/// The form of a term of an expression, the first one or a later one.
pub open spec fn term_text(t: Term, first: bool) -> Seq<char> {
    let c = t.1;
    let x = var_text(t.0);
    if first {
        if c.num > 0 {
            if one_value(c) {
                x
            } else {
                rat_text(c) + seq!['*'] + x
            }
        } else if minus_one_value(c) {
            seq!['-'] + x
        } else {
            seq!['-'] + neg_rat_text(c) + seq!['*'] + x
        }
    } else if c.num > 0 {
        if one_value(c) {
            seq![' ', '+', ' '] + x
        } else {
            seq![' ', '+', ' '] + rat_text(c) + seq!['*'] + x
        }
    } else if minus_one_value(c) {
        seq![' ', '-', ' '] + x
    } else {
        seq![' ', '-', ' '] + neg_rat_text(c) + seq!['*'] + x
    }
}

/// The forms of the terms, in order.
pub open spec fn terms_text(ts: Seq<Term>) -> Seq<char>
    decreases ts.len(),
{
    if ts.len() == 0 {
        Seq::empty()
    } else {
        terms_text(ts.drop_last()) + term_text(ts.last(), ts.len() == 1)
    }
}

/// The form of `l`: its terms in order of variable, then the known term
/// (alone when there is no term; left out when zero; with its sign
/// otherwise).
pub open spec fn lin_text(l: Lin) -> Seq<char> {
    let k = l.known_term;
    if l.vars@.len() == 0 {
        rat_text(k)
    } else if zero_value(k) {
        terms_text(l.vars@)
    } else if k.num > 0 {
        terms_text(l.vars@) + seq![' ', '+', ' '] + rat_text(k)
    } else {
        terms_text(l.vars@) + seq![' ', '-', ' '] + neg_rat_text(k)
    }
}

/// Appends the decimal digit `d`.
fn push_digit(s: &mut String, d: u64)
    requires
        d < 10,
    ensures
        final(s)@ == old(s)@ + seq![digit_char(d as int)],
{
    proof {
        reveal_strlit("0");
        reveal_strlit("1");
        reveal_strlit("2");
        reveal_strlit("3");
        reveal_strlit("4");
        reveal_strlit("5");
        reveal_strlit("6");
        reveal_strlit("7");
        reveal_strlit("8");
        reveal_strlit("9");
    }
    if d == 0 {
        s.append("0");
    } else if d == 1 {
        s.append("1");
    } else if d == 2 {
        s.append("2");
    } else if d == 3 {
        s.append("3");
    } else if d == 4 {
        s.append("4");
    } else if d == 5 {
        s.append("5");
    } else if d == 6 {
        s.append("6");
    } else if d == 7 {
        s.append("7");
    } else if d == 8 {
        s.append("8");
    } else {
        s.append("9");
    }
}

/// Appends the decimal digits of `n`.
pub fn push_nat(s: &mut String, n: u64)
    ensures
        final(s)@ == old(s)@ + nat_text(n as nat),
    decreases n,
{
    if n >= 10 {
        push_nat(s, n / 10);
        push_digit(s, n % 10);
        proof {
            assert(old(s)@ + nat_text((n / 10) as nat) + seq![digit_char((n % 10) as int)] == old(s)@ + nat_text(n as nat));
        }
    } else {
        push_digit(s, n);
    }
}

/// Appends the decimal form of `v`.
pub fn push_int(s: &mut String, v: i128)
    requires
        -0x1_0000_0000_0000_0000 < v < 0x1_0000_0000_0000_0000,
    ensures
        final(s)@ == old(s)@ + int_text(v as int),
{
    if v < 0 {
        proof {
            reveal_strlit("-");
        }
        s.append("-");
        let m = (-v) as u64;
        push_nat(s, m);
    } else {
        push_nat(s, v as u64);
    }
}

/// Appends the form of `n / d`.
fn push_ratio(s: &mut String, n: i128, d: i64)
    requires
        -0x1_0000_0000_0000_0000 < n < 0x1_0000_0000_0000_0000,
    ensures
        final(s)@ == old(s)@ + ratio_text(n as int, d as int),
{
    if d == 0 {
        if n > 0 {
            proof {
                reveal_strlit("+inf");
            }
            s.append("+inf");
        } else {
            proof {
                reveal_strlit("-inf");
            }
            s.append("-inf");
        }
    } else if d == 1 {
        push_int(s, n);
    } else {
        push_int(s, n);
        proof {
            reveal_strlit("/");
        }
        s.append("/");
        push_int(s, d as i128);
    }
}

/// Appends the form of `r`.
pub fn push_rat(s: &mut String, r: &Rational)
    ensures
        final(s)@ == old(s)@ + rat_text(*r),
{
    push_ratio(s, r.num as i128, r.den);
}

/// Appends the form of `-r`.
pub fn push_neg_rat(s: &mut String, r: &Rational)
    ensures
        final(s)@ == old(s)@ + neg_rat_text(*r),
{
    push_ratio(s, -(r.num as i128), r.den);
}

/// Appends the form of `x`.
pub fn push_inf_rat(s: &mut String, x: &InfRational)
    ensures
        final(s)@ == old(s)@ + inf_rat_text(*x),
{
    proof {
        reveal_strlit("ε");
        reveal_strlit(" + ");
        reveal_strlit(" - ");
    }
    if x.inf.den != 0 && x.inf.num == 0 {
        push_rat(s, &x.rat);
    } else if x.rat.den != 0 && x.rat.num == 0 {
        push_rat(s, &x.inf);
        s.append("ε");
    } else if x.inf.num > 0 {
        push_rat(s, &x.rat);
        s.append(" + ");
        push_rat(s, &x.inf);
        s.append("ε");
    } else {
        push_rat(s, &x.rat);
        s.append(" - ");
        push_neg_rat(s, &x.inf);
        s.append("ε");
    }
}

/// Appends the form of variable `v`.
pub fn push_var(s: &mut String, v: VarId)
    ensures
        final(s)@ == old(s)@ + var_text(v),
{
    proof {
        reveal_strlit("x");
    }
    s.append("x");
    push_nat(s, v.0 as u64);
}

/// Appends the form of term `t`, the first of its expression or a later one.
fn push_term(s: &mut String, t: Term, first: bool)
    ensures
        final(s)@ == old(s)@ + term_text(t, first),
{
    proof {
        reveal_strlit("*");
        reveal_strlit("-");
        reveal_strlit(" + ");
        reveal_strlit(" - ");
    }
    let c = t.1;
    let one = c.den != 0 && c.num == c.den;
    let minus_one = c.den != 0 && c.num as i128 == -(c.den as i128);
    if first {
        if c.num > 0 {
            if one {
                push_var(s, t.0);
            } else {
                push_rat(s, &c);
                s.append("*");
                push_var(s, t.0);
            }
        } else if minus_one {
            s.append("-");
            push_var(s, t.0);
        } else {
            s.append("-");
            push_neg_rat(s, &c);
            s.append("*");
            push_var(s, t.0);
        }
    } else if c.num > 0 {
        if one {
            s.append(" + ");
            push_var(s, t.0);
        } else {
            s.append(" + ");
            push_rat(s, &c);
            s.append("*");
            push_var(s, t.0);
        }
    } else if minus_one {
        s.append(" - ");
        push_var(s, t.0);
    } else {
        s.append(" - ");
        push_neg_rat(s, &c);
        s.append("*");
        push_var(s, t.0);
    }
}

/// Appends the form of `l`.
pub fn push_lin(s: &mut String, l: &Lin)
    ensures
        final(s)@ == old(s)@ + lin_text(*l),
{
    proof {
        reveal_strlit(" + ");
        reveal_strlit(" - ");
    }
    let ghost start = s@;
    let n = l.vars.len();
    for i in 0..n
        invariant
            n == l.vars@.len(),
            s@ == start + terms_text(l.vars@.take(i as int)),
    {
        proof {
            assert(l.vars@.take(i + 1).drop_last() == l.vars@.take(i as int));
            assert(l.vars@.take(i + 1).last() == l.vars@[i as int]);
        }
        push_term(s, l.vars[i], i == 0);
    }
    proof {
        assert(l.vars@.take(n as int) == l.vars@);
    }
    let k = l.known_term;
    if n == 0 {
        push_rat(s, &k);
    } else if k.den != 0 && k.num == 0 {
    } else if k.num > 0 {
        s.append(" + ");
        push_rat(s, &k);
    } else {
        s.append(" - ");
        push_neg_rat(s, &k);
    }
}

impl Rational {
    /// The text form: `n`, `n/d`, `+inf` or `-inf`.
    pub fn to_text(&self) -> (s: String)
        ensures
            s@ == rat_text(*self),
    {
        let mut s = String::new();
        push_rat(&mut s, self);
        s
    }
}

impl InfRational {
    /// The text form, as [`inf_rat_text`] says.
    pub fn to_text(&self) -> (s: String)
        ensures
            s@ == inf_rat_text(*self),
    {
        let mut s = String::new();
        push_inf_rat(&mut s, self);
        s
    }
}

impl VarId {
    /// The text form: `x` and the index.
    pub fn to_text(&self) -> (s: String)
        ensures
            s@ == var_text(*self),
    {
        let mut s = String::new();
        push_var(&mut s, *self);
        s
    }
}

impl Lin {
    /// The text form, as [`lin_text`] says: for instance `1/2*x1 - 3/4*x2 + 5`.
    pub fn to_text(&self) -> (s: String)
        ensures
            s@ == lin_text(*self),
    {
        let mut s = String::new();
        push_lin(&mut s, self);
        s
    }
}

impl Engine {
    /// The line of variable `v`: `x3 = value, [lower, upper]`.
    pub open spec fn var_line(&self, v: int) -> Seq<char> {
        var_text(VarId(v as usize)) + seq![' ', '=', ' '] + inf_rat_text(self.value(v)) + seq![',', ' ', '['] + inf_rat_text(
            self.lower(v),
        ) + seq![',', ' '] + inf_rat_text(self.upper(v)) + seq![']', '\n']
    }

    /// The line of basic variable `v`: `x3 = row`.
    pub open spec fn row_line(&self, v: int) -> Seq<char> {
        var_text(VarId(v as usize)) + seq![' ', '=', ' '] + lin_text(self.row(v)) + seq!['\n']
    }

    /// The lines of the variables below `n`.
    pub open spec fn var_lines(&self, n: nat) -> Seq<char>
        decreases n,
    {
        if n == 0 {
            Seq::empty()
        } else {
            self.var_lines((n - 1) as nat) + self.var_line(n - 1)
        }
    }

    /// The lines of the basic variables below `n`.
    pub open spec fn row_lines(&self, n: nat) -> Seq<char>
        decreases n,
    {
        if n == 0 {
            Seq::empty()
        } else {
            self.row_lines((n - 1) as nat) + if self.basic(n - 1) {
                self.row_line(n - 1)
            } else {
                Seq::empty()
            }
        }
    }

    /// The line of variable `v`, as [`Engine::var_line`] says.
    fn var_line_text(&self, v: VarId) -> (line: String)
        requires
            self.inv(),
            v.0 < self.num_vars(),
        ensures
            line@ == self.var_line(v.0 as int),
    {
        proof {
            reveal_strlit(" = ");
            reveal_strlit(", [");
            reveal_strlit(", ");
            reveal_strlit("]\n");
        }
        let mut line = String::new();
        push_var(&mut line, v);
        line.append(" = ");
        let val = self.val(v);
        push_inf_rat(&mut line, &val);
        line.append(", [");
        let lb = self.lb(v);
        push_inf_rat(&mut line, &lb);
        line.append(", ");
        let ub = self.ub(v);
        push_inf_rat(&mut line, &ub);
        line.append("]\n");
        proof {
            assert(Seq::<char>::empty() + var_text(v) == var_text(v));
            assert(VarId(v.0 as int as usize) == v);
        }
        line
    }

    /// The text form: a line per variable with its value and bounds, then a
    /// line per basic variable with its row.
    pub fn to_text(&self) -> (s: String)
        requires
            self.inv(),
        ensures
            s@ == self.var_lines(self.num_vars()) + self.row_lines(self.num_vars()),
    {
        proof {
            reveal_strlit(" = ");
            reveal_strlit(", [");
            reveal_strlit(", ");
            reveal_strlit("]\n");
            reveal_strlit("\n");
        }
        let mut s = String::new();
        let n = self.var_count();
        for i in 0..n
            invariant
                n == self.num_vars(),
                self.inv(),
                s@ == self.var_lines(i as nat),
        {
            let v = VarId(i);
            let line = self.var_line_text(v);
            s.append(line.as_str());
        }
        let ghost head = s@;
        for i in 0..n
            invariant
                n == self.num_vars(),
                self.inv(),
                s@ == head + self.row_lines(i as nat),
        {
            match self.basic_row(VarId(i)) {
                Some(row) => {
                    proof {
                        reveal_strlit(" = ");
                        reveal_strlit("\n");
                    }
                    let mut line = String::new();
                    push_var(&mut line, VarId(i));
                    line.append(" = ");
                    push_lin(&mut line, row);
                    line.append("\n");
                    proof {
                        assert(Seq::<char>::empty() + var_text(VarId(i)) == var_text(VarId(i)));
                        assert(VarId(i as int as usize) == VarId(i));
                        assert(line@ == self.row_line(i as int));
                    }
                    s.append(line.as_str());
                },
                None => {},
            }
        }
        s
    }
}

} // verus!
