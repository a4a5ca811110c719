//! The bounds of one variable: distinct values in increasing order, each with
//! the set of guards that set it.
use vstd::prelude::*;
use crate::inf_rational::{InfRational, lemma_inf_order, neg_inf, pos_inf};
use crate::rational::{Rational, lemma_order};
use crate::terms::{find_key, set_key, sorted_terms, term_map, lemma_term_index, lemma_empty_terms};
use crate::var::{GuardId, VarId};

verus! {

/// A bound value and the guards that set it.
pub struct BoundEntry {
    pub val: InfRational,
    pub guards: Vec<GuardId>,
}

/// A bound value and the guards that set it, as a spec value.
pub type BV = (InfRational, Seq<GuardId>);

pub open spec fn bview(s: Seq<BoundEntry>) -> Seq<BV> {
    s.map_values(|e: BoundEntry| (e.val, e.guards@))
}

pub open spec fn no_dups(gs: Seq<GuardId>) -> bool {
    forall|a: int, b: int| 0 <= a < b < gs.len() ==> gs[a] != gs[b]
}

/// Values strictly increase, are finite, and name known guards once each.
pub open spec fn bounds_ok(s: Seq<BV>, ng: nat) -> bool {
    &&& forall|i: int, j: int| 0 <= i < j < s.len() ==> s[i].0.less(s[j].0)
    &&& forall|i: int| 0 <= i < s.len() ==> s[i].0.wf() && s[i].0.is_fin()
    &&& forall|i: int, j: int| 0 <= i < s.len() && 0 <= j < s[i].1.len() ==> s[i].1[j].0 < ng
    &&& forall|i: int| 0 <= i < s.len() ==> no_dups(#[trigger] s[i].1)
}

/// The largest value, `-∞` when there is none.
pub open spec fn lb_of(s: Seq<BV>) -> InfRational {
    if s.len() == 0 {
        neg_inf()
    } else {
        s.last().0
    }
}

/// The smallest value, `+∞` when there is none.
pub open spec fn ub_of(s: Seq<BV>) -> InfRational {
    if s.len() == 0 {
        pos_inf()
    } else {
        s[0].0
    }
}

/// Some entry has the value of `x`.
pub open spec fn has_value(s: Seq<BV>, x: InfRational) -> bool {
    exists|i: int| 0 <= i < s.len() && s[i].0.same(x)
}

/// The entry with the value of `x`.
pub open spec fn value_index(s: Seq<BV>, x: InfRational) -> int {
    choose|i: int| 0 <= i < s.len() && s[i].0.same(x)
}

/// Where an entry of value `x` goes to keep the values increasing.
pub open spec fn is_insert_pos(s: Seq<BV>, x: InfRational, p: int) -> bool {
    &&& 0 <= p <= s.len()
    &&& forall|j: int| 0 <= j < p ==> s[j].0.less(x)
    &&& forall|j: int| p <= j < s.len() ==> x.less(s[j].0)
}

pub open spec fn insert_pos(s: Seq<BV>, x: InfRational) -> int {
    choose|p: int| is_insert_pos(s, x, p)
}

/// The position of guard `g` in `gs`.
pub open spec fn guard_index(gs: Seq<GuardId>, g: GuardId) -> int {
    choose|j: int| 0 <= j < gs.len() && gs[j] == g
}

/// `gs` without `g`.
pub open spec fn drop_one(gs: Seq<GuardId>, g: GuardId) -> Seq<GuardId> {
    if gs.contains(g) {
        gs.remove(guard_index(gs, g))
    } else {
        gs
    }
}

/// The bounds with an entry of value `x` that holds with no guard: an entry
/// without guards is in force unconditionally, so the guards of an existing
/// entry of that value come off it.
pub open spec fn with_value(s: Seq<BV>, x: InfRational) -> Seq<BV> {
    if has_value(s, x) {
        s.update(value_index(s, x), (s[value_index(s, x)].0, Seq::empty()))
    } else {
        s.insert(insert_pos(s, x), (x, Seq::empty()))
    }
}

/// The bounds with guard `g` on the entry of value `x` (added if missing); an
/// entry in force unconditionally stays so.
pub open spec fn with_guard(s: Seq<BV>, x: InfRational, g: GuardId) -> Seq<BV> {
    if has_value(s, x) {
        let i = value_index(s, x);
        if s[i].1.contains(g) || s[i].1.len() == 0 {
            s
        } else {
            s.update(i, (s[i].0, s[i].1.push(g)))
        }
    } else {
        s.insert(insert_pos(s, x), (x, seq![g]))
    }
}

/// The bounds with guard `g` taken off the entry of value `x`; the entry goes
/// away when `g` was its only guard.
pub open spec fn without_guard(s: Seq<BV>, x: InfRational, g: GuardId) -> Seq<BV> {
    if has_value(s, x) {
        let i = value_index(s, x);
        let gs = drop_one(s[i].1, g);
        if !s[i].1.contains(g) {
            s
        } else if gs.len() == 0 {
            s.remove(i)
        } else {
            s.update(i, (s[i].0, gs))
        }
    } else {
        s
    }
}

/// A finite well-formed value lies strictly between the two infinities.
pub proof fn lemma_finite_between(x: InfRational)
    requires
        x.wf(),
        x.is_fin(),
    ensures
        neg_inf().less(x),
        x.less(pos_inf()),
        neg_inf().wf(),
        pos_inf().wf(),
{
}

/// The entry at `i` is the one that `value_index` picks for its value.
pub proof fn lemma_value_index(s: Seq<BV>, ng: nat, i: int, x: InfRational)
    requires
        bounds_ok(s, ng),
        x.wf(),
        0 <= i < s.len(),
        s[i].0.same(x),
    ensures
        has_value(s, x),
        value_index(s, x) == i,
{
    let j = value_index(s, x);
    lemma_inf_order(s[j].0, x, s[i].0);
    lemma_inf_order(s[i].0, x, s[j].0);
    lemma_inf_order(x, s[i].0, s[j].0);
    if j < i {
        assert(s[j].0.less(s[i].0));
    } else if j > i {
        assert(s[i].0.less(s[j].0));
    }
}

/// The insertion position, when it exists, is the one `insert_pos` picks.
pub proof fn lemma_insert_pos(s: Seq<BV>, ng: nat, x: InfRational, p: int)
    requires
        bounds_ok(s, ng),
        x.wf(),
        is_insert_pos(s, x, p),
    ensures
        insert_pos(s, x) == p,
{
    let q = insert_pos(s, x);
    if q < p {
        assert(s[q].0.less(x));
        assert(x.less(s[q].0));
        lemma_inf_order(x, s[q].0, x);
    } else if q > p {
        assert(s[p].0.less(x));
        assert(x.less(s[p].0));
        lemma_inf_order(x, s[p].0, x);
    }
}

/// Every value lies between the smallest and the largest.
pub proof fn lemma_extremes(s: Seq<BV>, ng: nat)
    requires
        bounds_ok(s, ng),
    ensures
        forall|i: int| 0 <= i < s.len() ==> (#[trigger] s[i].0).leq(lb_of(s)),
        forall|i: int| 0 <= i < s.len() ==> ub_of(s).leq(#[trigger] s[i].0),
        lb_of(s).wf(),
        ub_of(s).wf(),
        s.len() > 0 ==> lb_of(s).is_fin() && ub_of(s).is_fin(),
        s.len() == 0 ==> lb_of(s) == neg_inf() && ub_of(s) == pos_inf(),
{
    assert forall|i: int| 0 <= i < s.len() implies (#[trigger] s[i].0).leq(lb_of(s)) by {
        if i < s.len() - 1 {
            assert(s[i].0.less(s[s.len() - 1].0));
        } else {
            lemma_inf_order(s[i].0, s[i].0, s[i].0);
        }
    }
    assert forall|i: int| 0 <= i < s.len() implies ub_of(s).leq(#[trigger] s[i].0) by {
        if i > 0 {
            assert(s[0].0.less(s[i].0));
        } else {
            lemma_inf_order(s[i].0, s[i].0, s[i].0);
        }
    }
}

/// A new value `x` (finite) keeps the bounds valid at its insertion position.
proof fn lemma_insert_ok(s: Seq<BV>, ng: nat, x: InfRational, gs: Seq<GuardId>, p: int)
    requires
        bounds_ok(s, ng),
        x.wf(),
        x.is_fin(),
        is_insert_pos(s, x, p),
        no_dups(gs),
        forall|j: int| 0 <= j < gs.len() ==> gs[j].0 < ng,
    ensures
        bounds_ok(s.insert(p, (x, gs)), ng),
{
    let t = s.insert(p, (x, gs));
    assert forall|i: int, j: int| 0 <= i < j < t.len() implies t[i].0.less(t[j].0) by {
        if i < p && j < p {
        } else if i < p && j == p {
        } else if i < p {
            assert(t[j] == s[j - 1]);
        } else if i == p {
            assert(t[j] == s[j - 1]);
        } else {
            assert(t[i] == s[i - 1]);
            assert(t[j] == s[j - 1]);
        }
    }
    assert forall|i: int| 0 <= i < t.len() implies no_dups(#[trigger] t[i].1) by {
        if i < p {
        } else if i > p {
            assert(t[i] == s[i - 1]);
        }
    }
    assert forall|i: int, j: int| 0 <= i < t.len() && 0 <= j < t[i].1.len() implies t[i].1[j].0
        < ng by {
        if i < p {
        } else if i > p {
            assert(t[i] == s[i - 1]);
        }
    }
}

/// The largest and smallest values after adding an entry of value `x`.
pub proof fn lemma_with_extremes(s: Seq<BV>, t: Seq<BV>, ng: nat, x: InfRational)
    requires
        bounds_ok(s, ng),
        bounds_ok(t, ng),
        x.wf(),
        x.is_fin(),
        adds_value(s, t, x),
    ensures
        lb_of(t).same(if lb_of(s).less(x) { x } else { lb_of(s) }),
        ub_of(t).same(if x.less(ub_of(s)) { x } else { ub_of(s) }),
{
    lemma_extremes(s, ng);
    lemma_extremes(t, ng);
    lemma_finite_between(x);
    let k = choose|k: int| 0 <= k < t.len() && t[k].0.same(x);
    let lt = lb_of(t);
    let ls = lb_of(s);
    let ut = ub_of(t);
    let us = ub_of(s);
    // x lies between the extremes of t
    assert(t[k].0.leq(lt));
    lemma_inf_order(x, t[k].0, lt);
    lemma_inf_order(t[k].0, x, lt);
    assert(x.leq(lt));
    assert(ut.leq(t[k].0));
    lemma_inf_order(ut, t[k].0, x);
    assert(ut.leq(x));
    // the extremes of s lie between the extremes of t
    if s.len() > 0 {
        assert(value_in(t, s[s.len() - 1].0));
        let j = choose|j: int| 0 <= j < t.len() && t[j].0 == s[s.len() - 1].0;
        assert(t[j].0.leq(lt));
        assert(ls.leq(lt));
        assert(value_in(t, s[0].0));
        let j0 = choose|j: int| 0 <= j < t.len() && t[j].0 == s[0].0;
        assert(ut.leq(t[j0].0));
        assert(ut.leq(us));
    } else {
        lemma_finite_between(lt);
        lemma_finite_between(ut);
        assert(ls.leq(lt));
        assert(ut.leq(us));
    }
    // the largest value of t is x or a value of s
    let jl = t.len() - 1;
    if t[jl].0 == x {
        lemma_inf_order(ls, lt, x);
        lemma_inf_order(x, ls, lt);
        lemma_inf_order(ls, x, x);
    } else {
        assert(value_in(s, t[jl].0));
        let i = choose|i: int| 0 <= i < s.len() && s[i].0 == t[jl].0;
        assert(s[i].0.leq(ls));
        assert(lt.leq(ls));
        lemma_inf_order(lt, ls, lt);
        lemma_inf_order(x, lt, ls);
        lemma_inf_order(ls, x, lt);
    }
    // the smallest value of t is x or a value of s
    if t[0].0 == x {
        lemma_inf_order(ut, us, x);
        lemma_inf_order(x, us, ut);
        lemma_inf_order(us, x, x);
    } else {
        assert(value_in(s, t[0].0));
        let i = choose|i: int| 0 <= i < s.len() && s[i].0 == t[0].0;
        assert(us.leq(s[i].0));
        assert(us.leq(ut));
        lemma_inf_order(ut, us, ut);
        lemma_inf_order(us, ut, x);
        lemma_inf_order(x, us, ut);
    }
}

/// Dropping entries can only lower the largest value and raise the smallest.
pub proof fn lemma_subset_extremes(s: Seq<BV>, t: Seq<BV>, ng: nat)
    requires
        bounds_ok(s, ng),
        bounds_ok(t, ng),
        keeps_values(s, t),
    ensures
        lb_of(t).leq(lb_of(s)),
        ub_of(s).leq(ub_of(t)),
{
    lemma_extremes(s, ng);
    lemma_extremes(t, ng);
    if t.len() > 0 {
        assert(value_in(s, t[t.len() - 1].0));
        let i = choose|i: int| 0 <= i < s.len() && s[i].0 == t[t.len() - 1].0;
        assert(s[i].0.leq(lb_of(s)));
        assert(value_in(s, t[0].0));
        let i0 = choose|i: int| 0 <= i < s.len() && s[i].0 == t[0].0;
        assert(ub_of(s).leq(s[i0].0));
    } else {
        if s.len() > 0 {
            lemma_finite_between(lb_of(s));
            lemma_finite_between(ub_of(s));
        } else {
            lemma_inf_order(neg_inf(), neg_inf(), neg_inf());
            lemma_inf_order(pos_inf(), pos_inf(), pos_inf());
        }
    }
}

/// Some entry of `s` has exactly the value `v`.
pub open spec fn value_in(s: Seq<BV>, v: InfRational) -> bool {
    exists|i: int| 0 <= i < s.len() && s[i].0 == v
}

/// `t` holds `x` and exactly the values of `s` besides.
pub open spec fn adds_value(s: Seq<BV>, t: Seq<BV>, x: InfRational) -> bool {
    &&& has_value(t, x)
    &&& forall|j: int| 0 <= j < t.len() ==> (t[j].0 == x || #[trigger] value_in(s, t[j].0))
    &&& forall|i: int| 0 <= i < s.len() ==> #[trigger] value_in(t, s[i].0)
}

/// Every value of `t` is a value of `s`.
pub open spec fn keeps_values(s: Seq<BV>, t: Seq<BV>) -> bool {
    forall|j: int| 0 <= j < t.len() ==> #[trigger] value_in(s, t[j].0)
}

/// Rewriting the guards of entries keeps the values.
proof fn lemma_same_values(s: Seq<BV>, t: Seq<BV>)
    requires
        s.len() == t.len(),
        forall|j: int| 0 <= j < s.len() ==> s[j].0 == t[j].0,
    ensures
        keeps_values(s, t),
        keeps_values(t, s),
{
    assert forall|j: int| 0 <= j < t.len() implies value_in(s, t[j].0) by {
        assert(s[j].0 == t[j].0);
    }
    assert forall|j: int| 0 <= j < s.len() implies value_in(t, s[j].0) by {
        assert(s[j].0 == t[j].0);
    }
    assert(keeps_values(s, t));
    assert(keeps_values(t, s));
}

/// A value that no entry has has an insertion position.
pub proof fn lemma_insert_pos_exists(s: Seq<BV>, ng: nat, x: InfRational)
    requires
        bounds_ok(s, ng),
        x.wf(),
        !has_value(s, x),
    ensures
        exists|p: int| is_insert_pos(s, x, p),
        is_insert_pos(s, x, insert_pos(s, x)),
    decreases s.len(),
{
    if s.len() == 0 {
        assert(is_insert_pos(s, x, 0));
    } else {
        let n = s.len() - 1;
        let d = s.drop_last();
        assert(bounds_ok(d, ng)) by {
            assert forall|i: int| 0 <= i < d.len() implies no_dups(#[trigger] d[i].1) by {
                assert(d[i] == s[i]);
            }
        }
        assert(!has_value(d, x)) by {
            if has_value(d, x) {
                let i = choose|i: int| 0 <= i < d.len() && d[i].0.same(x);
                assert(s[i] == d[i]);
            }
        }
        lemma_insert_pos_exists(d, ng, x);
        let q = choose|q: int| is_insert_pos(d, x, q);
        lemma_inf_order(s[n].0, x, x);
        if q == n {
            assert forall|j: int| 0 <= j < n implies s[j].0.less(x) by {
                assert(s[j] == d[j]);
            }
            if s[n].0.less(x) {
                assert(is_insert_pos(s, x, s.len() as int));
            } else {
                assert(!s[n].0.same(x));
                assert(is_insert_pos(s, x, n));
            }
        } else {
            assert(x.less(d[q].0));
            assert(s[q].0.less(s[n].0));
            lemma_inf_order(x, s[q].0, s[n].0);
            assert(is_insert_pos(s, x, q)) by {
                assert forall|j: int| 0 <= j < q implies s[j].0.less(x) by {
                    assert(s[j] == d[j]);
                }
                assert forall|j: int| q <= j < s.len() implies x.less(s[j].0) by {
                    if j < n {
                        assert(s[j] == d[j]);
                    }
                }
            }
        }
    }
}

/// Inserting an entry of value `x` adds exactly `x`.
proof fn lemma_insert_values(s: Seq<BV>, p: int, e: BV)
    requires
        0 <= p <= s.len(),
        e.0.wf(),
    ensures
        adds_value(s, s.insert(p, e), e.0),
{
    let t = s.insert(p, e);
    lemma_inf_order(e.0, e.0, e.0);
    assert(t[p].0 == e.0);
    assert forall|j: int| 0 <= j < t.len() implies (t[j].0 == e.0 || value_in(s, t[j].0)) by {
        if j < p {
            assert(s[j].0 == t[j].0);
        } else if j > p {
            assert(s[j - 1].0 == t[j].0);
        }
    }
    assert forall|a: int| 0 <= a < s.len() implies value_in(t, s[a].0) by {
        if a < p {
            assert(t[a].0 == s[a].0);
        } else {
            assert(t[a + 1].0 == s[a].0);
        }
    }
}

/// Removing an entry keeps only old values.
proof fn lemma_remove_values(s: Seq<BV>, i: int)
    requires
        0 <= i < s.len(),
    ensures
        keeps_values(s, s.remove(i)),
{
    let t = s.remove(i);
    assert forall|j: int| 0 <= j < t.len() implies value_in(s, t[j].0) by {
        if j < i {
            assert(s[j].0 == t[j].0);
        } else {
            assert(s[j + 1].0 == t[j].0);
        }
    }
    assert(keeps_values(s, t));
}

/// Adding a guard on value `x` adds exactly the value `x`.
pub proof fn lemma_with_guard_values(s: Seq<BV>, ng: nat, x: InfRational, g: GuardId)
    requires
        bounds_ok(s, ng),
        x.wf(),
    ensures
        adds_value(s, with_guard(s, x, g), x),
{
    let t = with_guard(s, x, g);
    if has_value(s, x) {
        let i = value_index(s, x);
        assert(t[i].0 == s[i].0);
        lemma_same_values(s, t);
        assert(has_value(t, x));
    } else {
        lemma_insert_pos_exists(s, ng, x);
        lemma_insert_values(s, insert_pos(s, x), (x, seq![g]));
    }
}

/// Adding value `x` adds exactly the value `x`.
pub proof fn lemma_with_value_values(s: Seq<BV>, ng: nat, x: InfRational)
    requires
        bounds_ok(s, ng),
        x.wf(),
    ensures
        adds_value(s, with_value(s, x), x),
{
    let t = with_value(s, x);
    if has_value(s, x) {
        let i = value_index(s, x);
        assert(t[i].0 == s[i].0);
        lemma_same_values(s, t);
        assert(has_value(t, x));
    } else {
        lemma_insert_pos_exists(s, ng, x);
        lemma_insert_values(s, insert_pos(s, x), (x, Seq::empty()));
    }
}

/// Taking a guard off an entry keeps only old values.
pub proof fn lemma_without_values(s: Seq<BV>, x: InfRational, g: GuardId)
    ensures
        keeps_values(s, without_guard(s, x, g)),
{
    if has_value(s, x) {
        let i = value_index(s, x);
        let gs = drop_one(s[i].1, g);
        lemma_remove_values(s, i);
        if gs.len() != 0 {
            lemma_same_values(s, s.update(i, (s[i].0, gs)));
        }
    } else {
        lemma_same_values(s, s);
    }
}

/// The values of `t` are those of `s`, and maybe `x`.
pub open spec fn within_values(s: Seq<BV>, t: Seq<BV>, x: InfRational) -> bool {
    forall|j: int| 0 <= j < t.len() ==> (t[j].0 == x || #[trigger] value_in(s, t[j].0))
}

/// Values taken from `s` and `x` alone stay at or below any `y` that is at
/// least both the largest value of `s` and `x`.
pub proof fn lemma_lower_within(s: Seq<BV>, t: Seq<BV>, ng: nat, x: InfRational, y: InfRational)
    requires
        bounds_ok(s, ng),
        bounds_ok(t, ng),
        x.wf(),
        y.wf(),
        within_values(s, t, x),
        lb_of(s).leq(y),
        x.leq(y),
        neg_inf().leq(y),
    ensures
        lb_of(t).leq(y),
{
    lemma_extremes(s, ng);
    lemma_extremes(t, ng);
    if t.len() > 0 {
        let last = t[t.len() - 1].0;
        if last != x {
            assert(value_in(s, last));
            let i = choose|i: int| 0 <= i < s.len() && s[i].0 == last;
            assert(s[i].0.leq(lb_of(s)));
            lemma_inf_order(last, lb_of(s), y);
        }
    }
}

/// Values taken from `s` and `x` alone stay at or above any `y` that is at
/// most both the smallest value of `s` and `x`.
pub proof fn lemma_upper_within(s: Seq<BV>, t: Seq<BV>, ng: nat, x: InfRational, y: InfRational)
    requires
        bounds_ok(s, ng),
        bounds_ok(t, ng),
        x.wf(),
        y.wf(),
        within_values(s, t, x),
        y.leq(ub_of(s)),
        y.leq(x),
        y.leq(pos_inf()),
    ensures
        y.leq(ub_of(t)),
{
    lemma_extremes(s, ng);
    lemma_extremes(t, ng);
    if t.len() > 0 {
        let first = t[0].0;
        if first != x {
            assert(value_in(s, first));
            let i = choose|i: int| 0 <= i < s.len() && s[i].0 == first;
            assert(ub_of(s).leq(s[i].0));
            lemma_inf_order(y, ub_of(s), first);
        }
    }
}

/// A value that `t` holds bounds its largest value from below and its
/// smallest from above.
pub proof fn lemma_held_value(t: Seq<BV>, ng: nat, x: InfRational)
    requires
        bounds_ok(t, ng),
        x.wf(),
        has_value(t, x),
    ensures
        x.leq(lb_of(t)),
        ub_of(t).leq(x),
{
    lemma_extremes(t, ng);
    let i = choose|i: int| 0 <= i < t.len() && t[i].0.same(x);
    lemma_inf_order(x, t[i].0, lb_of(t));
    lemma_inf_order(ub_of(t), t[i].0, x);
    lemma_inf_order(t[i].0, x, x);
}

/// Taking a guard off and adding one keeps the old values and the new one.
pub proof fn lemma_replace_within(s: Seq<BV>, ng: nat, c: InfRational, x: InfRational, g: GuardId)
    requires
        bounds_ok(s, ng),
        bounds_ok(without_guard(s, c, g), ng),
        x.wf(),
    ensures
        within_values(s, with_guard(without_guard(s, c, g), x, g), x),
        within_values(s, with_guard(s, x, g), x),
        within_values(s, with_value(s, x), x),
        has_value(with_guard(without_guard(s, c, g), x, g), x),
        has_value(with_guard(s, x, g), x),
        has_value(with_value(s, x), x),
{
    let m = without_guard(s, c, g);
    lemma_without_values(s, c, g);
    lemma_with_guard_values(m, ng, x, g);
    lemma_with_guard_values(s, ng, x, g);
    lemma_with_value_values(s, ng, x);
    let t = with_guard(m, x, g);
    assert forall|j: int| 0 <= j < t.len() implies (t[j].0 == x || #[trigger] value_in(s, t[j].0)) by {
        if t[j].0 != x {
            assert(value_in(m, t[j].0));
            let i = choose|i: int| 0 <= i < m.len() && m[i].0 == t[j].0;
            assert(value_in(s, m[i].0));
        }
    }
}

/// Adding a finite value keeps the bounds valid.
pub proof fn lemma_with_value_ok(s: Seq<BV>, ng: nat, x: InfRational)
    requires
        bounds_ok(s, ng),
        x.wf(),
        x.is_fin(),
    ensures
        bounds_ok(with_value(s, x), ng),
{
    if !has_value(s, x) {
        lemma_insert_pos_exists(s, ng, x);
        lemma_insert_ok(s, ng, x, Seq::empty(), insert_pos(s, x));
    }
}

/// Finds the entry of value `x`, or where one would be inserted.
pub fn find_value(s: &Vec<BoundEntry>, x: &InfRational, Ghost(ng): Ghost<nat>) -> (r: Result<usize, usize>)
    requires
        bounds_ok(bview(s@), ng),
        x.wf(),
    ensures
        r matches Ok(i) ==> i < s.len() && s@[i as int].val.same(*x) && has_value(bview(s@), *x)
            && value_index(bview(s@), *x) == i,
        r matches Err(p) ==> !has_value(bview(s@), *x) && is_insert_pos(bview(s@), *x, p as int)
            && insert_pos(bview(s@), *x) == p,
{
    let ghost b = bview(s@);
    let mut i: usize = 0;
    while i < s.len() && s[i].val.less_than(x)
        invariant
            b == bview(s@),
            bounds_ok(b, ng),
            x.wf(),
            i <= s.len(),
            forall|j: int| 0 <= j < i ==> b[j].0.less(*x),
        decreases s.len() - i,
    {
        i = i + 1;
    }
    if i < s.len() && s[i].val.same_value(x) {
        proof {
            lemma_value_index(b, ng, i as int, *x);
        }
        Ok(i)
    } else {
        proof {
            if i < s.len() {
                lemma_inf_order(b[i as int].0, *x, *x);
            }
            assert forall|j: int| i <= j < s.len() implies x.less(b[j].0) by {
                if j > i {
                    assert(b[i as int].0.less(b[j].0));
                    lemma_inf_order(*x, b[i as int].0, b[j].0);
                }
            }
            if has_value(b, *x) {
                let j = choose|j: int| 0 <= j < b.len() && b[j].0.same(*x);
                lemma_inf_order(b[j].0, *x, b[j].0);
                lemma_inf_order(*x, b[j].0, *x);
            }
            lemma_insert_pos(b, ng, *x, i as int);
        }
        Err(i)
    }
}

/// Whether `g` is one of `gs`.
fn has_guard(gs: &Vec<GuardId>, g: GuardId) -> (r: Option<usize>)
    ensures
        r is Some <==> gs@.contains(g),
        r matches Some(j) ==> j < gs.len() && gs@[j as int] == g,
{
    let mut j: usize = 0;
    while j < gs.len()
        invariant
            j <= gs.len(),
            forall|a: int| 0 <= a < j ==> gs@[a] != g,
        decreases gs.len() - j,
    {
        if gs[j] == g {
            return Some(j);
        }
        j = j + 1;
    }
    None
}

/// Adds an entry of value `x` with no guard, unless one exists.
pub fn insert_value(s: &mut Vec<BoundEntry>, x: InfRational, Ghost(ng): Ghost<nat>)
    requires
        bounds_ok(bview(old(s)@), ng),
        x.wf(),
        x.is_fin(),
    ensures
        bounds_ok(bview(final(s)@), ng),
        bview(final(s)@) == with_value(bview(old(s)@), x),
{
    let ghost b = bview(s@);
    match find_value(s, &x, Ghost(ng)) {
        Ok(i) => {
            let mut e = s.remove(i);
            e.guards = Vec::new();
            s.insert(i, e);
            proof {
                assert(bview(s@) =~= b.update(i as int, (b[i as int].0, Seq::<GuardId>::empty())));
                let t = bview(s@);
                assert forall|a: int| 0 <= a < t.len() implies no_dups(#[trigger] t[a].1) by {
                    if a != i {
                        assert(t[a] == b[a]);
                    }
                }
                assert forall|a: int, c: int| 0 <= a < t.len() && 0 <= c < t[a].1.len() implies t[a].1[c].0 < ng by {
                    assert(t[a] == b[a]);
                }
                assert forall|a: int, c: int| 0 <= a < c < t.len() implies t[a].0.less(t[c].0) by {
                    assert(t[a].0 == b[a].0);
                    assert(t[c].0 == b[c].0);
                }
                assert forall|a: int| 0 <= a < t.len() implies t[a].0.wf() && t[a].0.is_fin() by {
                    assert(t[a].0 == b[a].0);
                }
            }
        },
        Err(p) => {
            proof {
                lemma_insert_ok(bview(s@), ng, x, Seq::empty(), p as int);
            }
            let e = BoundEntry { val: x, guards: Vec::new() };
            s.insert(p, e);
            proof {
                assert(bview(s@) =~= bview(old(s)@).insert(p as int, (x, Seq::<GuardId>::empty())));
            }
        },
    }
}

/// Adds guard `g` to the entry of value `x`, creating the entry if missing.
pub fn insert_guard(s: &mut Vec<BoundEntry>, x: InfRational, g: GuardId, Ghost(ng): Ghost<nat>)
    requires
        bounds_ok(bview(old(s)@), ng),
        x.wf(),
        x.is_fin(),
        g.0 < ng,
    ensures
        bounds_ok(bview(final(s)@), ng),
        bview(final(s)@) == with_guard(bview(old(s)@), x, g),
{
    let ghost b = bview(s@);
    match find_value(s, &x, Ghost(ng)) {
        Ok(i) => {
            if s[i].guards.len() == 0 {
                return;
            }
            match has_guard(&s[i].guards, g) {
                Some(_) => {},
                None => {
                    let mut e = s.remove(i);
                    e.guards.push(g);
                    s.insert(i, e);
                    proof {
                        assert(bview(s@) =~= b.update(i as int, (b[i as int].0, b[i as int].1.push(g))));
                        let t = bview(s@);
                        assert forall|a: int| 0 <= a < t.len() implies no_dups(#[trigger] t[a].1) by {
                            if a == i {
                                assert forall|c: int, d: int| 0 <= c < d < t[a].1.len() implies t[a].1[c] != t[a].1[d] by {
                                    if d == t[a].1.len() - 1 {
                                        assert(b[i as int].1[c] != g);
                                    }
                                }
                            }
                        }
                    }
                },
            }
        },
        Err(p) => {
            proof {
                lemma_insert_ok(b, ng, x, seq![g], p as int);
            }
            let mut gs: Vec<GuardId> = Vec::new();
            gs.push(g);
            let e = BoundEntry { val: x, guards: gs };
            s.insert(p, e);
            proof {
                assert(bview(s@) =~= b.insert(p as int, (x, seq![g])));
            }
        },
    }
}

/// Takes guard `g` off the entry of value `x`, dropping the entry when no
/// guard is left on it.
pub fn remove_guard(s: &mut Vec<BoundEntry>, x: InfRational, g: GuardId, Ghost(ng): Ghost<nat>)
    requires
        bounds_ok(bview(old(s)@), ng),
        x.wf(),
    ensures
        bounds_ok(bview(final(s)@), ng),
        bview(final(s)@) == without_guard(bview(old(s)@), x, g),
{
    let ghost b = bview(s@);
    match find_value(s, &x, Ghost(ng)) {
        Ok(i) => {
            let mut e = s.remove(i);
            let ghost gs0 = e.guards@;
            match has_guard(&e.guards, g) {
                Some(j) => {
                    e.guards.remove(j);
                    proof {
                        let k = guard_index(gs0, g);
                        assert(gs0[k] == g);
                        assert(gs0 == b[i as int].1);
                        assert(no_dups(b[i as int].1));
                        if k != j {
                            if k < j {
                                assert(gs0[k] != gs0[j as int]);
                            } else {
                                assert(gs0[j as int] != gs0[k]);
                            }
                        }
                        assert(e.guards@ =~= drop_one(gs0, g));
                    }
                },
                None => {
                    s.insert(i, e);
                    proof {
                        assert(bview(s@) =~= b);
                    }
                    return;
                },
            }
            if e.guards.len() == 0 {
                proof {
                    assert(bview(s@) =~= b.remove(i as int));
                    let t = bview(s@);
                    assert forall|a: int| 0 <= a < t.len() implies no_dups(#[trigger] t[a].1) by {
                        if a >= i {
                            assert(t[a] == b[a + 1]);
                        }
                    }
                    assert forall|a: int, c: int| 0 <= a < t.len() && 0 <= c < t[a].1.len()
                        implies t[a].1[c].0 < ng by {
                        if a >= i {
                            assert(t[a] == b[a + 1]);
                        }
                    }
                    assert forall|a: int, c: int| 0 <= a < c < t.len() implies t[a].0.less(t[c].0) by {
                        if a >= i {
                            assert(t[a] == b[a + 1]);
                        }
                        if c >= i {
                            assert(t[c] == b[c + 1]);
                        }
                    }
                }
            } else {
                s.insert(i, e);
                proof {
                    assert(bview(s@) =~= b.update(i as int, (b[i as int].0, drop_one(gs0, g))));
                    let t = bview(s@);
                    assert forall|a: int| 0 <= a < t.len() implies no_dups(#[trigger] t[a].1) by {
                        if a == i && gs0.contains(g) {
                            let k = guard_index(gs0, g);
                            assert forall|c: int, d: int| 0 <= c < d < t[a].1.len() implies t[a].1[c] != t[a].1[d] by {
                                let c0 = if c < k { c } else { c + 1 };
                                let d0 = if d < k { d } else { d + 1 };
                                assert(t[a].1[c] == gs0[c0]);
                                assert(t[a].1[d] == gs0[d0]);
                            }
                        }
                    }
                    assert forall|a: int, c: int| 0 <= a < t.len() && 0 <= c < t[a].1.len()
                        implies t[a].1[c].0 < ng by {
                        if a == i && gs0.contains(g) {
                            let k = guard_index(gs0, g);
                            let c0 = if c < k { c } else { c + 1 };
                            assert(t[a].1[c] == gs0[c0]);
                        }
                    }
                }
            }
        },
        Err(_) => {},
    }
}

/// The bounds with guard `g` taken off every entry; an entry that held `g`
/// and no other guard goes away.
pub open spec fn strip_guard(s: Seq<BV>, g: GuardId) -> Seq<BV>
    decreases s.len(),
{
    if s.len() == 0 {
        s
    } else {
        let rest = strip_guard(s.drop_last(), g);
        let e = s.last();
        let gs = drop_one(e.1, g);
        if e.1.contains(g) && gs.len() == 0 {
            rest
        } else {
            rest.push((e.0, gs))
        }
    }
}

/// No entry of `s` holds guard `g`.
pub open spec fn guard_free(s: Seq<BV>, g: GuardId) -> bool {
    forall|i: int| 0 <= i < s.len() ==> !(#[trigger] s[i].1).contains(g)
}

/// Taking one guard off a list without repeats keeps it without repeats,
/// over the same known guards, and without that guard.
pub proof fn lemma_drop_one(gs: Seq<GuardId>, g: GuardId, ng: nat)
    requires
        no_dups(gs),
        forall|j: int| 0 <= j < gs.len() ==> gs[j].0 < ng,
    ensures
        no_dups(drop_one(gs, g)),
        forall|j: int| 0 <= j < drop_one(gs, g).len() ==> drop_one(gs, g)[j].0 < ng,
        !drop_one(gs, g).contains(g),
        gs.contains(g) ==> drop_one(gs, g).len() == gs.len() - 1,
{
    if gs.contains(g) {
        let k = guard_index(gs, g);
        let t = gs.remove(k);
        assert forall|c: int, d: int| 0 <= c < d < t.len() implies t[c] != t[d] by {
            let c0 = if c < k { c } else { c + 1 };
            let d0 = if d < k { d } else { d + 1 };
            assert(t[c] == gs[c0]);
            assert(t[d] == gs[d0]);
        }
        assert forall|j: int| 0 <= j < t.len() implies t[j].0 < ng by {
            let j0 = if j < k { j } else { j + 1 };
            assert(t[j] == gs[j0]);
        }
        if t.contains(g) {
            let j = choose|j: int| 0 <= j < t.len() && t[j] == g;
            let j0 = if j < k { j } else { j + 1 };
            assert(t[j] == gs[j0]);
            assert(gs[k] == g);
            if j0 < k {
                assert(gs[j0] != gs[k]);
            } else {
                assert(gs[k] != gs[j0]);
            }
        }
    }
}

/// Taking a guard off every entry keeps the bounds well formed, and keeps
/// only old values.
pub proof fn lemma_strip_ok(s: Seq<BV>, g: GuardId, ng: nat)
    requires
        bounds_ok(s, ng),
    ensures
        bounds_ok(strip_guard(s, g), ng),
        keeps_values(s, strip_guard(s, g)),
    decreases s.len(),
{
    if s.len() > 0 {
        let n = s.len() - 1;
        let d = s.drop_last();
        assert(bounds_ok(d, ng)) by {
            assert forall|i: int| 0 <= i < d.len() implies no_dups(#[trigger] d[i].1) by {
                assert(d[i] == s[i]);
            }
        }
        lemma_strip_ok(d, g, ng);
        let rest = strip_guard(d, g);
        let e = s.last();
        let gs = drop_one(e.1, g);
        assert(no_dups(s[n].1));
        lemma_drop_one(e.1, g, ng);
        let t = strip_guard(s, g);
        assert forall|j: int| 0 <= j < rest.len() implies value_in(s, rest[j].0) && rest[j].0.less(e.0) by {
            assert(value_in(d, rest[j].0));
            let i = choose|i: int| 0 <= i < d.len() && d[i].0 == rest[j].0;
            assert(s[i].0 == rest[j].0);
        }
        if e.1.contains(g) && gs.len() == 0 {
            assert(t == rest);
        } else {
            assert(t == rest.push((e.0, gs)));
            assert forall|i: int| 0 <= i < t.len() implies no_dups(#[trigger] t[i].1) by {
                if i < rest.len() {
                    assert(t[i] == rest[i]);
                }
            }
            assert forall|j: int| 0 <= j < t.len() implies #[trigger] value_in(s, t[j].0) by {
                if j < rest.len() {
                    assert(t[j] == rest[j]);
                } else {
                    assert(s[n].0 == t[j].0);
                }
            }
            assert forall|i: int, j: int| 0 <= i < j < t.len() implies t[i].0.less(t[j].0) by {
                if j == rest.len() {
                    assert(t[i] == rest[i]);
                } else {
                    assert(t[i] == rest[i]);
                    assert(t[j] == rest[j]);
                }
            }
            assert forall|i: int, c: int| 0 <= i < t.len() && 0 <= c < t[i].1.len() implies t[i].1[c].0 < ng by {
                if i < rest.len() {
                    assert(t[i] == rest[i]);
                }
            }
            assert forall|i: int| 0 <= i < t.len() implies t[i].0.wf() && t[i].0.is_fin() by {
                if i < rest.len() {
                    assert(t[i] == rest[i]);
                }
            }
        }
    }
}

/// Once a guard is taken off every entry, no entry holds it.
pub proof fn lemma_strip_frees(s: Seq<BV>, g: GuardId, ng: nat)
    requires
        bounds_ok(s, ng),
    ensures
        guard_free(strip_guard(s, g), g),
    decreases s.len(),
{
    if s.len() > 0 {
        let d = s.drop_last();
        assert(bounds_ok(d, ng)) by {
            assert forall|i: int| 0 <= i < d.len() implies no_dups(#[trigger] d[i].1) by {
                assert(d[i] == s[i]);
            }
        }
        lemma_strip_frees(d, g, ng);
        let rest = strip_guard(d, g);
        let e = s.last();
        assert(no_dups(s[s.len() - 1].1));
        lemma_drop_one(e.1, g, ng);
        let t = strip_guard(s, g);
        assert forall|i: int| 0 <= i < t.len() implies !(#[trigger] t[i].1).contains(g) by {
            if i < rest.len() {
                assert(t[i] == rest[i]);
            }
        }
    }
}

/// Taking a guard off every entry of a concatenation takes it off each part.
pub proof fn lemma_strip_concat(a: Seq<BV>, b: Seq<BV>, g: GuardId)
    ensures
        strip_guard(a + b, g) == strip_guard(a, g) + strip_guard(b, g),
    decreases b.len(),
{
    if b.len() == 0 {
        assert(a + b =~= a);
        assert(strip_guard(a, g) + strip_guard(b, g) =~= strip_guard(a, g));
    } else {
        assert((a + b).drop_last() =~= a + b.drop_last());
        assert((a + b).last() == b.last());
        lemma_strip_concat(a, b.drop_last(), g);
        let e = b.last();
        let gs = drop_one(e.1, g);
        if e.1.contains(g) && gs.len() == 0 {
        } else {
            assert(strip_guard(a, g) + strip_guard(b.drop_last(), g).push((e.0, gs)) =~= (strip_guard(a, g)
                + strip_guard(b.drop_last(), g)).push((e.0, gs)));
        }
    }
}

/// Taking a guard that no entry holds off every entry changes nothing.
pub proof fn lemma_strip_free(s: Seq<BV>, g: GuardId)
    requires
        guard_free(s, g),
    ensures
        strip_guard(s, g) == s,
    decreases s.len(),
{
    if s.len() > 0 {
        let d = s.drop_last();
        assert(guard_free(d, g)) by {
            assert forall|i: int| 0 <= i < d.len() implies !(#[trigger] d[i].1).contains(g) by {
                assert(d[i] == s[i]);
            }
        }
        lemma_strip_free(d, g);
        assert(!s[s.len() - 1].1.contains(g));
        assert(s =~= d.push(s.last()));
    }
}

/// Adding a guard and then taking it off every entry is the same as taking
/// it off every entry.
pub proof fn lemma_strip_with_guard(s: Seq<BV>, ng: nat, x: InfRational, g: GuardId)
    requires
        bounds_ok(s, ng),
        x.wf(),
    ensures
        strip_guard(with_guard(s, x, g), g) == strip_guard(s, g),
{
    if has_value(s, x) {
        let i = value_index(s, x);
        let gs = s[i].1;
        if !(gs.contains(g) || gs.len() == 0) {
            let e = (s[i].0, gs.push(g));
            assert(with_guard(s, x, g) == s.update(i, e));
            assert(s.update(i, e) =~= s.take(i) + seq![e] + s.skip(i + 1));
            assert(s =~= s.take(i) + seq![s[i]] + s.skip(i + 1));
            lemma_strip_concat(s.take(i) + seq![e], s.skip(i + 1), g);
            lemma_strip_concat(s.take(i), seq![e], g);
            lemma_strip_concat(s.take(i) + seq![s[i]], s.skip(i + 1), g);
            lemma_strip_concat(s.take(i), seq![s[i]], g);
            let k = guard_index(gs.push(g), g);
            assert(gs.push(g)[gs.len() as int] == g);
            assert(k == gs.len()) by {
                if k < gs.len() {
                    assert(gs.push(g)[k] == gs[k]);
                    assert(gs.contains(g));
                }
            }
            assert(drop_one(gs.push(g), g) =~= gs);
            assert(drop_one(gs, g) == gs);
            assert(seq![e].drop_last() =~= Seq::<BV>::empty());
            assert(seq![e].last() == e);
            assert(e.1.contains(g));
            assert(strip_guard(Seq::<BV>::empty(), g) =~= Seq::<BV>::empty());
            assert(strip_guard(seq![e], g) =~= seq![(s[i].0, gs)]);
            assert(seq![s[i]].drop_last() =~= Seq::<BV>::empty());
            assert(seq![s[i]].last() == s[i]);
            assert(strip_guard(seq![s[i]], g) =~= seq![(s[i].0, gs)]);
        }
    } else {
        lemma_insert_pos_exists(s, ng, x);
        let p = insert_pos(s, x);
        let e = (x, seq![g]);
        assert(with_guard(s, x, g) == s.insert(p, e));
        assert(s.insert(p, e) =~= s.take(p) + seq![e] + s.skip(p));
        assert(s =~= s.take(p) + s.skip(p));
        lemma_strip_concat(s.take(p) + seq![e], s.skip(p), g);
        lemma_strip_concat(s.take(p), seq![e], g);
        lemma_strip_concat(s.take(p), s.skip(p), g);
        assert(seq![g][0] == g);
        assert(seq![g].contains(g));
        let k = guard_index(seq![g], g);
        assert(k == 0);
        assert(drop_one(seq![g], g) =~= Seq::<GuardId>::empty());
        assert(seq![e].drop_last() =~= Seq::<BV>::empty());
        assert(strip_guard(Seq::<BV>::empty(), g) =~= Seq::<BV>::empty());
        assert(strip_guard(seq![e], g) =~= Seq::<BV>::empty());
    }
}

/// Takes guard `g` off every entry, dropping the entries left with no guard
/// that held it.
pub fn strip_guard_list(s: &mut Vec<BoundEntry>, g: GuardId, Ghost(ng): Ghost<nat>)
    requires
        bounds_ok(bview(old(s)@), ng),
    ensures
        bounds_ok(bview(final(s)@), ng),
        bview(final(s)@) == strip_guard(bview(old(s)@), g),
{
    let ghost b = bview(s@);
    let mut rest: Vec<BoundEntry> = Vec::new();
    std::mem::swap(&mut rest, s);
    let n = rest.len();
    let mut i: usize = 0;
    proof {
        assert(bview(rest@) =~= b.skip(0));
        assert(b.take(0) =~= Seq::<BV>::empty());
        assert(bview(s@) =~= strip_guard(b.take(0), g));
    }
    while i < n
        invariant
            n == b.len(),
            i <= n,
            bounds_ok(b, ng),
            bview(rest@) == b.skip(i as int),
            bview(s@) == strip_guard(b.take(i as int), g),
        decreases n - i,
    {
        let ghost before = rest@;
        proof {
            assert(bview(rest@).len() == rest@.len());
        }
        let mut e = rest.remove(0);
        proof {
            assert(rest@ =~= before.subrange(1, before.len() as int));
            assert forall|j: int| 0 <= j < rest@.len() implies bview(rest@)[j] == b.skip(i + 1)[j] by {
                assert(bview(before)[j + 1] == b.skip(i as int)[j + 1]);
            }
            assert(bview(rest@) =~= b.skip(i + 1));
            assert(e.val == b[i as int].0 && e.guards@ == b[i as int].1) by {
                assert(bview(before)[0] == b.skip(i as int)[0]);
                assert(e == before[0]);
            }
        }
        let ghost gs0 = e.guards@;
        let had = match has_guard(&e.guards, g) {
            Some(j) => {
                e.guards.remove(j);
                proof {
                    let k = guard_index(gs0, g);
                    assert(gs0[k] == g);
                    assert(no_dups(b[i as int].1));
                    if k != j {
                        if k < j {
                            assert(gs0[k] != gs0[j as int]);
                        } else {
                            assert(gs0[j as int] != gs0[k]);
                        }
                    }
                    assert(e.guards@ =~= drop_one(gs0, g));
                }
                true
            },
            None => false,
        };
        proof {
            assert(had == gs0.contains(g));
            assert(e.guards@ == drop_one(gs0, g));
            assert(b.take(i + 1).drop_last() =~= b.take(i as int));
            assert(b.take(i + 1).last() == b[i as int]);
        }
        if !(had && e.guards.len() == 0) {
            let ghost t = bview(s@);
            s.push(e);
            proof {
                assert(bview(s@) =~= t.push((e.val, e.guards@)));
            }
        }
        i = i + 1;
    }
    proof {
        assert(b.take(n as int) =~= b);
        lemma_strip_ok(b, g, ng);
    }
}

/// Well-formed finite values on variables below `n`.
pub open spec fn pending_ok(s: Seq<(VarId, InfRational)>, n: nat) -> bool {
    &&& sorted_terms(s)
    &&& forall|i: int| 0 <= i < s.len() ==> s[i].1.wf() && s[i].1.is_fin() && s[i].0.0 < n
}

/// The bounds that one guard sets on variables, by variable.
pub struct GuardBounds {
    pub lbs: Vec<(VarId, InfRational)>,
    pub ubs: Vec<(VarId, InfRational)>,
}

/// The tighter of a recorded lower bound and a new one `lb`.
pub open spec fn max_lb(m: Map<usize, InfRational>, k: usize, lb: InfRational) -> InfRational {
    if m.contains_key(k) && !m[k].less(lb) {
        m[k]
    } else {
        lb
    }
}

/// The tighter of a recorded upper bound and a new one `ub`.
pub open spec fn min_ub(m: Map<usize, InfRational>, k: usize, ub: InfRational) -> InfRational {
    if m.contains_key(k) && !ub.less(m[k]) {
        m[k]
    } else {
        ub
    }
}

impl GuardBounds {
    pub open spec fn wf(self, n: nat) -> bool {
        pending_ok(self.lbs@, n) && pending_ok(self.ubs@, n)
    }

    pub open spec fn lb_map(self) -> Map<usize, InfRational> {
        term_map(self.lbs@)
    }

    pub open spec fn ub_map(self) -> Map<usize, InfRational> {
        term_map(self.ubs@)
    }

    pub fn new() -> (r: GuardBounds)
        ensures
            r.wf(0),
            r.lb_map() == Map::<usize, InfRational>::empty(),
            r.ub_map() == Map::<usize, InfRational>::empty(),
    {
        let r = GuardBounds { lbs: Vec::new(), ubs: Vec::new() };
        proof {
            lemma_empty_terms(r.lbs@);
            lemma_empty_terms(r.ubs@);
        }
        r
    }

    /// Records the lower bound `lb` on `var`, keeping the larger of it and
    /// the one already recorded.
    pub fn set_lb(&mut self, var: VarId, lb: InfRational, Ghost(n): Ghost<nat>)
        requires
            old(self).wf(n),
            lb.wf(),
            lb.is_fin(),
            var.0 < n,
        ensures
            final(self).wf(n),
            final(self).lb_map() == old(self).lb_map().insert(var.0, max_lb(old(self).lb_map(), var.0, lb)),
            final(self).ub_map() == old(self).ub_map(),
    {
        match find_key(&self.lbs, var.0) {
            Ok(i) => {
                if self.lbs[i].1.less_than(&lb) {
                    set_key(&mut self.lbs, var.0, lb);
                } else {
                    proof {
                        assert(old(self).lb_map().insert(var.0, old(self).lb_map()[var.0]) =~= old(self).lb_map());
                    }
                }
            },
            Err(_) => {
                set_key(&mut self.lbs, var.0, lb);
            },
        }
        proof {
            assert forall|i: int| 0 <= i < self.lbs@.len() implies self.lbs@[i].1.wf() && self.lbs@[i].1.is_fin() && self.lbs@[i].0.0 < n by {
                lemma_term_index(self.lbs@, i);
                if self.lbs@[i].0.0 != var.0 {
                    let j = choose|j: int| 0 <= j < old(self).lbs@.len() && old(self).lbs@[j].0.0 == self.lbs@[i].0.0;
                    lemma_term_index(old(self).lbs@, j);
                }
            }
        }
    }

    /// Records the upper bound `ub` on `var`, keeping the smaller of it and
    /// the one already recorded.
    pub fn set_ub(&mut self, var: VarId, ub: InfRational, Ghost(n): Ghost<nat>)
        requires
            old(self).wf(n),
            ub.wf(),
            ub.is_fin(),
            var.0 < n,
        ensures
            final(self).wf(n),
            final(self).ub_map() == old(self).ub_map().insert(var.0, min_ub(old(self).ub_map(), var.0, ub)),
            final(self).lb_map() == old(self).lb_map(),
    {
        match find_key(&self.ubs, var.0) {
            Ok(i) => {
                if ub.less_than(&self.ubs[i].1) {
                    set_key(&mut self.ubs, var.0, ub);
                } else {
                    proof {
                        assert(old(self).ub_map().insert(var.0, old(self).ub_map()[var.0]) =~= old(self).ub_map());
                    }
                }
            },
            Err(_) => {
                set_key(&mut self.ubs, var.0, ub);
            },
        }
        proof {
            assert forall|i: int| 0 <= i < self.ubs@.len() implies self.ubs@[i].1.wf() && self.ubs@[i].1.is_fin() && self.ubs@[i].0.0 < n by {
                lemma_term_index(self.ubs@, i);
                if self.ubs@[i].0.0 != var.0 {
                    let j = choose|j: int| 0 <= j < old(self).ubs@.len() && old(self).ubs@[j].0.0 == self.ubs@[i].0.0;
                    lemma_term_index(old(self).ubs@, j);
                }
            }
        }
    }
}

} // verus!
