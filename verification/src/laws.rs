//! Laws that relate the operations of the engine.
use vstd::prelude::*;
use crate::bounds::{
    bounds_ok, guard_free, has_value, lemma_strip_free, lemma_strip_with_guard, lemma_with_extremes,
    lemma_with_value_values, value_index, with_guard, with_value,
};
use crate::engine::Engine;
use crate::inf_rational::{InfRational, lemma_inf_order};
use crate::rows::{holds, lemma_pivot_rows, lemma_row_monotone, lemma_unpivot_rows, pivoted, rows_hold, rows_over, solvable, vals_fin};
use crate::lin::Lin;
use crate::terms::lemma_term_index;
use crate::var::{GuardId, VarId};

verus! {

/// Asserting a guard that holds no bound and then retracting it gives back
/// the bounds of every variable, other guards' and unguarded bounds on the
/// same values included.
pub proof fn law_assert_then_retract(e0: Engine, e1: Engine, e2: Engine, g: GuardId)
    requires
        e0.inv(),
        e1.inv(),
        g.0 < e0.num_guards(),
        e0.asserted(&e1, g),
        e1.retracted(&e2, g),
        forall|v: int| 0 <= v < e0.num_vars() ==> guard_free(#[trigger] e0.lower_entries(v), g) && guard_free(
            e0.upper_entries(v),
            g,
        ),
    ensures
        forall|v: int| 0 <= v < e0.num_vars() ==> #[trigger] e2.lower_entries(v) == e0.lower_entries(v)
            && e2.upper_entries(v) == e0.upper_entries(v),
{
    assert forall|v: int| 0 <= v < e0.num_vars() implies #[trigger] e2.lower_entries(v) == e0.lower_entries(v)
        && e2.upper_entries(v) == e0.upper_entries(v) by {
        let gi = g.0 as int;
        let ng = e0.num_guards();
        assert(e1.lower_entries(v) == if e0.pending_lbs(gi).contains_key(v as usize) {
            with_guard(e0.lower_entries(v), e0.pending_lbs(gi)[v as usize], g)
        } else {
            e0.lower_entries(v)
        });
        assert(e1.upper_entries(v) == if e0.pending_ubs(gi).contains_key(v as usize) {
            with_guard(e0.upper_entries(v), e0.pending_ubs(gi)[v as usize], g)
        } else {
            e0.upper_entries(v)
        });
        e0.lemma_entry_facts(v);
        e0.lemma_pending_facts(gi, v as usize);
        assert(e2.lower_entries(v) == e1.lower_retracted(g, v));
        assert(e2.upper_entries(v) == e1.upper_retracted(g, v));
        assert(guard_free(e0.lower_entries(v), g) && guard_free(e0.upper_entries(v), g));
        lemma_strip_free(e0.lower_entries(v), g);
        lemma_strip_free(e0.upper_entries(v), g);
        if e0.pending_lbs(gi).contains_key(v as usize) {
            lemma_strip_with_guard(e0.lower_entries(v), ng, e0.pending_lbs(gi)[v as usize], g);
        }
        if e0.pending_ubs(gi).contains_key(v as usize) {
            lemma_strip_with_guard(e0.upper_entries(v), ng, e0.pending_ubs(gi)[v as usize], g);
        }
    }
}

/// Setting a lower bound without a guard makes the lower bound of the
/// variable the larger of the old one and the new one: the tightest bound
/// in force.
pub proof fn law_lower_bound_is_tightest(o: Engine, f: Engine, var: VarId, lb: InfRational)
    requires
        o.inv(),
        var.0 < o.num_vars(),
        lb.wf(),
        lb.is_fin(),
        o.lb_effect(&f, var, lb, None, Ok(())),
    ensures
        f.lower(var.0 as int).same(if o.lower(var.0 as int).less(lb) { lb } else { o.lower(var.0 as int) }),
{
    let x = var.0 as int;
    let s = o.lower_entries(x);
    o.lemma_entry_facts(x);
    assert(f.lower_entries(x) == with_value(s, lb));
    crate::bounds::lemma_replace_within(s, o.num_guards(), lb, lb, GuardId(0));
    lemma_with_value_values(s, o.num_guards(), lb);
    crate::bounds::lemma_with_value_ok(s, o.num_guards(), lb);
    lemma_with_extremes(s, with_value(s, lb), o.num_guards(), lb);
}

/// Setting an upper bound without a guard makes the upper bound of the
/// variable the smaller of the old one and the new one.
pub proof fn law_upper_bound_is_tightest(o: Engine, f: Engine, var: VarId, ub: InfRational)
    requires
        o.inv(),
        var.0 < o.num_vars(),
        ub.wf(),
        ub.is_fin(),
        o.ub_effect(&f, var, ub, None, Ok(())),
    ensures
        f.upper(var.0 as int).same(if ub.less(o.upper(var.0 as int)) { ub } else { o.upper(var.0 as int) }),
{
    let x = var.0 as int;
    let s = o.upper_entries(x);
    o.lemma_entry_facts(x);
    assert(f.upper_entries(x) == with_value(s, ub));
    lemma_with_value_values(s, o.num_guards(), ub);
    crate::bounds::lemma_with_value_ok(s, o.num_guards(), ub);
    lemma_with_extremes(s, with_value(s, ub), o.num_guards(), ub);
}

/// The values of a valid engine satisfy its tableau: the value of every
/// basic variable is exactly the value of its row, `Σ c·x + k`, under the
/// values of the other variables (with rationals of unbounded size, in
/// both the rational part and the factor of the infinitesimal). In
/// particular, after a successful `check`, whose result also places every
/// variable within its bounds, the values are a solution of all the rows.
pub proof fn law_values_satisfy_rows(e: Engine)
    requires
        e.inv(),
    ensures
        forall|b: int| 0 <= b < e.num_vars() && #[trigger] e.basic(b) ==> holds(e.row(b), e.values(), e.value(b)),
{
    e.lemma_rows_hold();
}

/// Checking keeps the system of rows: when the rows of `f` have the same
/// solutions as those of `o`, as [`Engine::check`] ensures, the values of
/// `f` satisfy the rows of `o`. After `check`, each variable defined by an
/// expression (a slack variable, or one added by `add_lin_var`) still has
/// the exact value of its expression as it stood before, and after a
/// successful `check` every variable also lies within its bounds: the
/// values satisfy the accepted constraints.
pub proof fn law_check_keeps_the_rows(o: Engine, f: Engine)
    requires
        o.inv(),
        f.inv(),
        f.num_vars() == o.num_vars(),
        forall|vals: Seq<InfRational>| vals.len() == o.num_vars() && vals_fin(vals) ==> (#[trigger] f.rows_satisfied(vals)
            <==> o.rows_satisfied(vals)),
    ensures
        o.rows_satisfied(f.values()),
{
    f.lemma_rows_hold();
    assert(f.rows_satisfied(f.values()));
}

/// A conflict that `check` reports is sound for the rows as they stood
/// before the check: no values that satisfy those rows keep the variables
/// of the stuck row within the bounds that hold them and bring its basic
/// variable back to its bound.
pub proof fn law_conflict_is_infeasible_before_check(o: Engine, f: Engine, b: int, low: bool, vals: Seq<InfRational>)
    requires
        o.inv(),
        f.inv(),
        f.num_vars() == o.num_vars(),
        forall|vals: Seq<InfRational>| vals.len() == o.num_vars() && vals_fin(vals) ==> (#[trigger] f.rows_satisfied(vals)
            <==> o.rows_satisfied(vals)),
        f.stuck(b, low),
        vals.len() == o.num_vars(),
        vals_fin(vals),
        o.rows_satisfied(vals),
        forall|i: int| 0 <= i < f.row(b).vars@.len() ==> {
            let t = #[trigger] f.row(b).vars@[i];
            t.1.num != 0 ==> if (t.1.num > 0) == low {
                vals[t.0.0 as int].leq(f.upper(t.0.0 as int))
            } else {
                f.lower(t.0.0 as int).leq(vals[t.0.0 as int])
            }
        },
    ensures
        if low {
            vals[b].less(f.lower(b))
        } else {
            f.upper(b).less(vals[b])
        },
{
    assert(f.rows_satisfied(vals));
    assert(holds(f.row(b), vals, vals[b]));
    law_conflict_is_infeasible(f, b, low, vals);
}

/// A conflict that `check` reports is sound. Its explanation names the
/// guards of the bounds that hold the variables of a stuck row, and of the
/// bound that the row's basic variable violates: no values satisfy that
/// row while keeping each of its variables within the bound that holds it
/// and bringing the basic variable back to its bound.
pub proof fn law_conflict_is_infeasible(e: Engine, b: int, low: bool, vals: Seq<InfRational>)
    requires
        e.inv(),
        e.stuck(b, low),
        vals.len() == e.num_vars(),
        vals_fin(vals),
        holds(e.row(b), vals, vals[b]),
        forall|i: int| 0 <= i < e.row(b).vars@.len() ==> {
            let t = #[trigger] e.row(b).vars@[i];
            t.1.num != 0 ==> if (t.1.num > 0) == low {
                vals[t.0.0 as int].leq(e.upper(t.0.0 as int))
            } else {
                e.lower(t.0.0 as int).leq(vals[t.0.0 as int])
            }
        },
    ensures
        if low {
            vals[b].less(e.lower(b))
        } else {
            e.upper(b).less(vals[b])
        },
{
    e.lemma_rows_hold();
    e.lemma_row_vars(b);
    let row = e.row(b);
    let at = e.values();
    assert(holds(row, at, at[b]));
    assert(vals[b].wf() && vals[b].is_fin());
    assert(at[b].wf() && at[b].is_fin());
    assert forall|k: usize| #[trigger] row.coeffs().contains_key(k) implies {
        &&& k < vals.len()
        &&& (row.coeffs()[k].num > 0) == low && row.coeffs()[k].num != 0 ==> vals[k as int].leq(at[k as int])
        &&& (row.coeffs()[k].num > 0) != low && row.coeffs()[k].num != 0 ==> at[k as int].leq(vals[k as int])
    } by {
        let i = choose|i: int| 0 <= i < row.vars@.len() && row.vars@[i].0.0 == k;
        lemma_term_index(row.vars@, i);
        let t = row.vars@[i];
        let ki = k as int;
        assert(!e.can_enter(t, low));
        assert(at[ki] == e.value(ki));
        assert(vals[ki].wf() && vals[ki].is_fin());
        lemma_inf_order(vals[ki], e.value(ki), e.upper(ki));
        lemma_inf_order(e.value(ki), e.upper(ki), vals[ki]);
        lemma_inf_order(e.lower(ki), e.value(ki), vals[ki]);
        lemma_inf_order(e.value(ki), e.lower(ki), vals[ki]);
        lemma_inf_order(vals[ki], e.upper(ki), e.value(ki));
        lemma_inf_order(e.upper(ki), e.value(ki), vals[ki]);
    }
    if low {
        lemma_row_monotone(row, vals, at, vals[b], at[b]);
        lemma_inf_order(vals[b], at[b], e.lower(b));
    } else {
        lemma_row_monotone(row, at, vals, at[b], vals[b]);
        lemma_inf_order(e.upper(b), at[b], vals[b]);
    }
}

/// A pivot keeps exactly the solutions of the rows: trading basic `l` for
/// non-basic `e`, the same values satisfy the rows before and after.
pub proof fn law_pivot_keeps_solutions(vals: Seq<InfRational>, tab: Seq<Option<Lin>>, tab2: Seq<Option<Lin>>, e: int, l: int)
    requires
        vals.len() == tab.len(),
        vals.len() <= usize::MAX,
        vals_fin(vals),
        rows_over(tab),
        0 <= e < vals.len(),
        0 <= l < vals.len(),
        e != l,
        tab[e] is None,
        tab[l] is Some,
        solvable(tab[l].unwrap().coeffs(), e as usize),
        pivoted(tab, tab2, e, l),
    ensures
        rows_hold(vals, tab) <==> rows_hold(vals, tab2),
{
    if rows_hold(vals, tab) {
        lemma_pivot_rows(vals, tab, tab2, e, l);
    }
    if rows_hold(vals, tab2) {
        lemma_unpivot_rows(vals, tab, tab2, e, l);
    }
}

/// Operations that keep the tableau keep the solutions of the rows: setting
/// bounds, asserting and retracting guards leave every variable defined by
/// an expression (a slack variable, or one added by `add_lin_var`) defined
/// by the same row.
pub proof fn law_same_tableau_same_rows(o: Engine, f: Engine, vals: Seq<InfRational>)
    requires
        f.same_tableau(&o),
    ensures
        f.rows_satisfied(vals) <==> o.rows_satisfied(vals),
{
    if f.rows_satisfied(vals) {
        assert forall|b: int| 0 <= b < o.num_vars() && #[trigger] o.basic(b) implies holds(o.row(b), vals, vals[b]) by {
            assert(f.basic(b) == o.basic(b));
        }
    }
    if o.rows_satisfied(vals) {
        assert forall|b: int| 0 <= b < f.num_vars() && #[trigger] f.basic(b) implies holds(f.row(b), vals, vals[b]) by {
            assert(f.basic(b) == o.basic(b));
        }
    }
}

} // verus!
