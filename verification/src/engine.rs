//! The solver: variable assignments, guarded bounds, and the simplex tableau.
use vstd::prelude::*;
use crate::bounds::{
    BV, BoundEntry, GuardBounds, bounds_ok, bview, lb_of, ub_of, has_value, max_lb, min_ub, pending_ok,
    with_guard, with_value, within_values, without_guard, lemma_extremes,
    lemma_finite_between, lemma_held_value, lemma_lower_within, lemma_replace_within,
    lemma_subset_extremes, lemma_upper_within, insert_guard, insert_value,
    remove_guard, strip_guard, strip_guard_list, lemma_strip_with_guard, lemma_strip_ok, lemma_strip_frees, guard_free,
};
use crate::inf_rational::{InfRational, inf, lemma_inf_order, lift, neg_inf, pos_inf};
use crate::lin::{Lin, over, sub_maps, sub_maps_ok, subst_map, subst_ok};
use crate::rational::{Rational, zero_spec};
use crate::terms::{Term, has_key, sorted_terms, lemma_terms_unique, key_index, lemma_empty_terms, lemma_empty_terms_take, lemma_take_term, lemma_term_index, term_map};
use crate::var::{GuardId, VarId};
use crate::rows::{
    holds, lemma_fold_part, lemma_holds_frame, lemma_move_exact, lemma_move_rows, lemma_pivot_rows, lemma_rows_frame,
    lemma_unpivot_rows,
    lemma_shift_exact, lemma_theta_exact, pivoted, rows_hold, rows_over, shifted_by, solvable, solved, vals_fin,
};

verus! {

/// An error returned when constraint propagation detects an inconsistency.
#[derive(Debug, Clone, PartialEq)]
pub enum PropagationError {
    /// The solver found a contradiction; the list names the guards whose
    /// bounds jointly caused the conflict.
    Conflict(Vec<GuardId>),
    /// A value, or the number of pivots, exceeded what 64-bit machine
    /// integers hold; the operation was not carried out.
    Overflow,
}

/// A change of the value or bounds of a listened variable.
#[derive(Debug, Clone, Copy)]
pub struct Notification {
    pub var: VarId,
    pub val: InfRational,
    pub lb: InfRational,
    pub ub: InfRational,
}

/// An incremental linear feasibility solver over rationals.
pub struct Engine {
    /// the current value of each variable
    assignments: Vec<InfRational>,
    /// the lower bounds of each variable, each with the guards that set it
    lbs: Vec<Vec<BoundEntry>>,
    /// the upper bounds of each variable, each with the guards that set it
    ubs: Vec<Vec<BoundEntry>>,
    /// for each guard, the bounds it sets on variables
    guard_bounds: Vec<GuardBounds>,
    /// for each basic variable, the row expressing it over non-basic ones
    tableau: Vec<Option<Lin>>,
    /// for each variable, the basic variables whose rows contain it
    t_watches: Vec<Vec<VarId>>,
    /// whether changes of each variable are reported
    listened: Vec<bool>,
    /// the reported changes not yet taken
    notifications: Vec<Notification>,
}

impl Engine {
    pub closed spec fn num_vars(&self) -> nat {
        self.assignments@.len()
    }

    pub closed spec fn num_guards(&self) -> nat {
        self.guard_bounds@.len()
    }

    /// The current value of variable `v`.
    pub closed spec fn value(&self, v: int) -> InfRational {
        self.assignments@[v]
    }

    /// The current values of all variables.
    pub closed spec fn values(&self) -> Seq<InfRational> {
        self.assignments@
    }

    /// The lower bounds of `v`, in increasing order, each with its guards.
    pub closed spec fn lower_entries(&self, v: int) -> Seq<BV> {
        bview(self.lbs@[v]@)
    }

    /// The upper bounds of `v`, in increasing order, each with its guards.
    pub closed spec fn upper_entries(&self, v: int) -> Seq<BV> {
        bview(self.ubs@[v]@)
    }

    /// The tightest lower bound of `v`: the largest, or `-∞`.
    pub open spec fn lower(&self, v: int) -> InfRational {
        lb_of(self.lower_entries(v))
    }

    /// The tightest upper bound of `v`: the smallest, or `+∞`.
    pub open spec fn upper(&self, v: int) -> InfRational {
        ub_of(self.upper_entries(v))
    }

    /// `v` is basic: the tableau has a row for it.
    pub closed spec fn basic(&self, v: int) -> bool {
        self.tableau@[v] is Some
    }

    /// The tableau row of a basic variable.
    pub closed spec fn row(&self, v: int) -> Lin {
        self.tableau@[v].unwrap()
    }

    /// The lower bounds that guard `g` records, by variable.
    pub closed spec fn pending_lbs(&self, g: int) -> Map<usize, InfRational> {
        self.guard_bounds@[g].lb_map()
    }

    /// The upper bounds that guard `g` records, by variable.
    pub closed spec fn pending_ubs(&self, g: int) -> Map<usize, InfRational> {
        self.guard_bounds@[g].ub_map()
    }

    /// The basic variables whose rows contain `v`.
    pub closed spec fn watchers(&self, v: int) -> Seq<VarId> {
        self.t_watches@[v]@
    }

    pub closed spec fn is_listened(&self, v: int) -> bool {
        self.listened@[v]
    }

    /// The changes reported and not yet taken.
    pub closed spec fn events(&self) -> Seq<Notification> {
        self.notifications@
    }

    /// The row of a basic variable is well formed and over non-basic variables.
    pub closed spec fn row_ok(&self, b: int) -> bool {
        let row = self.row(b);
        &&& row.wf()
        &&& forall|k: usize| #[trigger] row.coeffs().contains_key(k) ==> k < self.num_vars() && !self.basic(k as int)
    }

    pub closed spec fn sizes_ok(&self) -> bool {
        let n = self.num_vars();
        &&& n <= usize::MAX
        &&& self.lbs@.len() == n
        &&& self.ubs@.len() == n
        &&& self.tableau@.len() == n
        &&& self.t_watches@.len() == n
        &&& self.listened@.len() == n
    }

    pub closed spec fn values_ok(&self) -> bool {
        forall|v: int| 0 <= v < self.num_vars() ==> (#[trigger] self.value(v)).wf() && self.value(v).is_fin()
    }

    pub closed spec fn entries_ok(&self) -> bool {
        &&& forall|v: int| 0 <= v < self.num_vars() ==> bounds_ok(#[trigger] self.lower_entries(v), self.num_guards())
        &&& forall|v: int| 0 <= v < self.num_vars() ==> bounds_ok(#[trigger] self.upper_entries(v), self.num_guards())
    }

    /// Every variable's lower bound is at most its upper bound.
    pub closed spec fn order_ok(&self) -> bool {
        forall|v: int| 0 <= v < self.num_vars() ==> (#[trigger] self.lower(v)).leq(self.upper(v))
    }

    /// Every non-basic variable lies within its bounds.
    pub closed spec fn nonbasic_ok(&self) -> bool {
        forall|v: int| 0 <= v < self.num_vars() && !self.basic(v) ==> (#[trigger] self.lower(v)).leq(self.value(v))
            && self.value(v).leq(self.upper(v))
    }

    pub closed spec fn rows_ok(&self) -> bool {
        forall|b: int| 0 <= b < self.num_vars() && #[trigger] self.basic(b) ==> self.row_ok(b)
    }

    /// The watch lists name exactly the rows containing each variable, once each.
    pub closed spec fn watches_ok(&self) -> bool {
        &&& forall|v: int, i: int, j: int| 0 <= v < self.num_vars() && 0 <= i < j < self.watchers(v).len()
            ==> #[trigger] self.watchers(v)[i] != #[trigger] self.watchers(v)[j]
        &&& forall|v: int, i: int| 0 <= v < self.num_vars() && 0 <= i < self.watchers(v).len()
            ==> (#[trigger] self.watchers(v)[i]).0 < self.num_vars()
        &&& forall|v: int, w: usize| 0 <= v < self.num_vars() && w < self.num_vars()
            ==> (#[trigger] self.watchers(v).contains(VarId(w)) <==> (self.basic(w as int)
                && self.row(w as int).coeffs().contains_key(v as usize)))
    }

    pub closed spec fn guards_ok(&self) -> bool {
        forall|g: int| 0 <= g < self.num_guards() ==> (#[trigger] self.guard_bounds@[g]).wf(self.num_vars())
    }

    /// The invariant of the engine's structure: sizes, values, bounds, rows,
    /// watch lists and guard records.
    pub closed spec fn shape(&self) -> bool {
        &&& self.sizes_ok()
        &&& self.values_ok()
        &&& self.entries_ok()
        &&& self.order_ok()
        &&& self.nonbasic_ok()
        &&& self.rows_ok()
        &&& self.watches_ok()
        &&& self.guards_ok()
    }

    /// The value of every basic variable is the exact value of its row.
    pub closed spec fn consistent(&self) -> bool {
        rows_hold(self.assignments@, self.tableau@)
    }

    /// The invariant of the engine: its structure holds, and the values of
    /// the basic variables are those of their rows.
    pub closed spec fn inv(&self) -> bool {
        self.shape() && self.consistent()
    }

    /// The structure as the lemmas on rows read it.
    proof fn lemma_rows_view(&self)
        requires
            self.sizes_ok(),
            self.values_ok(),
            self.rows_ok(),
        ensures
            rows_over(self.tableau@),
            vals_fin(self.assignments@),
            self.tableau@.len() == self.assignments@.len(),
            self.assignments@.len() <= usize::MAX,
    {
        assert forall|b: int| 0 <= b < self.tableau@.len() && (#[trigger] self.tableau@[b]) is Some implies {
            &&& self.tableau@[b].unwrap().wf()
            &&& forall|k: usize| #[trigger] self.tableau@[b].unwrap().coeffs().contains_key(k) ==> k < self.tableau@.len()
                && self.tableau@[k as int] is None
        } by {
            assert(self.basic(b));
            assert(self.row_ok(b));
            assert forall|k: usize| #[trigger] self.tableau@[b].unwrap().coeffs().contains_key(k) implies k < self.tableau@.len()
                && self.tableau@[k as int] is None by {
                assert(!self.basic(k as int));
            }
        }
        assert forall|k: int| 0 <= k < self.assignments@.len() implies (#[trigger] self.assignments@[k]).wf()
            && self.assignments@[k].is_fin() by {
            assert(self.value(k).wf());
        }
    }

    /// Setting non-basic `x` to `nv`, every basic variable moving with it,
    /// keeps the values of the basic variables those of their rows.
    proof fn lemma_update_consistent(o: &Engine, f: &Engine, x: int, nv: InfRational)
        requires
            o.shape(),
            o.consistent(),
            f.shape(),
            f.tableau@ == o.tableau@,
            f.num_vars() == o.num_vars(),
            0 <= x < o.num_vars(),
            !o.basic(x),
            nv.wf(),
            nv.is_fin(),
            o.update_ok(x, nv),
            forall|v: int| 0 <= v < o.num_vars() ==> #[trigger] f.value(v) == o.updated(v, x, nv),
        ensures
            f.consistent(),
    {
        o.lemma_rows_view();
        f.lemma_rows_view();
        let vals = o.assignments@;
        let vals2 = f.assignments@;
        let tab = o.tableau@;
        let n = vals.len();
        assert(f.value(x) == o.updated(x, x, nv));
        assert forall|k: int| 0 <= k < n && k != x && tab[k] is None implies #[trigger] vals2[k] == vals[k] by {
            assert(f.value(k) == o.updated(k, x, nv));
            assert(!o.moves(k, x));
        }
        assert forall|b: int| 0 <= b < n && (#[trigger] tab[b]) is Some implies if tab[b].unwrap().coeffs().contains_key(
            x as usize,
        ) {
            shifted_by(vals2[b], vals[b], tab[b].unwrap().coeffs()[x as usize], vals2[x], vals[x])
        } else {
            vals2[b] == vals[b]
        } by {
            assert(f.value(b) == o.updated(b, x, nv));
            assert(b != x);
            assert(o.basic(b));
            if tab[b].unwrap().coeffs().contains_key(x as usize) {
                assert(o.moves(b, x));
                assert(o.shifted(b, x, nv) is Some);
                assert(o.row_ok(b));
                o.row(b).lemma_coeffs_ok();
                let c = o.row(b).coeffs()[x as usize];
                assert(o.value(b).wf() && o.value(x).wf());
                lemma_shift_exact(o.value(b), o.value(x), nv, c);
            } else {
                assert(!o.moves(b, x));
            }
        }
        lemma_move_rows(vals, vals2, tab, x);
    }

    /// In a valid engine every basic variable's value is, exactly, the value
    /// of its row under the values of all variables.
    pub proof fn lemma_rows_hold(&self)
        requires
            self.inv(),
        ensures
            self.values().len() == self.num_vars(),
            forall|v: int| 0 <= v < self.num_vars() ==> #[trigger] self.values()[v] == self.value(v),
            forall|b: int| 0 <= b < self.num_vars() && #[trigger] self.basic(b) ==> holds(self.row(b), self.values(), self.value(b)),
            vals_fin(self.values()),
    {
        reveal(rows_hold);
        self.lemma_rows_view();
    }

    /// The variables of a basic variable's row are non-basic variables of the
    /// engine, each within its bounds; values and bounds are well formed.
    pub proof fn lemma_row_vars(&self, b: int)
        requires
            self.inv(),
            0 <= b < self.num_vars(),
            self.basic(b),
        ensures
            self.row(b).wf(),
            vals_fin(self.values()),
            self.num_vars() <= usize::MAX,
            self.lower(b).wf() && self.upper(b).wf(),
            forall|k: usize| #[trigger] self.row(b).coeffs().contains_key(k) ==> {
                &&& k < self.num_vars()
                &&& !self.basic(k as int)
                &&& self.lower(k as int).wf() && self.upper(k as int).wf()
                &&& self.lower(k as int).leq(self.value(k as int))
                &&& self.value(k as int).leq(self.upper(k as int))
            },
    {
        self.lemma_rows_view();
        assert(self.row_ok(b));
        self.lemma_set_bounds(b);
        assert forall|k: usize| #[trigger] self.row(b).coeffs().contains_key(k) implies {
            &&& k < self.num_vars()
            &&& !self.basic(k as int)
            &&& self.lower(k as int).wf() && self.upper(k as int).wf()
            &&& self.lower(k as int).leq(self.value(k as int))
            &&& self.value(k as int).leq(self.upper(k as int))
        } by {
            self.lemma_set_bounds(k as int);
        }
    }

    /// The rows and watch lists carry over when neither changes.
    proof fn lemma_frame_rows(o: &Engine, e: &Engine)
        requires
            o.rows_ok(),
            o.watches_ok(),
            o.tableau@ == e.tableau@,
            o.t_watches@ == e.t_watches@,
            o.num_vars() == e.num_vars(),
        ensures
            e.rows_ok(),
            e.watches_ok(),
    {
        assert forall|b: int| 0 <= b < e.num_vars() && #[trigger] e.basic(b) implies e.row_ok(b) by {
            assert(o.basic(b));
            assert(o.row_ok(b));
            assert forall|k: usize| #[trigger] e.row(b).coeffs().contains_key(k) implies k < e.num_vars() && !e.basic(k as int) by {
                assert(o.row(b).coeffs().contains_key(k));
            }
        }
        assert forall|v: int, w: usize| 0 <= v < e.num_vars() && w < e.num_vars()
            implies (#[trigger] e.watchers(v).contains(VarId(w)) <==> (e.basic(w as int)
                && e.row(w as int).coeffs().contains_key(v as usize))) by {
            assert(o.watchers(v).contains(VarId(w)) <==> (o.basic(w as int)
                && o.row(w as int).coeffs().contains_key(v as usize)));
        }
        assert forall|v: int, i: int| 0 <= v < e.num_vars() && 0 <= i < e.watchers(v).len()
            implies (#[trigger] e.watchers(v)[i]).0 < e.num_vars() by {
            assert(o.watchers(v)[i].0 < o.num_vars());
        }
        assert forall|v: int, i: int, j: int| 0 <= v < e.num_vars() && 0 <= i < j < e.watchers(v).len()
            implies #[trigger] e.watchers(v)[i] != #[trigger] e.watchers(v)[j] by {
            assert(o.watchers(v)[i] != o.watchers(v)[j]);
        }
    }

    /// The recorded guard bounds carry over when they do not change.
    proof fn lemma_frame_guards(o: &Engine, e: &Engine)
        requires
            o.guards_ok(),
            o.guard_bounds@ == e.guard_bounds@,
            o.num_vars() <= e.num_vars(),
        ensures
            e.guards_ok(),
    {
        assert forall|g: int| 0 <= g < e.num_guards() implies (#[trigger] e.guard_bounds@[g]).wf(e.num_vars()) by {
            assert(o.guard_bounds@[g].wf(o.num_vars()));
        }
    }

    /// Bounds, order and values carry over when none of them changes.
    proof fn lemma_frame_bounds(o: &Engine, e: &Engine)
        requires
            o.values_ok(),
            o.entries_ok(),
            o.order_ok(),
            o.nonbasic_ok(),
            o.assignments@ == e.assignments@,
            o.lbs@ == e.lbs@,
            o.ubs@ == e.ubs@,
            o.tableau@ == e.tableau@,
            o.num_guards() == e.num_guards(),
        ensures
            e.values_ok(),
            e.entries_ok(),
            e.order_ok(),
            e.nonbasic_ok(),
    {
        assert forall|v: int| 0 <= v < e.num_vars() implies (#[trigger] e.value(v)).wf() && e.value(v).is_fin() by {
            assert(o.value(v).wf());
        }
        assert forall|v: int| 0 <= v < e.num_vars() implies bounds_ok(#[trigger] e.lower_entries(v), e.num_guards()) by {
            assert(bounds_ok(o.lower_entries(v), o.num_guards()));
        }
        assert forall|v: int| 0 <= v < e.num_vars() implies bounds_ok(#[trigger] e.upper_entries(v), e.num_guards()) by {
            assert(bounds_ok(o.upper_entries(v), o.num_guards()));
        }
        assert forall|v: int| 0 <= v < e.num_vars() implies (#[trigger] e.lower(v)).leq(e.upper(v)) by {
            assert(o.lower(v).leq(o.upper(v)));
        }
        assert forall|v: int| 0 <= v < e.num_vars() && !e.basic(v) implies (#[trigger] e.lower(v)).leq(e.value(v))
            && e.value(v).leq(e.upper(v)) by {
            assert(o.lower(v).leq(o.value(v)));
        }
    }

    /// Creates an empty solver.
    pub fn new() -> (e: Engine)
        ensures
            e.inv(),
            e.num_vars() == 0,
            e.num_guards() == 0,
            e.events() == Seq::<Notification>::empty(),
    {
        let e = Engine {
            assignments: Vec::new(),
            lbs: Vec::new(),
            ubs: Vec::new(),
            guard_bounds: Vec::new(),
            tableau: Vec::new(),
            t_watches: Vec::new(),
            listened: Vec::new(),
            notifications: Vec::new(),
        };
        proof {
            assert(e.watches_ok());
            reveal(rows_hold);
        }
        e
    }

    /// The number of variables.
    pub fn var_count(&self) -> (n: usize)
        requires
            self.inv(),
        ensures
            n == self.num_vars(),
    {
        self.assignments.len()
    }

    /// The number of guards.
    pub fn guard_count(&self) -> (n: usize)
        ensures
            n == self.num_guards(),
    {
        self.guard_bounds.len()
    }

    /// Adds a fresh unconstrained variable and returns its identifier.
    pub fn add_var(&mut self) -> (var: VarId)
        requires
            old(self).inv(),
            old(self).num_vars() < usize::MAX,
        ensures
            final(self).inv(),
            var.0 == old(self).num_vars(),
            final(self).num_vars() == old(self).num_vars() + 1,
            final(self).num_guards() == old(self).num_guards(),
            final(self).value(var.0 as int) == lift(zero_spec()),
            final(self).lower_entries(var.0 as int) == Seq::<BV>::empty(),
            final(self).upper_entries(var.0 as int) == Seq::<BV>::empty(),
            !final(self).basic(var.0 as int),
            !final(self).is_listened(var.0 as int),
            final(self).watchers(var.0 as int).len() == 0,
            forall|v: int| 0 <= v < old(self).num_vars() ==> {
                &&& final(self).value(v) == old(self).value(v)
                &&& final(self).lower_entries(v) == old(self).lower_entries(v)
                &&& final(self).upper_entries(v) == old(self).upper_entries(v)
                &&& final(self).basic(v) == old(self).basic(v)
                &&& (final(self).basic(v) ==> final(self).row(v) == old(self).row(v))
                &&& final(self).is_listened(v) == old(self).is_listened(v)
            },
            forall|g: int| 0 <= g < old(self).num_guards() ==> final(self).pending_lbs(g) == old(self).pending_lbs(g)
                && final(self).pending_ubs(g) == old(self).pending_ubs(g),
            final(self).events() == old(self).events(),
    {
        let index = self.assignments.len();
        self.assignments.push(InfRational::zero());
        self.lbs.push(Vec::new());
        self.ubs.push(Vec::new());
        self.tableau.push(None);
        self.t_watches.push(Vec::new());
        self.listened.push(false);
        proof {
            let o = old(self);
            let n = o.num_vars();
            assert(bview(self.lbs@[n as int]@) =~= Seq::<BV>::empty());
            assert(bview(self.ubs@[n as int]@) =~= Seq::<BV>::empty());
            lemma_finite_between(lift(zero_spec()));
            lemma_inf_order(neg_inf(), lift(zero_spec()), pos_inf());
            assert forall|v: int| 0 <= v < self.num_vars() implies (#[trigger] self.value(v)).wf() && self.value(v).is_fin() by {
                if v < n {
                    assert(o.value(v).wf());
                }
            }
            assert forall|v: int| 0 <= v < self.num_vars() implies bounds_ok(#[trigger] self.lower_entries(v), self.num_guards()) by {
                if v < n {
                    assert(self.lower_entries(v) == o.lower_entries(v));
                }
            }
            assert forall|v: int| 0 <= v < self.num_vars() implies bounds_ok(#[trigger] self.upper_entries(v), self.num_guards()) by {
                if v < n {
                    assert(self.upper_entries(v) == o.upper_entries(v));
                }
            }
            assert forall|v: int| 0 <= v < self.num_vars() implies (#[trigger] self.lower(v)).leq(self.upper(v)) by {
                if v < n {
                    assert(self.lower_entries(v) == o.lower_entries(v));
                    assert(self.upper_entries(v) == o.upper_entries(v));
                    assert(o.lower(v).leq(o.upper(v)));
                }
            }
            assert forall|v: int| 0 <= v < self.num_vars() && !self.basic(v) implies (#[trigger] self.lower(v)).leq(self.value(v))
                && self.value(v).leq(self.upper(v)) by {
                if v < n {
                    assert(self.lower_entries(v) == o.lower_entries(v));
                    assert(self.upper_entries(v) == o.upper_entries(v));
                    assert(o.basic(v) == self.basic(v));
                    assert(o.lower(v).leq(o.value(v)));
                }
            }
            assert forall|b: int| 0 <= b < self.num_vars() && #[trigger] self.basic(b) implies self.row_ok(b) by {
                assert(b < n);
                assert(o.basic(b));
                assert(o.row_ok(b));
                assert forall|k: usize| #[trigger] self.row(b).coeffs().contains_key(k) implies k < self.num_vars() && !self.basic(k as int) by {
                    assert(o.row(b).coeffs().contains_key(k));
                }
            }
            assert forall|v: int, w: usize| 0 <= v < self.num_vars() && w < self.num_vars()
                implies (#[trigger] self.watchers(v).contains(VarId(w)) <==> (self.basic(w as int)
                    && self.row(w as int).coeffs().contains_key(v as usize))) by {
                if v < n && w < n {
                    assert(self.watchers(v) == o.watchers(v));
                } else if v == n {
                    assert(self.watchers(v) =~= Seq::<VarId>::empty());
                    if w < n && self.basic(w as int) {
                        assert(o.basic(w as int));
                        assert(o.row_ok(w as int));
                        if self.row(w as int).coeffs().contains_key(v as usize) {
                            assert(o.row(w as int).coeffs().contains_key(v as usize));
                        }
                    }
                } else {
                    assert(w == n);
                    if self.watchers(v).contains(VarId(w)) {
                        let i = choose|i: int| 0 <= i < self.watchers(v).len() && self.watchers(v)[i] == VarId(w);
                        assert(o.watchers(v)[i].0 < n);
                    }
                }
            }
            assert forall|v: int, i: int| 0 <= v < self.num_vars() && 0 <= i < self.watchers(v).len()
                implies (#[trigger] self.watchers(v)[i]).0 < self.num_vars() by {
                if v < n {
                    assert(self.watchers(v) == o.watchers(v));
                }
            }
            assert forall|v: int, i: int, j: int| 0 <= v < self.num_vars() && 0 <= i < j < self.watchers(v).len()
                implies #[trigger] self.watchers(v)[i] != #[trigger] self.watchers(v)[j] by {
                if v < n {
                    assert(self.watchers(v) == o.watchers(v));
                }
            }
            assert forall|g: int| 0 <= g < self.num_guards() implies (#[trigger] self.guard_bounds@[g]).wf(self.num_vars()) by {
                assert(o.guard_bounds@[g].wf(n));
            }
            o.lemma_rows_view();
            assert forall|b: int| 0 <= b < o.tableau@.len() && (#[trigger] o.tableau@[b]) is Some implies !o.tableau@[b].unwrap().coeffs().contains_key(
                n as usize,
            ) by {
                assert(o.basic(b));
                assert(o.row_ok(b));
            }
            assert forall|k: int| 0 <= k < n implies #[trigger] self.tableau@[k] == o.tableau@[k] by {
            }
            assert forall|k: int| 0 <= k < n && k != n implies #[trigger] self.assignments@[k] == o.assignments@[k] by {
            }
            lemma_rows_frame(o.assignments@, o.tableau@, self.assignments@, self.tableau@, n as int);
        }
        VarId(index)
    }

    /// Adds a new guard, used to group bounds for later assertion or retraction.
    pub fn add_guard(&mut self) -> (g: GuardId)
        requires
            old(self).inv(),
            old(self).num_guards() < usize::MAX,
        ensures
            final(self).inv(),
            g.0 == old(self).num_guards(),
            final(self).num_guards() == old(self).num_guards() + 1,
            final(self).num_vars() == old(self).num_vars(),
            final(self).pending_lbs(g.0 as int) == Map::<usize, InfRational>::empty(),
            final(self).pending_ubs(g.0 as int) == Map::<usize, InfRational>::empty(),
            forall|v: int| 0 <= v < old(self).num_vars() ==> {
                &&& final(self).value(v) == old(self).value(v)
                &&& final(self).lower_entries(v) == old(self).lower_entries(v)
                &&& final(self).upper_entries(v) == old(self).upper_entries(v)
                &&& final(self).basic(v) == old(self).basic(v)
            },
            forall|g2: int| 0 <= g2 < old(self).num_guards() ==> final(self).pending_lbs(g2) == old(self).pending_lbs(g2)
                && final(self).pending_ubs(g2) == old(self).pending_ubs(g2),
            final(self).events() == old(self).events(),
    {
        let index = self.guard_bounds.len();
        self.guard_bounds.push(GuardBounds::new());
        proof {
            let o = old(self);
            let ng = o.num_guards();
            assert forall|v: int| 0 <= v < self.num_vars() implies bounds_ok(#[trigger] self.lower_entries(v), self.num_guards()) by {
                assert(bounds_ok(o.lower_entries(v), ng));
            }
            assert forall|v: int| 0 <= v < self.num_vars() implies bounds_ok(#[trigger] self.upper_entries(v), self.num_guards()) by {
                assert(bounds_ok(o.upper_entries(v), ng));
            }
            assert forall|g: int| 0 <= g < self.num_guards() implies (#[trigger] self.guard_bounds@[g]).wf(self.num_vars()) by {
                if g < ng {
                    assert(o.guard_bounds@[g].wf(o.num_vars()));
                }
            }
            Engine::lemma_frame_rows(o, self);
            assert forall|v: int| 0 <= v < self.num_vars() implies (#[trigger] self.value(v)).wf() && self.value(v).is_fin() by {
                assert(o.value(v).wf());
            }
            assert forall|v: int| 0 <= v < self.num_vars() implies (#[trigger] self.lower(v)).leq(self.upper(v)) by {
                assert(o.lower(v).leq(o.upper(v)));
            }
            assert forall|v: int| 0 <= v < self.num_vars() && !self.basic(v) implies (#[trigger] self.lower(v)).leq(self.value(v))
                && self.value(v).leq(self.upper(v)) by {
                assert(o.lower(v).leq(o.value(v)));
            }
        }
        GuardId(index)
    }

    /// The current value of `var`.
    pub fn val(&self, var: VarId) -> (r: InfRational)
        requires
            self.inv(),
            var.0 < self.num_vars(),
        ensures
            r == self.value(var.0 as int),
    {
        self.value_at(var)
    }

    /// The tightest lower bound of `var`, `-∞` if none is set.
    pub fn lb(&self, var: VarId) -> (r: InfRational)
        requires
            self.inv(),
            var.0 < self.num_vars(),
        ensures
            r == self.lower(var.0 as int),
    {
        self.lower_at(var)
    }

    /// The tightest upper bound of `var`, `+∞` if none is set.
    pub fn ub(&self, var: VarId) -> (r: InfRational)
        requires
            self.inv(),
            var.0 < self.num_vars(),
        ensures
            r == self.upper(var.0 as int),
    {
        self.upper_at(var)
    }

    fn value_at(&self, var: VarId) -> (r: InfRational)
        requires
            self.shape(),
            var.0 < self.num_vars(),
        ensures
            r == self.value(var.0 as int),
    {
        self.assignments[var.0]
    }

    fn lower_at(&self, var: VarId) -> (r: InfRational)
        requires
            self.shape(),
            var.0 < self.num_vars(),
        ensures
            r == self.lower(var.0 as int),
    {
        let list = &self.lbs[var.0];
        if list.len() == 0 {
            InfRational::negative_infinity()
        } else {
            list[list.len() - 1].val
        }
    }

    fn upper_at(&self, var: VarId) -> (r: InfRational)
        requires
            self.shape(),
            var.0 < self.num_vars(),
        ensures
            r == self.upper(var.0 as int),
    {
        let list = &self.ubs[var.0];
        if list.len() == 0 {
            InfRational::positive_infinity()
        } else {
            list[0].val
        }
    }

    /// Whether `var` is basic.
    fn is_basic(&self, var: VarId) -> (b: bool)
        requires
            self.shape(),
            var.0 < self.num_vars(),
        ensures
            b == self.basic(var.0 as int),
    {
        self.tableau[var.0].is_some()
    }

    /// Whether the bounds of `lhs` and `rhs` overlap.
    pub fn overlap(&self, lhs: VarId, rhs: VarId) -> (b: bool)
        requires
            self.inv(),
            lhs.0 < self.num_vars(),
            rhs.0 < self.num_vars(),
        ensures
            b == (self.lower(lhs.0 as int).leq(self.upper(rhs.0 as int)) && self.lower(rhs.0 as int).leq(
                self.upper(lhs.0 as int),
            )),
    {
        let (l1, u1) = (self.lower_at(lhs), self.upper_at(rhs));
        let (l2, u2) = (self.lower_at(rhs), self.upper_at(lhs));
        (l1.less_than(&u1) || l1.same_value(&u1)) && (l2.less_than(&u2) || l2.same_value(&u2))
    }

    /// Asks that changes of the value or bounds of `var` be reported.
    pub fn set_listener(&mut self, var: VarId)
        requires
            old(self).inv(),
            var.0 < old(self).num_vars(),
        ensures
            final(self).inv(),
            final(self).is_listened(var.0 as int),
            final(self).num_vars() == old(self).num_vars(),
            final(self).num_guards() == old(self).num_guards(),
            forall|v: int| 0 <= v < old(self).num_vars() ==> {
                &&& final(self).value(v) == old(self).value(v)
                &&& final(self).lower_entries(v) == old(self).lower_entries(v)
                &&& final(self).upper_entries(v) == old(self).upper_entries(v)
                &&& final(self).basic(v) == old(self).basic(v)
                &&& (v != var.0 ==> final(self).is_listened(v) == old(self).is_listened(v))
            },
            final(self).events() == old(self).events(),
    {
        self.listened.set(var.0, true);
        proof {
            Engine::lemma_frame_rows(old(self), self);
            Engine::lemma_frame_guards(old(self), self);
            Engine::lemma_frame_bounds(old(self), self);
        }
    }

    /// Takes the reported changes, oldest first.
    pub fn take_notifications(&mut self) -> (r: Vec<Notification>)
        requires
            old(self).inv(),
        ensures
            final(self).inv(),
            r@ == old(self).events(),
            final(self).events() == Seq::<Notification>::empty(),
            final(self).num_vars() == old(self).num_vars(),
            final(self).num_guards() == old(self).num_guards(),
            forall|v: int| 0 <= v < old(self).num_vars() ==> {
                &&& final(self).value(v) == old(self).value(v)
                &&& final(self).lower_entries(v) == old(self).lower_entries(v)
                &&& final(self).upper_entries(v) == old(self).upper_entries(v)
                &&& final(self).basic(v) == old(self).basic(v)
            },
    {
        let mut taken: Vec<Notification> = Vec::new();
        std::mem::swap(&mut taken, &mut self.notifications);
        proof {
            Engine::lemma_frame_rows(old(self), self);
            Engine::lemma_frame_guards(old(self), self);
            Engine::lemma_frame_bounds(old(self), self);
        }
        taken
    }
}

/// The largest value of a list of bounds, `-∞` when there is none.
fn lower_of(list: &Vec<BoundEntry>) -> (r: InfRational)
    ensures
        r == lb_of(bview(list@)),
{
    if list.len() == 0 {
        InfRational::negative_infinity()
    } else {
        list[list.len() - 1].val
    }
}

/// The smallest value of a list of bounds, `+∞` when there is none.
fn upper_of(list: &Vec<BoundEntry>) -> (r: InfRational)
    ensures
        r == ub_of(bview(list@)),
{
    if list.len() == 0 {
        InfRational::positive_infinity()
    } else {
        list[0].val
    }
}

impl Engine {
    /// The lower bounds of `v` once guard `g` is retracted: `g` comes off
    /// every entry, and an entry left with no guard by that goes away.
    pub open spec fn lower_retracted(&self, g: GuardId, v: int) -> Seq<BV> {
        strip_guard(self.lower_entries(v), g)
    }

    /// The upper bounds of `v` once guard `g` is retracted.
    pub open spec fn upper_retracted(&self, g: GuardId, v: int) -> Seq<BV> {
        strip_guard(self.upper_entries(v), g)
    }

    /// `f` is `e` once guard `g` is retracted: `g` comes off every bound of
    /// every variable (a bound that no other guard set goes away), and
    /// nothing else changes; the guards' records stay.
    pub open spec fn retracted(&self, f: &Engine, g: GuardId) -> bool {
        &&& f.num_vars() == self.num_vars()
        &&& f.num_guards() == self.num_guards()
        &&& forall|v: int| #![trigger f.value(v)] #![trigger f.lower_entries(v)] #![trigger f.upper_entries(v)]
            0 <= v < self.num_vars() ==> {
            &&& f.value(v) == self.value(v)
            &&& f.basic(v) == self.basic(v)
            &&& f.lower_entries(v) == self.lower_retracted(g, v)
            &&& f.upper_entries(v) == self.upper_retracted(g, v)
        }
        &&& forall|g2: int| 0 <= g2 < self.num_guards() ==> #[trigger] f.pending_lbs(g2) == self.pending_lbs(g2)
            && f.pending_ubs(g2) == self.pending_ubs(g2)
        &&& f.events() == self.events() + f.reports(self.changed_bounds(f, self.num_vars()))
    }

    /// The variables below `n` whose tightest lower or upper bound differs
    /// between `self` and `f`, in increasing order.
    pub open spec fn changed_bounds(&self, f: &Engine, n: nat) -> Seq<VarId>
        decreases n,
    {
        if n == 0 {
            Seq::empty()
        } else {
            let v = n - 1;
            let r = self.changed_bounds(f, (n - 1) as nat);
            if !f.lower(v).same(self.lower(v)) || !f.upper(v).same(self.upper(v)) {
                r.push(VarId(v as usize))
            } else {
                r
            }
        }
    }

    /// The changed variables below `n` depend only on the bounds below `n`.
    proof fn lemma_changed_frame(o: &Engine, e1: &Engine, e2: &Engine, n: nat)
        requires
            forall|v: int| 0 <= v < n ==> #[trigger] e1.lower_entries(v) == e2.lower_entries(v) && e1.upper_entries(v)
                == e2.upper_entries(v),
        ensures
            o.changed_bounds(e1, n) == o.changed_bounds(e2, n),
            forall|i: int| 0 <= i < o.changed_bounds(e1, n).len() ==> (#[trigger] o.changed_bounds(e1, n)[i]).0 < n,
        decreases n,
    {
        if n > 0 {
            Engine::lemma_changed_frame(o, e1, e2, (n - 1) as nat);
            assert(e1.lower_entries(n - 1) == e2.lower_entries(n - 1));
        }
    }

    /// Reports of variables on which two solvers agree are the same.
    proof fn lemma_reports_agree(e: &Engine, f: &Engine, vs: Seq<VarId>)
        requires
            forall|i: int| 0 <= i < vs.len() ==> {
                let v = (#[trigger] vs[i]).0 as int;
                &&& e.is_listened(v) == f.is_listened(v)
                &&& e.value(v) == f.value(v)
                &&& e.lower_entries(v) == f.lower_entries(v)
                &&& e.upper_entries(v) == f.upper_entries(v)
            },
        ensures
            e.reports(vs) == f.reports(vs),
        decreases vs.len(),
    {
        if vs.len() > 0 {
            let d = vs.drop_last();
            assert forall|i: int| 0 <= i < d.len() implies {
                let v = (#[trigger] d[i]).0 as int;
                &&& e.is_listened(v) == f.is_listened(v)
                &&& e.value(v) == f.value(v)
                &&& e.lower_entries(v) == f.lower_entries(v)
                &&& e.upper_entries(v) == f.upper_entries(v)
            } by {
                assert(d[i] == vs[i]);
            }
            Engine::lemma_reports_agree(e, f, d);
            assert(vs.last() == vs[vs.len() - 1]);
            assert(e.report(vs.last()) == f.report(vs.last()));
        }
    }

    /// Reports the value and bounds of `v` if it is listened.
    fn push_report(&mut self, v: VarId)
        requires
            v.0 < old(self).assignments@.len(),
            v.0 < old(self).lbs@.len(),
            v.0 < old(self).ubs@.len(),
            v.0 < old(self).listened@.len(),
        ensures
            final(self).notifications@ == old(self).notifications@ + old(self).report(v),
            final(self).assignments@ == old(self).assignments@,
            final(self).lbs@ == old(self).lbs@,
            final(self).ubs@ == old(self).ubs@,
            final(self).guard_bounds@ == old(self).guard_bounds@,
            final(self).tableau@ == old(self).tableau@,
            final(self).t_watches@ == old(self).t_watches@,
            final(self).listened@ == old(self).listened@,
    {
        if self.listened[v.0] {
            let val = self.assignments[v.0];
            let lb = lower_of(&self.lbs[v.0]);
            let ub = upper_of(&self.ubs[v.0]);
            self.notifications.push(Notification { var: v, val, lb, ub });
        }
    }

    /// Removes every bound that `constraint` set: the guard comes off each
    /// bound of each variable, and a bound that no other guard (and no
    /// unguarded constraint) holds goes away. The guard's records stay, so
    /// that it can be asserted again. Each listened variable whose tightest
    /// bound changes is reported, in increasing order.
    #[verifier::spinoff_prover]
    pub fn retract(&mut self, constraint: GuardId)
        requires
            old(self).inv(),
            constraint.0 < old(self).num_guards(),
        ensures
            final(self).inv(),
            final(self).num_vars() == old(self).num_vars(),
            final(self).num_guards() == old(self).num_guards(),
            final(self).same_tableau(old(self)),
            old(self).retracted(final(self), constraint),
    {
        let ghost ng = self.num_guards();
        let ghost nv = self.num_vars();
        let n = self.lbs.len();
        let mut changed: Vec<VarId> = Vec::new();
        proof {
            assert forall|v: int| 0 <= v < nv implies bounds_ok(#[trigger] bview(self.lbs@[v]@), ng) by {
                assert(bounds_ok(self.lower_entries(v), ng));
            }
            assert forall|v: int| 0 <= v < nv implies bounds_ok(#[trigger] bview(self.ubs@[v]@), ng) by {
                assert(bounds_ok(self.upper_entries(v), ng));
            }
        }
        for i in 0..n
            invariant
                n == nv,
                ng == self.num_guards(),
                nv == self.num_vars(),
                self.guard_bounds@ == old(self).guard_bounds@,
                self.assignments@ == old(self).assignments@,
                self.tableau@ == old(self).tableau@,
                self.t_watches@ == old(self).t_watches@,
                self.listened@ == old(self).listened@,
                self.notifications@ == old(self).notifications@,
                self.lbs@.len() == nv,
                self.ubs@.len() == nv,
                old(self).shape(),
                forall|v: int| 0 <= v < nv ==> bounds_ok(#[trigger] bview(self.lbs@[v]@), ng),
                forall|v: int| 0 <= v < nv ==> bounds_ok(#[trigger] bview(self.ubs@[v]@), ng),
                forall|v: int| 0 <= v < nv ==> (#[trigger] bview(self.lbs@[v]@)) == if v < i {
                    strip_guard(bview(old(self).lbs@[v]@), constraint)
                } else {
                    bview(old(self).lbs@[v]@)
                },
                forall|v: int| 0 <= v < nv ==> (#[trigger] bview(self.ubs@[v]@)) == if v < i {
                    strip_guard(bview(old(self).ubs@[v]@), constraint)
                } else {
                    bview(old(self).ubs@[v]@)
                },
                changed@ == old(self).changed_bounds(self, i as nat),
        {
            let lo0 = lower_of(&self.lbs[i]);
            let up0 = upper_of(&self.ubs[i]);
            let ghost s0 = *self;
            let ghost bl = self.lbs@;
            strip_guard_list(&mut self.lbs[i], constraint, Ghost(ng));
            proof {
                assert forall|v: int| 0 <= v < nv && v != i implies self.lbs@[v] == bl[v] by {}
            }
            let ghost bu = self.ubs@;
            strip_guard_list(&mut self.ubs[i], constraint, Ghost(ng));
            proof {
                assert forall|v: int| 0 <= v < nv && v != i implies self.ubs@[v] == bu[v] by {}
            }
            let lo1 = lower_of(&self.lbs[i]);
            let up1 = upper_of(&self.ubs[i]);
            proof {
                Engine::lemma_changed_frame(old(self), &s0, self, i as nat);
                assert(old(self).lower(i as int) == lb_of(bview(old(self).lbs@[i as int]@)));
                assert(lo0 == old(self).lower(i as int));
                assert(up0 == old(self).upper(i as int));
                assert(lo1 == self.lower(i as int));
                assert(up1 == self.upper(i as int));
            }
            if !lo1.same_value(&lo0) || !up1.same_value(&up0) {
                changed.push(VarId(i));
            }
        }
        proof {
            Engine::lemma_changed_frame(old(self), self, self, nv);
        }
        let m = changed.len();
        for j in 0..m
            invariant
                m == changed@.len(),
                changed@ == old(self).changed_bounds(self, nv),
                forall|k: int| 0 <= k < changed@.len() ==> (#[trigger] changed@[k]).0 < nv,
                ng == self.num_guards(),
                nv == self.num_vars(),
                self.guard_bounds@ == old(self).guard_bounds@,
                self.assignments@ == old(self).assignments@,
                self.tableau@ == old(self).tableau@,
                self.t_watches@ == old(self).t_watches@,
                self.listened@ == old(self).listened@,
                self.notifications@ == old(self).notifications@ + self.reports(changed@.take(j as int)),
                self.lbs@.len() == nv,
                self.ubs@.len() == nv,
                old(self).shape(),
                forall|v: int| 0 <= v < nv ==> bounds_ok(#[trigger] bview(self.lbs@[v]@), ng),
                forall|v: int| 0 <= v < nv ==> bounds_ok(#[trigger] bview(self.ubs@[v]@), ng),
                forall|v: int| 0 <= v < nv ==> (#[trigger] bview(self.lbs@[v]@)) == strip_guard(bview(old(self).lbs@[v]@), constraint),
                forall|v: int| 0 <= v < nv ==> (#[trigger] bview(self.ubs@[v]@)) == strip_guard(bview(old(self).ubs@[v]@), constraint),
        {
            let ghost before = *self;
            let w = changed[j];
            proof {
                assert(changed@[j as int] == w);
            }
            self.push_report(w);
            proof {
                Engine::lemma_changed_frame(old(self), &before, self, nv);
                Engine::lemma_reports_agree(self, &before, changed@.take(j as int));
                assert(changed@.take(j + 1) =~= changed@.take(j as int).push(w));
                assert(changed@.take(j + 1).drop_last() =~= changed@.take(j as int));
            }
        }
        proof {
            assert(changed@.take(m as int) =~= changed@);
        }
        proof {
            let o = old(self);
            Engine::lemma_frame_rows(o, self);
            Engine::lemma_frame_guards(o, self);
            assert forall|v: int| 0 <= v < nv implies (#[trigger] self.lower_entries(v)) == o.lower_retracted(constraint, v)
                && self.upper_entries(v) == o.upper_retracted(constraint, v) by {
                assert(bview(self.lbs@[v]@) == strip_guard(bview(o.lbs@[v]@), constraint));
                assert(bview(self.ubs@[v]@) == strip_guard(bview(o.ubs@[v]@), constraint));
            }
            assert forall|v: int| 0 <= v < self.num_vars() implies (#[trigger] self.value(v)).wf() && self.value(v).is_fin() by {
                assert(o.value(v).wf());
            }
            assert forall|v: int| 0 <= v < self.num_vars() implies bounds_ok(#[trigger] self.lower_entries(v), self.num_guards()) by {
                assert(bounds_ok(bview(self.lbs@[v]@), ng));
            }
            assert forall|v: int| 0 <= v < self.num_vars() implies bounds_ok(#[trigger] self.upper_entries(v), self.num_guards()) by {
                assert(bounds_ok(bview(self.ubs@[v]@), ng));
            }
            assert forall|v: int| 0 <= v < nv implies self.lower(v).leq(o.lower(v)) && o.upper(v).leq(self.upper(v)) by {
                assert(bounds_ok(o.lower_entries(v), ng));
                assert(bounds_ok(o.upper_entries(v), ng));
                assert(self.lower_entries(v) == o.lower_retracted(constraint, v));
                assert(self.upper_entries(v) == o.upper_retracted(constraint, v));
                lemma_strip_ok(o.lower_entries(v), constraint, ng);
                lemma_strip_ok(o.upper_entries(v), constraint, ng);
                lemma_subset_extremes(o.lower_entries(v), self.lower_entries(v), ng);
                lemma_subset_extremes(o.upper_entries(v), self.upper_entries(v), ng);
            }
            assert forall|v: int| 0 <= v < self.num_vars() implies (#[trigger] self.lower(v)).leq(self.upper(v)) by {
                assert(o.lower(v).leq(o.upper(v)));
                assert(self.lower(v).leq(o.lower(v)) && o.upper(v).leq(self.upper(v)));
                lemma_extremes(self.lower_entries(v), ng);
                lemma_extremes(self.upper_entries(v), ng);
                lemma_extremes(o.lower_entries(v), ng);
                lemma_extremes(o.upper_entries(v), ng);
                lemma_inf_order(self.lower(v), o.lower(v), o.upper(v));
                lemma_inf_order(self.lower(v), o.upper(v), self.upper(v));
            }
            assert forall|v: int| 0 <= v < self.num_vars() && !self.basic(v) implies (#[trigger] self.lower(v)).leq(self.value(v))
                && self.value(v).leq(self.upper(v)) by {
                assert(o.basic(v) == self.basic(v));
                assert(o.lower(v).leq(o.value(v)));
                assert(o.value(v).leq(o.upper(v)));
                assert(self.lower(v).leq(o.lower(v)) && o.upper(v).leq(self.upper(v)));
                lemma_extremes(self.lower_entries(v), ng);
                lemma_extremes(self.upper_entries(v), ng);
                lemma_extremes(o.lower_entries(v), ng);
                lemma_extremes(o.upper_entries(v), ng);
                lemma_inf_order(self.lower(v), o.lower(v), o.value(v));
                lemma_inf_order(o.value(v), o.upper(v), self.upper(v));
            }
        }
    }
}

impl Engine {
    /// Non-basic `x` is in the row of some basic variable, which moves when
    /// `x` is set.
    pub open spec fn drives(&self, x: int) -> bool {
        !self.basic(x) && exists|w: int| 0 <= w < self.num_vars() && #[trigger] self.moves(w, x)
    }

    /// Basic variable `w` moves with `var`: its row contains `var`.
    pub open spec fn moves(&self, w: int, var: int) -> bool {
        self.basic(w) && self.row(w).coeffs().contains_key(var as usize)
    }

    /// The value of basic `w` once `var` is set to `nv`:
    /// `value(w) + row(w)[var] · (nv - value(var))`.
    pub open spec fn shifted(&self, w: int, var: int, nv: InfRational) -> Option<InfRational> {
        match nv.sub_spec(self.value(var)) {
            Some(d) => match d.mul_rat_spec(self.row(w).coeffs()[var as usize]) {
                Some(delta) => self.value(w).add_spec(delta),
                None => None,
            },
            None => None,
        }
    }

    /// Setting `var` to `nv` moves every dependent basic variable in range.
    pub open spec fn update_ok(&self, var: int, nv: InfRational) -> bool {
        forall|w: int| 0 <= w < self.num_vars() && #[trigger] self.moves(w, var) ==> self.shifted(w, var, nv) is Some
    }

    /// The value of `w` once `var` is set to `nv`.
    pub open spec fn updated(&self, w: int, var: int, nv: InfRational) -> InfRational {
        if w == var {
            nv
        } else if self.moves(w, var) {
            self.shifted(w, var, nv).unwrap()
        } else {
            self.value(w)
        }
    }

    /// Every non-basic variable but `x` lies within its bounds.
    pub closed spec fn nonbasic_ok_except(&self, x: int) -> bool {
        forall|v: int| 0 <= v < self.num_vars() && !self.basic(v) && v != x ==> (#[trigger] self.lower(v)).leq(self.value(v))
            && self.value(v).leq(self.upper(v))
    }

    /// The invariant, except that non-basic `x` may lie outside its bounds.
    pub closed spec fn inv_except(&self, x: int) -> bool {
        &&& self.sizes_ok()
        &&& self.values_ok()
        &&& self.entries_ok()
        &&& self.order_ok()
        &&& self.nonbasic_ok_except(x)
        &&& self.rows_ok()
        &&& self.watches_ok()
        &&& self.guards_ok()
    }

    /// The watch list of `var` names exactly the basic variables that move with it.
    proof fn lemma_watchers(&self, var: int)
        requires
            self.inv_except(var) || self.shape(),
            0 <= var < self.num_vars(),
        ensures
            forall|i: int| 0 <= i < self.watchers(var).len() ==> {
                &&& (#[trigger] self.watchers(var)[i]).0 < self.num_vars()
                &&& self.moves(self.watchers(var)[i].0 as int, var)
            },
            forall|w: int| 0 <= w < self.num_vars() && #[trigger] self.moves(w, var) ==> exists|i: int| 0 <= i < self.watchers(var).len() && self.watchers(var)[i] == VarId(w as usize),
    {
        assert forall|i: int| 0 <= i < self.watchers(var).len() implies {
            &&& (#[trigger] self.watchers(var)[i]).0 < self.num_vars()
            &&& self.moves(self.watchers(var)[i].0 as int, var)
        } by {
            let w = self.watchers(var)[i].0;
            assert(w < self.num_vars());
            assert(self.watchers(var).contains(VarId(w)));
        }
        assert forall|w: int| 0 <= w < self.num_vars() && #[trigger] self.moves(w, var) implies exists|i: int| 0 <= i < self.watchers(var).len() && self.watchers(var)[i] == VarId(w as usize) by {
            assert(self.watchers(var).contains(VarId(w as usize)));
        }
    }

    /// Computes the new values of the basic variables that move with `var`
    /// when `var` is set to `nv`, in the order of its watch list; `None` when
    /// one of them is out of range.
    fn compute_update(&self, var: VarId, nv: &InfRational) -> (r: Option<Vec<InfRational>>)
        requires
            self.inv_except(var.0 as int) || self.shape(),
            var.0 < self.num_vars(),
            nv.wf(),
            nv.is_fin(),
        ensures
            r is Some <==> self.update_ok(var.0 as int, *nv),
            r matches Some(c) ==> c@.len() == self.watchers(var.0 as int).len() && forall|i: int| 0 <= i < c@.len()
                ==> Some(#[trigger] c@[i]) == self.shifted(self.watchers(var.0 as int)[i].0 as int, var.0 as int, *nv)
                && c@[i].wf() && c@[i].is_fin(),
    {
        let ghost v = var.0 as int;
        proof {
            self.lemma_watchers(v);
            assert(self.value(v).wf());
        }
        let d = nv.checked_sub(&self.assignments[var.0]);
        proof {
            assert(self.value(v).is_fin());
        }
        let ws = &self.t_watches[var.0];
        let mut out: Vec<InfRational> = Vec::new();
        let mut i: usize = 0;
        while i < ws.len()
            invariant
                i <= ws@.len(),
                v == var.0 as int,
                nv.wf(),
                nv.is_fin(),
                d matches Some(x) ==> x.wf() && x.is_fin(),
                self.inv_except(v) || self.shape(),
                0 <= v < self.num_vars(),
                ws@ == self.watchers(v),
                d == nv.sub_spec(self.value(v)),
                out@.len() == i,
                forall|j: int| 0 <= j < i ==> Some(#[trigger] out@[j]) == self.shifted(ws@[j].0 as int, v, *nv)
                    && out@[j].wf() && out@[j].is_fin(),
                forall|j: int| 0 <= j < ws@.len() ==> (#[trigger] ws@[j]).0 < self.num_vars() && self.moves(ws@[j].0 as int, v),
                forall|w: int| 0 <= w < self.num_vars() && #[trigger] self.moves(w, v) ==> exists|j: int| 0 <= j < ws@.len() && ws@[j] == VarId(w as usize),
            decreases ws@.len() - i,
        {
            let w = ws[i];
            proof {
                assert(ws@[i as int].0 < self.num_vars() && self.moves(ws@[i as int].0 as int, v));
                assert(self.row_ok(w.0 as int));
                assert(self.value(w.0 as int).wf());
                self.row(w.0 as int).lemma_coeffs_ok();
            }
            let c = match &self.tableau[w.0] {
                Some(row) => {
                    proof {
                        assert(*row == self.row(w.0 as int));
                        assert(self.moves(w.0 as int, v));
                        assert(self.row(w.0 as int).coeffs().contains_key(v as usize));
                        assert(v as usize == var.0);
                        assert(row.coeffs().contains_key(var.0));
                    }
                    row.get(var).unwrap()
                },
                None => {
                    proof {
                        assert(false);
                    }
                    Rational::zero()
                },
            };
            let dd = match d {
                Some(x) => x,
                None => {
                    proof {
                        assert(self.shifted(w.0 as int, v, *nv) is None);
                        assert(self.moves(w.0 as int, v));
                    }
                    return None;
                },
            };
            proof {
                assert(c == self.row(w.0 as int).coeffs()[v as usize]);
                assert(c.wf() && c.is_fin());
                assert(self.value(w.0 as int).is_fin());
            }
            let delta = match dd.checked_mul_rat(&c) {
                Some(x) => x,
                None => {
                    proof {
                        assert(self.shifted(w.0 as int, v, *nv) is None);
                        assert(self.moves(w.0 as int, v));
                    }
                    return None;
                },
            };
            let x = match self.assignments[w.0].checked_add(&delta) {
                Some(x) => x,
                None => {
                    proof {
                        assert(self.shifted(w.0 as int, v, *nv) is None);
                        assert(self.moves(w.0 as int, v));
                    }
                    return None;
                },
            };
            proof {
                assert(self.shifted(w.0 as int, v, *nv) == Some(x));
                assert(ws@[i as int] == w);
            }
            let ghost prev = out@;
            let ghost i0 = i as int;
            out.push(x);
            i = i + 1;
            proof {
                assert forall|j: int| 0 <= j < i implies Some(#[trigger] out@[j]) == self.shifted(ws@[j].0 as int, v, *nv)
                    && out@[j].wf() && out@[j].is_fin() by {
                    if j < i0 {
                        assert(out@[j] == prev[j]);
                    } else {
                        assert(j == i0);
                        assert(out@[j] == x);
                        assert(ws@[j] == w);
                    }
                }
            }
        }
        proof {
            assert forall|w: int| 0 <= w < self.num_vars() && #[trigger] self.moves(w, v) implies self.shifted(w, v, *nv) is Some by {
                let j = choose|j: int| 0 <= j < ws@.len() && ws@[j] == VarId(w as usize);
                assert(ws@[j].0 as int == w);
                assert(Some(out@[j]) == self.shifted(ws@[j].0 as int, v, *nv));
            }
        }
        Some(out)
    }
}

impl Engine {
    /// Everything but the values and the reported changes is as in `o`.
    closed spec fn keeps_structure(&self, o: &Engine) -> bool {
        &&& self.assignments@.len() == o.assignments@.len()
        &&& self.lbs@ == o.lbs@
        &&& self.ubs@ == o.ubs@
        &&& self.guard_bounds@ == o.guard_bounds@
        &&& self.tableau@ == o.tableau@
        &&& self.t_watches@ == o.t_watches@
        &&& self.listened@ == o.listened@
    }

    /// When only values change, the invariant rests on the values alone.
    proof fn lemma_values_only(o: &Engine, e: &Engine)
        requires
            o.shape(),
            e.keeps_structure(o),
            e.values_ok(),
            e.nonbasic_ok(),
        ensures
            e.shape(),
    {
        Engine::lemma_frame_rows(o, e);
        Engine::lemma_frame_guards(o, e);
        assert forall|v: int| 0 <= v < e.num_vars() implies bounds_ok(#[trigger] e.lower_entries(v), e.num_guards()) by {
            assert(bounds_ok(o.lower_entries(v), o.num_guards()));
        }
        assert forall|v: int| 0 <= v < e.num_vars() implies bounds_ok(#[trigger] e.upper_entries(v), e.num_guards()) by {
            assert(bounds_ok(o.upper_entries(v), o.num_guards()));
        }
        assert forall|v: int| 0 <= v < e.num_vars() implies (#[trigger] e.lower(v)).leq(e.upper(v)) by {
            assert(o.lower(v).leq(o.upper(v)));
        }
    }

    /// Sets non-basic `var` to `nv` and moves every basic variable whose row
    /// contains it by `row[var] · (nv - value(var))`; returns `false`, and
    /// changes nothing, when one of the new values is out of range.
    #[verifier::spinoff_prover]
    fn update(&mut self, var: VarId, nv: InfRational) -> (ok: bool)
        requires
            old(self).shape(),
            old(self).consistent(),
            var.0 < old(self).num_vars(),
            !old(self).basic(var.0 as int),
            nv.wf(),
            nv.is_fin(),
            old(self).lower(var.0 as int).leq(nv),
            nv.leq(old(self).upper(var.0 as int)),
        ensures
            ok == old(self).update_ok(var.0 as int, nv),
            !ok ==> *final(self) == *old(self),
            final(self).shape(),
            final(self).consistent(),
            final(self).keeps_structure(old(self)),
            final(self).events() == old(self).events(),
            forall|v: int| 0 <= v < old(self).num_vars() ==> #[trigger] final(self).value(v) == (if ok {
                old(self).updated(v, var.0 as int, nv)
            } else {
                old(self).value(v)
            }),
    {
        let news = match self.compute_update(var, &nv) {
            Some(c) => c,
            None => return false,
        };
        let ghost x = var.0 as int;
        let ghost ws = self.watchers(x);
        let ghost o = *old(self);
        proof {
            o.lemma_watchers(x);
        }
        let n = news.len();
        for i in 0..n
            invariant
                n == news@.len(),
                n == ws.len(),
                x == var.0 as int,
                0 <= x < o.num_vars(),
                o == *old(self),
                ws == o.watchers(x),
                !o.basic(x),
                o.shape(),
                self.shape(),
                self.keeps_structure(&o),
                self.events() == o.events(),
                forall|j: int| 0 <= j < n ==> Some(#[trigger] news@[j]) == o.shifted(ws[j].0 as int, x, nv)
                    && news@[j].wf() && news@[j].is_fin(),
                forall|j: int| 0 <= j < ws.len() ==> (#[trigger] ws[j]).0 < o.num_vars() && o.moves(ws[j].0 as int, x),
                forall|v: int| 0 <= v < o.num_vars() ==> #[trigger] self.value(v) == (if ws.take(i as int).contains(VarId(v as usize)) {
                    o.updated(v, x, nv)
                } else {
                    o.value(v)
                }),
        {
            let w = self.t_watches[var.0][i];
            let ghost before = *self;
            proof {
                assert(w == ws[i as int]);
                assert(o.moves(w.0 as int, x));
                assert(w.0 as int != x);
            }
            self.assignments.set(w.0, news[i]);
            proof {
                assert(ws.take(i + 1) == ws.take(i as int).push(w));
                assert forall|v: int| 0 <= v < o.num_vars() implies #[trigger] self.value(v) == (if ws.take(i + 1).contains(VarId(v as usize)) {
                    o.updated(v, x, nv)
                } else {
                    o.value(v)
                }) by {
                    crate::lin::lemma_push_contains(ws.take(i as int), w, VarId(v as usize));
                    if v != w.0 as int {
                        assert(self.value(v) == before.value(v));
                    }
                }
                assert forall|v: int| 0 <= v < self.num_vars() implies (#[trigger] self.value(v)).wf() && self.value(v).is_fin() by {
                    if v != w.0 as int {
                        assert(self.value(v) == before.value(v));
                        assert(before.value(v).wf());
                    }
                }
                assert forall|v: int| 0 <= v < self.num_vars() && !self.basic(v) implies (#[trigger] self.lower(v)).leq(self.value(v))
                    && self.value(v).leq(self.upper(v)) by {
                    assert(before.basic(v) == self.basic(v));
                    assert(o.basic(w.0 as int));
                    assert(v != w.0 as int);
                    assert(self.value(v) == before.value(v));
                    assert(before.lower(v).leq(before.value(v)));
                }
                Engine::lemma_values_only(&before, self);
            }
        }
        let ghost before = *self;
        self.assignments.set(var.0, nv);
        proof {
            assert(ws.take(n as int) == ws);
            assert(!ws.contains(VarId(var.0))) by {
                if ws.contains(VarId(var.0)) {
                    let j = choose|j: int| 0 <= j < ws.len() && ws[j] == VarId(var.0);
                    assert(o.moves(ws[j].0 as int, x));
                }
            }
            assert forall|v: int| 0 <= v < o.num_vars() implies #[trigger] self.value(v) == o.updated(v, x, nv) by {
                if v != x {
                    assert(self.value(v) == before.value(v));
                    if !ws.contains(VarId(v as usize)) {
                        assert(o.watchers(x).contains(VarId(v as usize)) <==> (o.basic(v)
                            && o.row(v).coeffs().contains_key(x as usize)));
                        assert(!o.moves(v, x));
                    }
                }
            }
            assert forall|v: int| 0 <= v < self.num_vars() implies (#[trigger] self.value(v)).wf() && self.value(v).is_fin() by {
                if v != x {
                    assert(self.value(v) == before.value(v));
                    assert(before.value(v).wf());
                }
            }
            assert forall|v: int| 0 <= v < self.num_vars() && !self.basic(v) implies (#[trigger] self.lower(v)).leq(self.value(v))
                && self.value(v).leq(self.upper(v)) by {
                assert(before.basic(v) == self.basic(v));
                if v != x {
                    assert(self.value(v) == before.value(v));
                    assert(before.lower(v).leq(before.value(v)));
                } else {
                    assert(self.lower(v) == o.lower(v));
                }
            }
            Engine::lemma_values_only(&before, self);
            Engine::lemma_update_consistent(&o, self, x, nv);
        }
        true
    }
}

impl Engine {
    /// The report of a change of `v`: its value and bounds, if listened.
    pub open spec fn report(&self, v: VarId) -> Seq<Notification> {
        if self.is_listened(v.0 as int) {
            seq![Notification { var: v, val: self.value(v.0 as int), lb: self.lower(v.0 as int), ub: self.upper(v.0 as int) }]
        } else {
            Seq::empty()
        }
    }

    /// The reports of changes of `vs`, in order.
    pub open spec fn reports(&self, vs: Seq<VarId>) -> Seq<Notification>
        decreases vs.len(),
    {
        if vs.len() == 0 {
            Seq::empty()
        } else {
            self.reports(vs.drop_last()) + self.report(vs.last())
        }
    }

    /// Everything but the reported changes is as in `o`.
    closed spec fn same_but_events(&self, o: &Engine) -> bool {
        &&& self.keeps_structure(o)
        &&& self.assignments@ == o.assignments@
    }

    proof fn lemma_same_reports(e: &Engine, o: &Engine, vs: Seq<VarId>)
        requires
            e.same_but_events(o),
        ensures
            e.reports(vs) == o.reports(vs),
        decreases vs.len(),
    {
        if vs.len() > 0 {
            Engine::lemma_same_reports(e, o, vs.drop_last());
            assert(e.report(vs.last()) == o.report(vs.last()));
        }
    }

    /// Reports a change of `v` if it is listened.
    fn notify(&mut self, v: VarId)
        requires
            old(self).shape(),
            v.0 < old(self).num_vars(),
        ensures
            final(self).shape(),
            final(self).same_but_events(old(self)),
            final(self).events() == old(self).events() + old(self).report(v),
    {
        if self.listened[v.0] {
            let val = self.value_at(v);
            let lb = self.lower_at(v);
            let ub = self.upper_at(v);
            self.notifications.push(Notification { var: v, val, lb, ub });
        }
        proof {
            Engine::lemma_frame_rows(old(self), self);
            Engine::lemma_frame_guards(old(self), self);
            Engine::lemma_frame_bounds(old(self), self);
        }
    }

    /// Reports a change of every basic variable whose row contains `var`,
    /// then of `var` itself.
    fn notify_update(&mut self, var: VarId)
        requires
            old(self).shape(),
            var.0 < old(self).num_vars(),
        ensures
            final(self).shape(),
            final(self).same_but_events(old(self)),
            final(self).events() == old(self).events() + old(self).reports(
                old(self).watchers(var.0 as int).push(var),
            ),
    {
        let ghost o = *old(self);
        let ghost ws = o.watchers(var.0 as int);
        proof {
            o.lemma_watchers(var.0 as int);
        }
        let n = self.t_watches[var.0].len();
        for i in 0..n
            invariant
                n == ws.len(),
                ws == o.watchers(var.0 as int),
                var.0 < o.num_vars(),
                o == *old(self),
                self.shape(),
                self.same_but_events(&o),
                forall|j: int| 0 <= j < ws.len() ==> (#[trigger] ws[j]).0 < o.num_vars(),
                self.events() == o.events() + o.reports(ws.take(i as int)),
        {
            let w = self.t_watches[var.0][i];
            let ghost before = *self;
            proof {
                assert(w == ws[i as int]);
            }
            self.notify(w);
            proof {
                assert(ws.take(i + 1).drop_last() == ws.take(i as int));
                Engine::lemma_same_reports(&before, &o, seq![w]);
                assert(before.report(w) == o.report(w)) by {
                    assert(seq![w].drop_last() == Seq::<VarId>::empty());
                }
                assert(self.events() == o.events() + o.reports(ws.take(i + 1)));
            }
        }
        let ghost before = *self;
        self.notify(var);
        proof {
            assert(ws.take(n as int) == ws);
            assert(ws.push(var).drop_last() == ws);
            assert(before.report(var) == o.report(var));
        }
    }
}

impl Engine {
    /// `self` is `o` but for the lower bounds of `x` and the guards' records.
    closed spec fn differs_in_lower(&self, o: &Engine, x: int) -> bool {
        &&& self.assignments@ == o.assignments@
        &&& self.ubs@ == o.ubs@
        &&& self.tableau@ == o.tableau@
        &&& self.t_watches@ == o.t_watches@
        &&& self.listened@ == o.listened@
        &&& self.notifications@ == o.notifications@
        &&& self.lbs@.len() == o.lbs@.len()
        &&& forall|v: int| 0 <= v < o.lbs@.len() && v != x ==> #[trigger] self.lbs@[v] == o.lbs@[v]
        &&& self.guard_bounds@.len() == o.guard_bounds@.len()
    }

    /// `self` is `o` but for the upper bounds of `x` and the guards' records.
    closed spec fn differs_in_upper(&self, o: &Engine, x: int) -> bool {
        &&& self.assignments@ == o.assignments@
        &&& self.lbs@ == o.lbs@
        &&& self.tableau@ == o.tableau@
        &&& self.t_watches@ == o.t_watches@
        &&& self.listened@ == o.listened@
        &&& self.notifications@ == o.notifications@
        &&& self.ubs@.len() == o.ubs@.len()
        &&& forall|v: int| 0 <= v < o.ubs@.len() && v != x ==> #[trigger] self.ubs@[v] == o.ubs@[v]
        &&& self.guard_bounds@.len() == o.guard_bounds@.len()
    }

    /// New lower bounds of `x` drawn from the old ones and `lb`, where `lb`
    /// fits under the upper bound and the value of `x`, keep the invariant.
    #[verifier::spinoff_prover]
    proof fn lemma_lower_changed(o: &Engine, e: &Engine, x: int, lb: InfRational)
        requires
            o.shape(),
            e.differs_in_lower(o, x),
            e.guards_ok(),
            0 <= x < o.num_vars(),
            bounds_ok(e.lower_entries(x), o.num_guards()),
            within_values(o.lower_entries(x), e.lower_entries(x), lb),
            lb.wf(),
            lb.leq(o.upper(x)),
            !o.basic(x) ==> lb.leq(o.value(x)),
        ensures
            e.shape(),
    {
        Engine::lemma_frame_rows(o, e);
        let ng = o.num_guards();
        assert forall|v: int| 0 <= v < e.num_vars() implies (#[trigger] e.value(v)).wf() && e.value(v).is_fin() by {
            assert(o.value(v).wf());
        }
        assert forall|v: int| 0 <= v < e.num_vars() implies bounds_ok(#[trigger] e.lower_entries(v), e.num_guards()) by {
            if v != x {
                assert(e.lbs@[v] == o.lbs@[v]);
                assert(bounds_ok(o.lower_entries(v), ng));
            }
        }
        assert forall|v: int| 0 <= v < e.num_vars() implies bounds_ok(#[trigger] e.upper_entries(v), e.num_guards()) by {
            assert(bounds_ok(o.upper_entries(v), ng));
        }
        assert(bounds_ok(o.lower_entries(x), ng));
        assert(bounds_ok(o.upper_entries(x), ng));
        lemma_extremes(o.upper_entries(x), ng);
        lemma_extremes(o.lower_entries(x), ng);
        if o.upper_entries(x).len() > 0 {
            lemma_finite_between(o.upper(x));
        } else {
            lemma_inf_order(neg_inf(), neg_inf(), pos_inf());
        }
        assert(o.lower(x).leq(o.upper(x)));
        lemma_lower_within(o.lower_entries(x), e.lower_entries(x), ng, lb, o.upper(x));
        assert forall|v: int| 0 <= v < e.num_vars() implies (#[trigger] e.lower(v)).leq(e.upper(v)) by {
            if v != x {
                assert(e.lbs@[v] == o.lbs@[v]);
                assert(o.lower(v).leq(o.upper(v)));
            }
        }
        assert forall|v: int| 0 <= v < e.num_vars() && !e.basic(v) implies (#[trigger] e.lower(v)).leq(e.value(v))
            && e.value(v).leq(e.upper(v)) by {
            assert(o.basic(v) == e.basic(v));
            assert(o.lower(v).leq(o.value(v)));
            if v == x {
                assert(o.value(x).wf() && o.value(x).is_fin());
                lemma_finite_between(o.value(x));
                lemma_lower_within(o.lower_entries(x), e.lower_entries(x), ng, lb, o.value(x));
            } else {
                assert(e.lbs@[v] == o.lbs@[v]);
            }
        }
    }

    /// New upper bounds of `x` drawn from the old ones and `ub`, where `ub`
    /// fits over the lower bound and the value of `x`, keep the invariant.
    #[verifier::spinoff_prover]
    proof fn lemma_upper_changed(o: &Engine, e: &Engine, x: int, ub: InfRational)
        requires
            o.shape(),
            e.differs_in_upper(o, x),
            e.guards_ok(),
            0 <= x < o.num_vars(),
            bounds_ok(e.upper_entries(x), o.num_guards()),
            within_values(o.upper_entries(x), e.upper_entries(x), ub),
            ub.wf(),
            o.lower(x).leq(ub),
            !o.basic(x) ==> o.value(x).leq(ub),
        ensures
            e.shape(),
    {
        Engine::lemma_frame_rows(o, e);
        let ng = o.num_guards();
        assert forall|v: int| 0 <= v < e.num_vars() implies (#[trigger] e.value(v)).wf() && e.value(v).is_fin() by {
            assert(o.value(v).wf());
        }
        assert forall|v: int| 0 <= v < e.num_vars() implies bounds_ok(#[trigger] e.upper_entries(v), e.num_guards()) by {
            if v != x {
                assert(e.ubs@[v] == o.ubs@[v]);
                assert(bounds_ok(o.upper_entries(v), ng));
            }
        }
        assert forall|v: int| 0 <= v < e.num_vars() implies bounds_ok(#[trigger] e.lower_entries(v), e.num_guards()) by {
            assert(bounds_ok(o.lower_entries(v), ng));
        }
        assert(bounds_ok(o.lower_entries(x), ng));
        assert(bounds_ok(o.upper_entries(x), ng));
        lemma_extremes(o.upper_entries(x), ng);
        lemma_extremes(o.lower_entries(x), ng);
        if o.lower_entries(x).len() > 0 {
            lemma_finite_between(o.lower(x));
        } else {
            lemma_inf_order(neg_inf(), neg_inf(), pos_inf());
        }
        assert(o.lower(x).leq(o.upper(x)));
        lemma_upper_within(o.upper_entries(x), e.upper_entries(x), ng, ub, o.lower(x));
        assert forall|v: int| 0 <= v < e.num_vars() implies (#[trigger] e.lower(v)).leq(e.upper(v)) by {
            if v != x {
                assert(e.ubs@[v] == o.ubs@[v]);
                assert(o.lower(v).leq(o.upper(v)));
            }
        }
        assert forall|v: int| 0 <= v < e.num_vars() && !e.basic(v) implies (#[trigger] e.lower(v)).leq(e.value(v))
            && e.value(v).leq(e.upper(v)) by {
            assert(o.basic(v) == e.basic(v));
            assert(o.lower(v).leq(o.value(v)));
            if v == x {
                assert(o.value(x).wf() && o.value(x).is_fin());
                lemma_finite_between(o.value(x));
                lemma_upper_within(o.upper_entries(x), e.upper_entries(x), ng, ub, o.value(x));
            } else {
                assert(e.ubs@[v] == o.ubs@[v]);
            }
        }
    }
}

/// A copy of a guard's records.
fn copy_records(v: &Vec<(VarId, InfRational)>) -> (r: Vec<(VarId, InfRational)>)
    ensures
        r@ == v@,
{
    let mut r: Vec<(VarId, InfRational)> = Vec::new();
    for i in 0..v.len()
        invariant
            r@ == v@.take(i as int),
    {
        r.push(v[i]);
        proof {
            assert(v@.take(i + 1) == v@.take(i as int).push(v@[i as int]));
        }
    }
    proof {
        assert(v@.take(v@.len() as int) == v@);
    }
    r
}

/// The guard as a list of zero or one guards.
pub open spec fn opt_seq(guard: Option<GuardId>) -> Seq<GuardId> {
    match guard {
        Some(g) => seq![g],
        None => Seq::empty(),
    }
}

impl Engine {
    /// Same variables, guards, tableau rows and listened variables as `o`.
    pub open spec fn same_tableau(&self, o: &Engine) -> bool {
        &&& self.num_vars() == o.num_vars()
        &&& self.num_guards() == o.num_guards()
        &&& forall|v: int| 0 <= v < o.num_vars() ==> {
            &&& #[trigger] self.basic(v) == o.basic(v)
            &&& (o.basic(v) ==> self.row(v) == o.row(v))
            &&& self.is_listened(v) == o.is_listened(v)
        }
    }

    /// Setting a lower bound `lb` moves `x`: it is non-basic and below `lb`.
    pub open spec fn raises(&self, x: int, lb: InfRational) -> bool {
        !self.basic(x) && self.value(x).less(lb)
    }

    /// Setting an upper bound `ub` moves `x`: it is non-basic and above `ub`.
    pub open spec fn lowers(&self, x: int, ub: InfRational) -> bool {
        !self.basic(x) && ub.less(self.value(x))
    }

    /// The lower bounds of `x` once `lb` is set under `guard`: without a
    /// guard the value `lb` is added; with one, the guard goes on the entry
    /// of `lb`, leaving the bound it recorded on `x` when that one is below
    /// `lb`.
    pub open spec fn lower_after(&self, x: int, lb: InfRational, guard: Option<GuardId>) -> Seq<BV> {
        let s = self.lower_entries(x);
        match guard {
            Some(g) => if self.pending_lbs(g.0 as int).contains_key(x as usize) && self.pending_lbs(
                g.0 as int,
            )[x as usize].less(lb) {
                with_guard(without_guard(s, self.pending_lbs(g.0 as int)[x as usize], g), lb, g)
            } else {
                with_guard(s, lb, g)
            },
            None => with_value(s, lb),
        }
    }

    /// The upper bounds of `x` once `ub` is set under `guard`: without a
    /// guard the value `ub` is added; with one, the guard goes on the entry
    /// of `ub`, leaving the bound it recorded on `x` when that one is above
    /// `ub`.
    pub open spec fn upper_after(&self, x: int, ub: InfRational, guard: Option<GuardId>) -> Seq<BV> {
        let s = self.upper_entries(x);
        match guard {
            Some(g) => if self.pending_ubs(g.0 as int).contains_key(x as usize) && ub.less(
                self.pending_ubs(g.0 as int)[x as usize],
            ) {
                with_guard(without_guard(s, self.pending_ubs(g.0 as int)[x as usize], g), ub, g)
            } else {
                with_guard(s, ub, g)
            },
            None => with_value(s, ub),
        }
    }

    /// The guards blamed when a lower bound exceeds the upper bound of `x`:
    /// `guard`, then those of the tightest upper bound.
    pub open spec fn lb_conflict(&self, x: int, guard: Option<GuardId>) -> Seq<GuardId> {
        opt_seq(guard) + self.upper_entries(x)[0].1
    }

    /// The guards blamed when an upper bound is below the lower bound of `x`:
    /// `guard`, then those of the tightest lower bound.
    pub open spec fn ub_conflict(&self, x: int, guard: Option<GuardId>) -> Seq<GuardId> {
        opt_seq(guard) + self.lower_entries(x).last().1
    }

    /// The records of the guards once `guard` (if any) records `lb` on `x`.
    pub open spec fn pending_lbs_after(&self, g: int, x: int, lb: InfRational, guard: Option<GuardId>) -> Map<usize, InfRational> {
        if guard is Some && guard.unwrap().0 == g {
            self.pending_lbs(g).insert(x as usize, max_lb(self.pending_lbs(g), x as usize, lb))
        } else {
            self.pending_lbs(g)
        }
    }

    /// The records of the guards once `guard` (if any) records `ub` on `x`.
    pub open spec fn pending_ubs_after(&self, g: int, x: int, ub: InfRational, guard: Option<GuardId>) -> Map<usize, InfRational> {
        if guard is Some && guard.unwrap().0 == g {
            self.pending_ubs(g).insert(x as usize, min_ub(self.pending_ubs(g), x as usize, ub))
        } else {
            self.pending_ubs(g)
        }
    }

    /// Copies the guards of entry `i` of `list` after `guard` (if any).
    fn blame(guard: Option<GuardId>, list: &Vec<BoundEntry>, i: usize) -> (c: Vec<GuardId>)
        requires
            i < list.len(),
        ensures
            c@ == opt_seq(guard) + list@[i as int].guards@,
    {
        let mut c: Vec<GuardId> = Vec::new();
        match guard {
            Some(g) => c.push(g),
            None => {},
        }
        let gs = &list[i].guards;
        let mut j: usize = 0;
        while j < gs.len()
            invariant
                j <= gs@.len(),
                gs@ == list@[i as int].guards@,
                c@ == opt_seq(guard) + gs@.take(j as int),
            decreases gs@.len() - j,
        {
            c.push(gs[j]);
            proof {
                assert(gs@.take(j + 1) == gs@.take(j as int).push(gs@[j as int]));
            }
            j = j + 1;
        }
        proof {
            assert(gs@.take(j as int) == gs@);
        }
        c
    }

    /// Records the lower bound `lb` on `var` under `guard`, where `lb` fits
    /// under the upper bound and, for a non-basic `var`, under its value.
    fn record_lb(&mut self, var: VarId, lb: InfRational, guard: Option<GuardId>)
        requires
            old(self).shape(),
            var.0 < old(self).num_vars(),
            lb.wf(),
            lb.is_fin(),
            guard matches Some(g) ==> g.0 < old(self).num_guards(),
            lb.leq(old(self).upper(var.0 as int)),
            !old(self).basic(var.0 as int) ==> lb.leq(old(self).value(var.0 as int)),
        ensures
            final(self).shape(),
            final(self).differs_in_lower(old(self), var.0 as int),
            final(self).lower_entries(var.0 as int) == old(self).lower_after(var.0 as int, lb, guard),
            forall|g: int| 0 <= g < old(self).num_guards() ==> {
                &&& #[trigger] final(self).pending_lbs(g) == old(self).pending_lbs_after(g, var.0 as int, lb, guard)
                &&& final(self).pending_ubs(g) == old(self).pending_ubs(g)
            },
    {
        let x = var.0;
        let ghost u = *old(self);
        let ghost ng = u.num_guards();
        let ghost nv = u.num_vars();
        proof {
            assert(bounds_ok(u.lower_entries(x as int), ng));
        }
        match guard {
            Some(g) => {
                proof {
                    assert(u.guard_bounds@[g.0 as int].wf(nv));
                }
                match crate::terms::find_key(&self.guard_bounds[g.0].lbs, x) {
                    Ok(i) => {
                        let c = self.guard_bounds[g.0].lbs[i].1;
                        proof {
                            lemma_term_index(u.guard_bounds@[g.0 as int].lbs@, i as int);
                        }
                        if c.less_than(&lb) {
                            remove_guard(&mut self.lbs[x], c, g, Ghost(ng));
                            insert_guard(&mut self.lbs[x], lb, g, Ghost(ng));
                            proof {
                                lemma_replace_within(u.lower_entries(x as int), ng, c, lb, g);
                            }
                        } else {
                            insert_guard(&mut self.lbs[x], lb, g, Ghost(ng));
                            proof {
                                lemma_replace_within(u.lower_entries(x as int), ng, lb, lb, g);
                            }
                        }
                    },
                    Err(_) => {
                        insert_guard(&mut self.lbs[x], lb, g, Ghost(ng));
                        proof {
                            lemma_replace_within(u.lower_entries(x as int), ng, lb, lb, g);
                        }
                    },
                }
                self.guard_bounds[g.0].set_lb(var, lb, Ghost(nv));
            },
            None => {
                insert_value(&mut self.lbs[x], lb, Ghost(ng));
                proof {
                    lemma_replace_within(u.lower_entries(x as int), ng, lb, lb, GuardId(0));
                }
            },
        }
        proof {
            assert(self.lower_entries(x as int) == u.lower_after(x as int, lb, guard));
            assert forall|gi: int| 0 <= gi < self.num_guards() implies (#[trigger] self.guard_bounds@[gi]).wf(self.num_vars()) by {
                assert(u.guard_bounds@[gi].wf(nv));
            }
            assert(self.differs_in_lower(&u, x as int));
            Engine::lemma_lower_changed(&u, self, x as int, lb);
        }
        proof {
            assert forall|g: int| 0 <= g < ng implies {
                &&& #[trigger] self.pending_lbs(g) == u.pending_lbs_after(g, x as int, lb, guard)
                &&& self.pending_ubs(g) == u.pending_ubs(g)
            } by {
                match guard {
                    Some(gg) => {
                        if gg.0 as int != g {
                            assert(self.guard_bounds@[g] == u.guard_bounds@[g]);
                        }
                    },
                    None => {
                        assert(self.guard_bounds@[g] == u.guard_bounds@[g]);
                    },
                }
            }
        }
    }

    /// The successful outcome of setting a lower bound, from its parts.
    proof fn lemma_lb_effect_ok(o: &Engine, f: &Engine, var: VarId, b: InfRational, guard: Option<GuardId>)
        requires
            b.is_fin(),
            !(o.upper(var.0 as int).less(b)),
            o.raises(var.0 as int, b) ==> o.update_ok(var.0 as int, b),
            f.same_tableau(o),
            f.lower_entries(var.0 as int) == o.lower_after(var.0 as int, b, guard),
            forall|v: int| #![trigger f.lower_entries(v)] #![trigger f.upper_entries(v)] #![trigger f.value(v)]
                0 <= v < o.num_vars() ==> {
                &&& (v != var.0 as int ==> f.lower_entries(v) == o.lower_entries(v))
                &&& f.upper_entries(v) == o.upper_entries(v)
                &&& f.value(v) == if o.raises(var.0 as int, b) {
                    o.updated(v, var.0 as int, b)
                } else {
                    o.value(v)
                }
            },
            forall|g: int| 0 <= g < o.num_guards() ==> {
                &&& #[trigger] f.pending_lbs(g) == o.pending_lbs_after(g, var.0 as int, b, guard)
                &&& f.pending_ubs(g) == o.pending_ubs(g)
            },
            f.events() == o.events() + if o.raises(var.0 as int, b) {
                f.reports(o.watchers(var.0 as int).push(var))
            } else if !f.lower(var.0 as int).same(o.lower(var.0 as int)) {
                f.report(var)
            } else {
                Seq::empty()
            },
        ensures
            o.lb_effect(f, var, b, guard, Ok(())),
    {
    }

    /// What setting the lower bound `lb` on `var` under `guard` does, taking
    /// `self` to `f` with result `r`: a conflict when the bound crosses the
    /// opposite one; `Overflow` when the values cannot follow; otherwise the
    /// bound is recorded as [`Engine::lower_after`] says, the guard records
    /// it, and a non-basic `var` on the wrong side moves onto the bound.
    pub open spec fn lb_effect(&self, f: &Engine, var: VarId, lb: InfRational, guard: Option<GuardId>, r: Result<(), PropagationError>) -> bool {
        let x = var.0 as int;
        &&& (self.upper(x).less(lb) ==> (r matches Err(PropagationError::Conflict(c)) && c@ == self.lb_conflict(x, guard)))
        &&& (!(self.upper(x).less(lb)) && !lb.is_fin() ==> r matches Err(PropagationError::Overflow))
        &&& (!(self.upper(x).less(lb)) && self.raises(x, lb) && !self.update_ok(x, lb) ==> r matches Err(PropagationError::Overflow))
        &&& r is Ok <==> !(self.upper(x).less(lb)) && lb.is_fin() && (self.raises(x, lb) ==> self.update_ok(x, lb))
        &&& r is Err ==> *f == *self
        &&& r is Ok ==> f.same_tableau(self)
        &&& r is Ok ==> f.lower_entries(x) == self.lower_after(x, lb, guard)
        &&& r is Ok ==> forall|v: int| #![trigger f.lower_entries(v)] #![trigger f.upper_entries(v)] #![trigger f.value(v)]
            0 <= v < self.num_vars() ==> {
                &&& (v != x ==> f.lower_entries(v) == self.lower_entries(v))
                &&& f.upper_entries(v) == self.upper_entries(v)
                &&& f.value(v) == if self.raises(x, lb) {
                    self.updated(v, x, lb)
                } else {
                    self.value(v)
                }
            }
        &&& r is Ok ==> forall|g: int| 0 <= g < self.num_guards() ==> {
                &&& #[trigger] f.pending_lbs(g) == self.pending_lbs_after(g, x, lb, guard)
                &&& f.pending_ubs(g) == self.pending_ubs(g)
            }
        &&& r is Ok ==> f.events() == self.events() + if self.raises(x, lb) {
                f.reports(self.watchers(x).push(var))
            } else if !f.lower(x).same(self.lower(x)) {
                f.report(var)
            } else {
                Seq::empty()
            }
    }

    /// Asserts `var >= lb`, attributed to `guard` when one is given.
    ///
    /// When `lb` exceeds the upper bound of `var`, the conflict names `guard`
    /// and the guards of that upper bound, and nothing changes. An `lb` with
    /// an infinite part that does not cross it gives `Overflow`, nothing
    /// changed: values and bounds are finite here. Otherwise the
    /// bound is recorded (see [`Engine::lower_after`]); the guard records it
    /// too; and a non-basic `var` below `lb` moves up to `lb`, the basic
    /// variables depending on it following.
    #[verifier::spinoff_prover]
    #[verifier::rlimit(30)]
    pub fn set_lb(&mut self, var: VarId, lb: InfRational, guard: Option<GuardId>) -> (r: Result<(), PropagationError>)
        requires
            old(self).inv(),
            var.0 < old(self).num_vars(),
            lb.wf(),
            neg_inf().less(lb),
            old(self).upper(var.0 as int).less(lb) ==> old(self).upper(var.0 as int).is_fin(),
            guard matches Some(g) ==> g.0 < old(self).num_guards(),
        ensures
            final(self).inv(),
            old(self).lb_effect(final(self), var, lb, guard, r),
    {
        let x = var.0;
        let ghost o = *old(self);
        let ghost ng = o.num_guards();
        let ghost nv = o.num_vars();
        let before_bound = self.lower_at(var);
        let ub = self.upper_at(var);
        if ub.less_than(&lb) {
            proof {
                if o.upper_entries(x as int).len() == 0 && lb.is_fin() {
                    lemma_finite_between(lb);
                    lemma_inf_order(lb, pos_inf(), lb);
                }
            }
            let c = Engine::blame(guard, &self.ubs[x], 0);
            return Err(PropagationError::Conflict(c));
        }
        if !lb.is_finite() {
            return Err(PropagationError::Overflow);
        }
        proof {
            assert(o.value(x as int).wf());
            lemma_inf_order(lb, ub, ub);
        }
        let raise = !self.is_basic(var) && self.assignments[x].less_than(&lb);
        if raise {
            proof {
                assert(o.lower(x as int).leq(o.value(x as int)));
                assert(bounds_ok(o.lower_entries(x as int), ng));
                lemma_extremes(o.lower_entries(x as int), ng);
                lemma_inf_order(o.lower(x as int), o.value(x as int), lb);
            }
            if !self.update(var, lb) {
                return Err(PropagationError::Overflow);
            }
        }
        let ghost u = *self;
        proof {
            assert(u.lower_entries(x as int) == o.lower_entries(x as int));
            assert(u.upper(x as int) == o.upper(x as int));
            assert(!u.basic(x as int) ==> lb.leq(u.value(x as int))) by {
                if !u.basic(x as int) {
                    assert(u.value(x as int).wf());
                    lemma_inf_order(lb, u.value(x as int), lb);
                }
            }
            assert forall|g: int| 0 <= g < ng implies #[trigger] u.pending_lbs(g) == o.pending_lbs(g) && u.pending_ubs(g) == o.pending_ubs(g) by {
                assert(u.guard_bounds@[g] == o.guard_bounds@[g]);
            }
        }
        self.record_lb(var, lb, guard);
        let ghost rs = *self;
        proof {
            assert forall|v: int| #![trigger self.lower_entries(v)] #![trigger self.upper_entries(v)] #![trigger self.value(v)]
                0 <= v < o.num_vars() implies {
                &&& (v != x ==> self.lower_entries(v) == o.lower_entries(v))
                &&& self.upper_entries(v) == o.upper_entries(v)
                &&& self.value(v) == if o.raises(x as int, lb) {
                    o.updated(v, x as int, lb)
                } else {
                    o.value(v)
                }
            } by {
                if v != x {
                    assert(self.lbs@[v] == u.lbs@[v]);
                }
                assert(self.value(v) == u.value(v));
            }
            assert(self.same_tableau(&o));
        }
        if raise {
            let ghost before = *self;
            self.notify_update(var);
            proof {
                Engine::lemma_same_reports(self, &before, o.watchers(x as int).push(var));
                assert(before.watchers(x as int) == o.watchers(x as int));
            }
        } else if !self.lower_at(var).same_value(&before_bound) {
            let ghost before = *self;
            self.notify(var);
            proof {
                Engine::lemma_same_reports(self, &before, seq![var]);
                assert(seq![var].drop_last() =~= Seq::<VarId>::empty());
                assert(self.reports(Seq::<VarId>::empty()) == Seq::<Notification>::empty());
                assert(before.reports(Seq::<VarId>::empty()) == Seq::<Notification>::empty());
                assert(self.reports(seq![var]) =~= self.report(var));
                assert(self.report(var) == before.report(var));
            }
        } else {
            proof {
                assert(self.events() == o.events() + Seq::<Notification>::empty());
            }
        }
        proof {
            assert(self.same_tableau(&o));
            assert(self.lower_entries(x as int) == o.lower_after(x as int, lb, guard));
            assert forall|g: int| 0 <= g < o.num_guards() implies {
                &&& #[trigger] self.pending_lbs(g) == o.pending_lbs_after(g, x as int, lb, guard)
                &&& self.pending_ubs(g) == o.pending_ubs(g)
            } by {
                assert(self.guard_bounds@[g] == rs.guard_bounds@[g]);
                assert(rs.pending_lbs(g) == u.pending_lbs_after(g, x as int, lb, guard));
                assert(u.pending_lbs(g) == o.pending_lbs(g) && u.pending_ubs(g) == o.pending_ubs(g));
            }
            assert forall|v: int| #![trigger self.lower_entries(v)] #![trigger self.upper_entries(v)] #![trigger self.value(v)]
                0 <= v < o.num_vars() implies {
                &&& (v != x ==> self.lower_entries(v) == o.lower_entries(v))
                &&& self.upper_entries(v) == o.upper_entries(v)
                &&& self.value(v) == if o.raises(x as int, lb) {
                    o.updated(v, x as int, lb)
                } else {
                    o.value(v)
                }
            } by {
                assert(self.lbs@[v] == rs.lbs@[v]);
                assert(self.ubs@[v] == rs.ubs@[v]);
                assert(self.assignments@[v] == rs.assignments@[v]);
                assert(v != x ==> rs.lower_entries(v) == o.lower_entries(v));
                assert(rs.upper_entries(v) == o.upper_entries(v));
            }
            assert(!(o.upper(x as int).less(lb)));
            assert(o.raises(x as int, lb) == raise);
            assert(o.raises(x as int, lb) ==> o.update_ok(x as int, lb));
            assert(self.events() == o.events() + if o.raises(x as int, lb) {
                self.reports(o.watchers(x as int).push(var))
            } else if !self.lower(x as int).same(o.lower(x as int)) {
                self.report(var)
            } else {
                Seq::empty()
            });
            Engine::lemma_lb_effect_ok(&o, self, var, lb, guard);
        }
        Ok(())
    }

    /// Records the upper bound `ub` on `var` under `guard`, where `ub` fits
    /// over the lower bound and, for a non-basic `var`, over its value.
    fn record_ub(&mut self, var: VarId, ub: InfRational, guard: Option<GuardId>)
        requires
            old(self).shape(),
            var.0 < old(self).num_vars(),
            ub.wf(),
            ub.is_fin(),
            guard matches Some(g) ==> g.0 < old(self).num_guards(),
            old(self).lower(var.0 as int).leq(ub),
            !old(self).basic(var.0 as int) ==> old(self).value(var.0 as int).leq(ub),
        ensures
            final(self).shape(),
            final(self).differs_in_upper(old(self), var.0 as int),
            final(self).upper_entries(var.0 as int) == old(self).upper_after(var.0 as int, ub, guard),
            forall|g: int| 0 <= g < old(self).num_guards() ==> {
                &&& #[trigger] final(self).pending_ubs(g) == old(self).pending_ubs_after(g, var.0 as int, ub, guard)
                &&& final(self).pending_lbs(g) == old(self).pending_lbs(g)
            },
    {
        let x = var.0;
        let ghost u = *old(self);
        let ghost ng = u.num_guards();
        let ghost nv = u.num_vars();
        proof {
            assert(bounds_ok(u.upper_entries(x as int), ng));
        }
        match guard {
            Some(g) => {
                proof {
                    assert(u.guard_bounds@[g.0 as int].wf(nv));
                }
                match crate::terms::find_key(&self.guard_bounds[g.0].ubs, x) {
                    Ok(i) => {
                        let c = self.guard_bounds[g.0].ubs[i].1;
                        proof {
                            lemma_term_index(u.guard_bounds@[g.0 as int].ubs@, i as int);
                        }
                        if ub.less_than(&c) {
                            remove_guard(&mut self.ubs[x], c, g, Ghost(ng));
                            insert_guard(&mut self.ubs[x], ub, g, Ghost(ng));
                            proof {
                                lemma_replace_within(u.upper_entries(x as int), ng, c, ub, g);
                            }
                        } else {
                            insert_guard(&mut self.ubs[x], ub, g, Ghost(ng));
                            proof {
                                lemma_replace_within(u.upper_entries(x as int), ng, ub, ub, g);
                            }
                        }
                    },
                    Err(_) => {
                        insert_guard(&mut self.ubs[x], ub, g, Ghost(ng));
                        proof {
                            lemma_replace_within(u.upper_entries(x as int), ng, ub, ub, g);
                        }
                    },
                }
                self.guard_bounds[g.0].set_ub(var, ub, Ghost(nv));
            },
            None => {
                insert_value(&mut self.ubs[x], ub, Ghost(ng));
                proof {
                    lemma_replace_within(u.upper_entries(x as int), ng, ub, ub, GuardId(0));
                }
            },
        }
        proof {
            assert(self.upper_entries(x as int) == u.upper_after(x as int, ub, guard));
            assert forall|gi: int| 0 <= gi < self.num_guards() implies (#[trigger] self.guard_bounds@[gi]).wf(self.num_vars()) by {
                assert(u.guard_bounds@[gi].wf(nv));
            }
            assert(self.differs_in_upper(&u, x as int));
            Engine::lemma_upper_changed(&u, self, x as int, ub);
        }
        proof {
            assert forall|g: int| 0 <= g < ng implies {
                &&& #[trigger] self.pending_ubs(g) == u.pending_ubs_after(g, x as int, ub, guard)
                &&& self.pending_lbs(g) == u.pending_lbs(g)
            } by {
                match guard {
                    Some(gg) => {
                        if gg.0 as int != g {
                            assert(self.guard_bounds@[g] == u.guard_bounds@[g]);
                        }
                    },
                    None => {
                        assert(self.guard_bounds@[g] == u.guard_bounds@[g]);
                    },
                }
            }
        }
    }

    /// The successful outcome of setting a upper bound, from its parts.
    proof fn lemma_ub_effect_ok(o: &Engine, f: &Engine, var: VarId, b: InfRational, guard: Option<GuardId>)
        requires
            b.is_fin(),
            !(b.less(o.lower(var.0 as int))),
            o.lowers(var.0 as int, b) ==> o.update_ok(var.0 as int, b),
            f.same_tableau(o),
            f.upper_entries(var.0 as int) == o.upper_after(var.0 as int, b, guard),
            forall|v: int| #![trigger f.lower_entries(v)] #![trigger f.upper_entries(v)] #![trigger f.value(v)]
                0 <= v < o.num_vars() ==> {
                &&& (v != var.0 as int ==> f.upper_entries(v) == o.upper_entries(v))
                &&& f.lower_entries(v) == o.lower_entries(v)
                &&& f.value(v) == if o.lowers(var.0 as int, b) {
                    o.updated(v, var.0 as int, b)
                } else {
                    o.value(v)
                }
            },
            forall|g: int| 0 <= g < o.num_guards() ==> {
                &&& #[trigger] f.pending_ubs(g) == o.pending_ubs_after(g, var.0 as int, b, guard)
                &&& f.pending_lbs(g) == o.pending_lbs(g)
            },
            f.events() == o.events() + if o.lowers(var.0 as int, b) {
                f.reports(o.watchers(var.0 as int).push(var))
            } else if !f.upper(var.0 as int).same(o.upper(var.0 as int)) {
                f.report(var)
            } else {
                Seq::empty()
            },
        ensures
            o.ub_effect(f, var, b, guard, Ok(())),
    {
    }

    /// What setting the upper bound `ub` on `var` under `guard` does, taking
    /// `self` to `f` with result `r`: a conflict when the bound crosses the
    /// opposite one; `Overflow` when the values cannot follow; otherwise the
    /// bound is recorded as [`Engine::upper_after`] says, the guard records
    /// it, and a non-basic `var` on the wrong side moves onto the bound.
    pub open spec fn ub_effect(&self, f: &Engine, var: VarId, ub: InfRational, guard: Option<GuardId>, r: Result<(), PropagationError>) -> bool {
        let x = var.0 as int;
        &&& (ub.less(self.lower(x)) ==> (r matches Err(PropagationError::Conflict(c)) && c@ == self.ub_conflict(x, guard)))
        &&& (!(ub.less(self.lower(x))) && !ub.is_fin() ==> r matches Err(PropagationError::Overflow))
        &&& (!(ub.less(self.lower(x))) && self.lowers(x, ub) && !self.update_ok(x, ub) ==> r matches Err(PropagationError::Overflow))
        &&& r is Ok <==> !(ub.less(self.lower(x))) && ub.is_fin() && (self.lowers(x, ub) ==> self.update_ok(x, ub))
        &&& r is Err ==> *f == *self
        &&& r is Ok ==> f.same_tableau(self)
        &&& r is Ok ==> f.upper_entries(x) == self.upper_after(x, ub, guard)
        &&& r is Ok ==> forall|v: int| #![trigger f.lower_entries(v)] #![trigger f.upper_entries(v)] #![trigger f.value(v)]
            0 <= v < self.num_vars() ==> {
                &&& (v != x ==> f.upper_entries(v) == self.upper_entries(v))
                &&& f.lower_entries(v) == self.lower_entries(v)
                &&& f.value(v) == if self.lowers(x, ub) {
                    self.updated(v, x, ub)
                } else {
                    self.value(v)
                }
            }
        &&& r is Ok ==> forall|g: int| 0 <= g < self.num_guards() ==> {
                &&& #[trigger] f.pending_ubs(g) == self.pending_ubs_after(g, x, ub, guard)
                &&& f.pending_lbs(g) == self.pending_lbs(g)
            }
        &&& r is Ok ==> f.events() == self.events() + if self.lowers(x, ub) {
                f.reports(self.watchers(x).push(var))
            } else if !f.upper(x).same(self.upper(x)) {
                f.report(var)
            } else {
                Seq::empty()
            }
    }

    /// Asserts `var <= ub`, attributed to `guard` when one is given.
    ///
    /// When `ub` is below the lower bound of `var`, the conflict names `guard`
    /// and the guards of that lower bound, and nothing changes. A `ub` with
    /// an infinite part that does not cross it gives `Overflow`, nothing
    /// changed: values and bounds are finite here. Otherwise the
    /// bound is recorded (see [`Engine::upper_after`]); the guard records it
    /// too; and a non-basic `var` above `ub` moves down to `ub`, the basic
    /// variables depending on it following.
    #[verifier::spinoff_prover]
    #[verifier::rlimit(30)]
    pub fn set_ub(&mut self, var: VarId, ub: InfRational, guard: Option<GuardId>) -> (r: Result<(), PropagationError>)
        requires
            old(self).inv(),
            var.0 < old(self).num_vars(),
            ub.wf(),
            ub.less(pos_inf()),
            ub.less(old(self).lower(var.0 as int)) ==> old(self).lower(var.0 as int).is_fin(),
            guard matches Some(g) ==> g.0 < old(self).num_guards(),
        ensures
            final(self).inv(),
            old(self).ub_effect(final(self), var, ub, guard, r),
    {
        let x = var.0;
        let ghost o = *old(self);
        let ghost ng = o.num_guards();
        let ghost nv = o.num_vars();
        let before_bound = self.upper_at(var);
        let lb = self.lower_at(var);
        if ub.less_than(&lb) {
            proof {
                if o.lower_entries(x as int).len() == 0 && ub.is_fin() {
                    lemma_finite_between(ub);
                    lemma_inf_order(ub, neg_inf(), ub);
                }
            }
            let last = self.lbs[x].len() - 1;
            let c = Engine::blame(guard, &self.lbs[x], last);
            return Err(PropagationError::Conflict(c));
        }
        if !ub.is_finite() {
            return Err(PropagationError::Overflow);
        }
        proof {
            assert(o.value(x as int).wf());
            assert(bounds_ok(o.lower_entries(x as int), ng));
            lemma_extremes(o.lower_entries(x as int), ng);
            lemma_inf_order(lb, ub, ub);
        }
        let raise = !self.is_basic(var) && ub.less_than(&self.assignments[x]);
        if raise {
            proof {
                assert(o.value(x as int).leq(o.upper(x as int)));
                assert(bounds_ok(o.upper_entries(x as int), ng));
                lemma_extremes(o.upper_entries(x as int), ng);
                lemma_inf_order(ub, o.value(x as int), o.upper(x as int));
            }
            if !self.update(var, ub) {
                return Err(PropagationError::Overflow);
            }
        }
        let ghost u = *self;
        proof {
            assert(u.upper_entries(x as int) == o.upper_entries(x as int));
            assert(u.lower(x as int) == o.lower(x as int));
            assert(!u.basic(x as int) ==> u.value(x as int).leq(ub)) by {
                if !u.basic(x as int) {
                    assert(u.value(x as int).wf());
                    lemma_inf_order(ub, u.value(x as int), ub);
                }
            }
            assert forall|g: int| 0 <= g < ng implies #[trigger] u.pending_ubs(g) == o.pending_ubs(g) && u.pending_lbs(g) == o.pending_lbs(g) by {
                assert(u.guard_bounds@[g] == o.guard_bounds@[g]);
            }
        }
        self.record_ub(var, ub, guard);
        let ghost rs = *self;
        proof {
            assert forall|v: int| #![trigger self.lower_entries(v)] #![trigger self.upper_entries(v)] #![trigger self.value(v)]
                0 <= v < o.num_vars() implies {
                &&& (v != x ==> self.upper_entries(v) == o.upper_entries(v))
                &&& self.lower_entries(v) == o.lower_entries(v)
                &&& self.value(v) == if o.lowers(x as int, ub) {
                    o.updated(v, x as int, ub)
                } else {
                    o.value(v)
                }
            } by {
                if v != x {
                    assert(self.ubs@[v] == u.ubs@[v]);
                }
                assert(self.value(v) == u.value(v));
            }
            assert(self.same_tableau(&o));
        }
        if raise {
            let ghost before = *self;
            self.notify_update(var);
            proof {
                Engine::lemma_same_reports(self, &before, o.watchers(x as int).push(var));
                assert(before.watchers(x as int) == o.watchers(x as int));
            }
        } else if !self.upper_at(var).same_value(&before_bound) {
            let ghost before = *self;
            self.notify(var);
            proof {
                Engine::lemma_same_reports(self, &before, seq![var]);
                assert(seq![var].drop_last() =~= Seq::<VarId>::empty());
                assert(self.reports(Seq::<VarId>::empty()) == Seq::<Notification>::empty());
                assert(before.reports(Seq::<VarId>::empty()) == Seq::<Notification>::empty());
                assert(self.reports(seq![var]) =~= self.report(var));
                assert(self.report(var) == before.report(var));
            }
        } else {
            proof {
                assert(self.events() == o.events() + Seq::<Notification>::empty());
            }
        }
        proof {
            assert(self.same_tableau(&o));
            assert(self.upper_entries(x as int) == o.upper_after(x as int, ub, guard));
            assert forall|g: int| 0 <= g < o.num_guards() implies {
                &&& #[trigger] self.pending_ubs(g) == o.pending_ubs_after(g, x as int, ub, guard)
                &&& self.pending_lbs(g) == o.pending_lbs(g)
            } by {
                assert(self.guard_bounds@[g] == rs.guard_bounds@[g]);
                assert(rs.pending_ubs(g) == u.pending_ubs_after(g, x as int, ub, guard));
                assert(u.pending_ubs(g) == o.pending_ubs(g) && u.pending_lbs(g) == o.pending_lbs(g));
            }
            assert forall|v: int| #![trigger self.lower_entries(v)] #![trigger self.upper_entries(v)] #![trigger self.value(v)]
                0 <= v < o.num_vars() implies {
                &&& (v != x ==> self.upper_entries(v) == o.upper_entries(v))
                &&& self.lower_entries(v) == o.lower_entries(v)
                &&& self.value(v) == if o.lowers(x as int, ub) {
                    o.updated(v, x as int, ub)
                } else {
                    o.value(v)
                }
            } by {
                assert(self.ubs@[v] == rs.ubs@[v]);
                assert(self.lbs@[v] == rs.lbs@[v]);
                assert(self.assignments@[v] == rs.assignments@[v]);
                assert(v != x ==> rs.upper_entries(v) == o.upper_entries(v));
                assert(rs.lower_entries(v) == o.lower_entries(v));
            }
            assert(!(ub.less(o.lower(x as int))));
            assert(o.lowers(x as int, ub) == raise);
            assert(o.lowers(x as int, ub) ==> o.update_ok(x as int, ub));
            assert(self.events() == o.events() + if o.lowers(x as int, ub) {
                self.reports(o.watchers(x as int).push(var))
            } else if !self.upper(x as int).same(o.upper(x as int)) {
                self.report(var)
            } else {
                Seq::empty()
            });
            Engine::lemma_ub_effect_ok(&o, self, var, ub, guard);
        }
        Ok(())
    }
}

impl Engine {
    /// Each state of `ss` is the one before once the lower bound that comes
    /// next in `bs` is set under guard `c`.
    pub open spec fn lbs_steps(ss: Seq<Engine>, c: GuardId, bs: Seq<(VarId, InfRational)>) -> bool {
        forall|j: int| 0 <= j < ss.len() - 1 ==> #[trigger] ss[j].lb_effect(&ss[j + 1], bs[j].0, bs[j].1, Some(c), Ok(()))
    }

    /// `t` is `self` once the first `i` lower bounds of `bs` are set under
    /// guard `c`, each without error.
    pub open spec fn sets_lbs(&self, t: &Engine, c: GuardId, bs: Seq<(VarId, InfRational)>, i: nat) -> bool {
        exists|ss: Seq<Engine>| #![trigger Engine::lbs_steps(ss, c, bs)] ss.len() == i + 1 && ss[0] == *self && ss[i as int] == *t
            && Engine::lbs_steps(ss, c, bs)
    }

    /// `t` is `self` once the lower bounds of `bs` before the `i`-th are
    /// set under guard `c`, for some `i`, and setting the `i`-th fails in `t`
    /// with `r`.
    pub open spec fn fails_lbs(&self, t: &Engine, c: GuardId, bs: Seq<(VarId, InfRational)>, r: Result<(), PropagationError>) -> bool {
        exists|i: int| 0 <= i < bs.len() && #[trigger] self.sets_lbs(t, c, bs, i as nat) && t.lb_effect(t, bs[i].0, bs[i].1, Some(c), r)
    }

    proof fn lemma_sets_lbs_none(o: &Engine, c: GuardId, bs: Seq<(VarId, InfRational)>)
        ensures
            o.sets_lbs(o, c, bs, 0),
    {
        let ss = seq![*o];
        assert(Engine::lbs_steps(ss, c, bs));
    }

    proof fn lemma_sets_lbs_more(o: &Engine, m: &Engine, t: &Engine, c: GuardId, bs: Seq<(VarId, InfRational)>, i: nat)
        requires
            o.sets_lbs(m, c, bs, i),
            m.lb_effect(t, bs[i as int].0, bs[i as int].1, Some(c), Ok(())),
        ensures
            o.sets_lbs(t, c, bs, i + 1),
    {
        let ss = choose|ss: Seq<Engine>| ss.len() == i + 1 && ss[0] == *o && ss[i as int] == *m && Engine::lbs_steps(ss, c, bs);
        let s2 = ss.push(*t);
        assert forall|j: int| 0 <= j < s2.len() - 1 implies #[trigger] s2[j].lb_effect(&s2[j + 1], bs[j].0, bs[j].1, Some(c), Ok(())) by {
            if j < i {
                assert(s2[j] == ss[j] && s2[j + 1] == ss[j + 1]);
                assert(ss[j].lb_effect(&ss[j + 1], bs[j].0, bs[j].1, Some(c), Ok(())));
            } else {
                assert(s2[j] == *m);
                assert(s2[j + 1] == *t);
            }
        }
        assert(Engine::lbs_steps(s2, c, bs));
        assert(s2.len() == i + 1 + 1 && s2[0] == *o && s2[(i + 1) as int] == *t);
    }

    /// Each state of `ss` is the one before once the upper bound that comes
    /// next in `bs` is set under guard `c`.
    pub open spec fn ubs_steps(ss: Seq<Engine>, c: GuardId, bs: Seq<(VarId, InfRational)>) -> bool {
        forall|j: int| 0 <= j < ss.len() - 1 ==> #[trigger] ss[j].ub_effect(&ss[j + 1], bs[j].0, bs[j].1, Some(c), Ok(()))
    }

    /// `t` is `self` once the first `i` upper bounds of `bs` are set under
    /// guard `c`, each without error.
    pub open spec fn sets_ubs(&self, t: &Engine, c: GuardId, bs: Seq<(VarId, InfRational)>, i: nat) -> bool {
        exists|ss: Seq<Engine>| #![trigger Engine::ubs_steps(ss, c, bs)] ss.len() == i + 1 && ss[0] == *self && ss[i as int] == *t
            && Engine::ubs_steps(ss, c, bs)
    }

    /// `t` is `self` once the upper bounds of `bs` before the `i`-th are
    /// set under guard `c`, for some `i`, and setting the `i`-th fails in `t`
    /// with `r`.
    pub open spec fn fails_ubs(&self, t: &Engine, c: GuardId, bs: Seq<(VarId, InfRational)>, r: Result<(), PropagationError>) -> bool {
        exists|i: int| 0 <= i < bs.len() && #[trigger] self.sets_ubs(t, c, bs, i as nat) && t.ub_effect(t, bs[i].0, bs[i].1, Some(c), r)
    }

    proof fn lemma_sets_ubs_none(o: &Engine, c: GuardId, bs: Seq<(VarId, InfRational)>)
        ensures
            o.sets_ubs(o, c, bs, 0),
    {
        let ss = seq![*o];
        assert(Engine::ubs_steps(ss, c, bs));
    }

    proof fn lemma_sets_ubs_more(o: &Engine, m: &Engine, t: &Engine, c: GuardId, bs: Seq<(VarId, InfRational)>, i: nat)
        requires
            o.sets_ubs(m, c, bs, i),
            m.ub_effect(t, bs[i as int].0, bs[i as int].1, Some(c), Ok(())),
        ensures
            o.sets_ubs(t, c, bs, i + 1),
    {
        let ss = choose|ss: Seq<Engine>| ss.len() == i + 1 && ss[0] == *o && ss[i as int] == *m && Engine::ubs_steps(ss, c, bs);
        let s2 = ss.push(*t);
        assert forall|j: int| 0 <= j < s2.len() - 1 implies #[trigger] s2[j].ub_effect(&s2[j + 1], bs[j].0, bs[j].1, Some(c), Ok(())) by {
            if j < i {
                assert(s2[j] == ss[j] && s2[j + 1] == ss[j + 1]);
                assert(ss[j].ub_effect(&ss[j + 1], bs[j].0, bs[j].1, Some(c), Ok(())));
            } else {
                assert(s2[j] == *m);
                assert(s2[j + 1] == *t);
            }
        }
        assert(Engine::ubs_steps(s2, c, bs));
        assert(s2.len() == i + 1 + 1 && s2[0] == *o && s2[(i + 1) as int] == *t);
    }

    /// Sets each lower bound of `lbs` under guard `c`, in order, stopping at
    /// the first error.
    #[verifier::spinoff_prover]
    fn assert_lbs(&mut self, c: GuardId, lbs: &Vec<(VarId, InfRational)>) -> (r: Result<(), PropagationError>)
        requires
            old(self).inv(),
            c.0 < old(self).num_guards(),
            pending_ok(lbs@, old(self).num_vars()),
            old(self).pending_lbs(c.0 as int) == term_map(lbs@),
        ensures
            final(self).same_stripped(old(self), c),
            forall|g: int| #![trigger final(self).pending_lbs(g)] #![trigger final(self).pending_ubs(g)] 0 <= g < old(self).num_guards()
                ==> final(self).pending_lbs(g) == old(self).pending_lbs(g) && final(self).pending_ubs(g) == old(self).pending_ubs(g),
            r is Ok ==> old(self).sets_lbs(final(self), c, lbs@, lbs@.len()),
            r is Err ==> old(self).fails_lbs(final(self), c, lbs@, r),
            r matches Err(PropagationError::Overflow) ==> exists|i: int| 0 <= i < lbs@.len() && #[trigger] old(self).drives(lbs@[i].0.0 as int),
            final(self).inv(),
            final(self).same_tableau(old(self)),
            r matches Err(PropagationError::Conflict(l)) ==> l@.len() > 0 && l@[0] == c,
            r matches Err(PropagationError::Conflict(l)) ==> exists|i: int| 0 <= i < lbs@.len() && #[trigger] old(self).upper(
                lbs@[i].0.0 as int,
            ).less(lbs@[i].1) && l@ == old(self).lb_conflict(lbs@[i].0.0 as int, Some(c)),
            (forall|i: int| 0 <= i < lbs@.len() ==> !(#[trigger] old(self).upper(lbs@[i].0.0 as int).less(lbs@[i].1))) ==> !(r matches Err(
                PropagationError::Conflict(_),
            )),
            r is Ok ==> forall|i: int| 0 <= i < lbs@.len() ==> !(#[trigger] old(self).upper(lbs@[i].0.0 as int).less(lbs@[i].1)),
            r is Ok ==> {
                &&& final(self).pending_lbs(c.0 as int) == term_map(lbs@)
                &&& forall|g: int| #![trigger final(self).pending_lbs(g)] #![trigger final(self).pending_ubs(g)]
                    0 <= g < old(self).num_guards() ==> {
                    &&& (g != c.0 ==> final(self).pending_lbs(g) == old(self).pending_lbs(g))
                    &&& final(self).pending_ubs(g) == old(self).pending_ubs(g)
                }
                &&& forall|v: int| 0 <= v < old(self).num_vars() ==> {
                    &&& #[trigger] final(self).lower_entries(v) == if term_map(lbs@).contains_key(v as usize) {
                        with_guard(old(self).lower_entries(v), term_map(lbs@)[v as usize], c)
                    } else {
                        old(self).lower_entries(v)
                    }
                    &&& final(self).upper_entries(v) == old(self).upper_entries(v)
                }
            },
    {
        let ghost o = *old(self);
        let n = lbs.len();
        proof {
            Engine::lemma_sets_lbs_none(&o, c, lbs@);
            lemma_empty_terms_take(lbs@);
        }
        for i in 0..n
            invariant
                forall|j: int| 0 <= j < i ==> !(#[trigger] o.upper(lbs@[j].0.0 as int).less(lbs@[j].1)),
                n == lbs@.len(),
                o == *old(self),
                o.inv(),
                pending_ok(lbs@, o.num_vars()),
                c.0 < o.num_guards(),
                self.inv(),
                self.same_tableau(&o),
                self.pending_lbs(c.0 as int) == term_map(lbs@),
                o.sets_lbs(self, c, lbs@, i as nat),
                forall|g: int| 0 <= g < o.num_guards() ==> {
                    &&& #[trigger] self.pending_lbs(g) == o.pending_lbs(g)
                    &&& self.pending_ubs(g) == o.pending_ubs(g)
                },
                forall|v: int| 0 <= v < o.num_vars() ==> {
                    &&& #[trigger] self.lower_entries(v) == if term_map(lbs@.take(i as int)).contains_key(v as usize) {
                        with_guard(o.lower_entries(v), term_map(lbs@)[v as usize], c)
                    } else {
                        o.lower_entries(v)
                    }
                    &&& self.upper_entries(v) == o.upper_entries(v)
                },
        {
            let t = lbs[i];
            let ghost before = *self;
            proof {
                lemma_take_term(lbs@, i as int);
                crate::terms::lemma_term_index(lbs@, i as int);
                assert(before.pending_lbs(c.0 as int)[t.0.0] == t.1);
            }
            match self.set_lb(t.0, t.1, Some(c)) {
                Ok(()) => {},
                Err(e) => {
                    proof {
                        if e is Overflow {
                            let k = t.0.0 as int;
                            assert(t == lbs@[i as int]);
                            let w = choose|w: int| 0 <= w < before.num_vars() && #[trigger] before.moves(w, k) && before.shifted(w, k, t.1) is None;
                            assert(o.moves(w, k));
                            assert(o.drives(lbs@[i as int].0.0 as int));
                        }
                    }
                    proof {
                        lemma_same_tableau_trans(&o, &before, self);
                        let k = t.0.0 as int;
                        assert(t == lbs@[i as int]);
                        assert(0 <= k < o.num_vars());
                        assert(before.lower_entries(k) == if term_map(lbs@.take(i as int)).contains_key(k as usize) {
                            with_guard(o.lower_entries(k), term_map(lbs@)[k as usize], c)
                        } else {
                            o.lower_entries(k)
                        });
                        assert(before.upper_entries(k) == o.upper_entries(k));
                        if o.upper(k).less(t.1) {
                            assert(o.upper(lbs@[i as int].0.0 as int).less(lbs@[i as int].1));
                        }
                    }
                    proof {
                        assert(t == lbs@[i as int]);
                        assert(before.lb_effect(self, lbs@[i as int].0, lbs@[i as int].1, Some(c), Err(e)));
                        assert(*self == before);
                        let ghost ii: int = i as int;
                        assert(o.sets_lbs(self, c, lbs@, ii as nat));
                        assert(self.lb_effect(self, lbs@[ii].0, lbs@[ii].1, Some(c), Err(e)));
                        assert(o.fails_lbs(self, c, lbs@, Err(e)));
                        assert forall|g: int| 0 <= g < o.num_guards() implies #[trigger] self.pending_lbs(g)
                            == o.pending_lbs(g) && self.pending_ubs(g) == o.pending_ubs(g) by {
                            assert(before.pending_lbs(g) == o.pending_lbs(g));
                            assert(before.pending_ubs(g) == o.pending_ubs(g));
                        }
                    }
                    proof {
                        assert forall|v: int| 0 <= v < o.num_vars() implies #[trigger] strip_guard(self.lower_entries(v), c) == strip_guard(
                            o.lower_entries(v),
                            c,
                        ) && strip_guard(self.upper_entries(v), c) == strip_guard(o.upper_entries(v), c) by {
                            o.lemma_entry_facts(v);
                            assert(before.lower_entries(v) == before.lower_entries(v));
                            assert(before.upper_entries(v) == before.upper_entries(v));
                            if term_map(lbs@).contains_key(v as usize) {
                                let j = choose|j: int| 0 <= j < lbs@.len() && lbs@[j].0.0 == v as usize;
                                crate::terms::lemma_term_index(lbs@, j);
                                lemma_strip_with_guard(o.lower_entries(v), o.num_guards(), term_map(lbs@)[v as usize], c);
                            }
                        }
                        assert(self.same_stripped(&o, c));
                    }
                    return Err(e);
                },
            }
            proof {
                lemma_same_tableau_trans(&o, &before, self);
                let k = t.0.0 as int;
                assert(self.lower_entries(k) == with_guard(before.lower_entries(k), t.1, c));
                assert(before.lower_entries(k) == o.lower_entries(k));
                assert(self.pending_lbs(c.0 as int) == before.pending_lbs_after(c.0 as int, k, t.1, Some(c)));
                assert(self.pending_lbs(c.0 as int) =~= before.pending_lbs(c.0 as int));
                assert(t == lbs@[i as int]);
                Engine::lemma_sets_lbs_more(&o, &before, self, c, lbs@, i as nat);
                assert forall|g: int| 0 <= g < o.num_guards() implies {
                    &&& #[trigger] self.pending_lbs(g) == o.pending_lbs(g)
                    &&& self.pending_ubs(g) == o.pending_ubs(g)
                } by {
                    assert(self.pending_lbs(g) == before.pending_lbs_after(g, k, t.1, Some(c)));
                }
                assert forall|v: int| 0 <= v < o.num_vars() implies {
                    &&& #[trigger] self.lower_entries(v) == if term_map(lbs@.take(i + 1)).contains_key(v as usize) {
                        with_guard(o.lower_entries(v), term_map(lbs@)[v as usize], c)
                    } else {
                        o.lower_entries(v)
                    }
                    &&& self.upper_entries(v) == o.upper_entries(v)
                } by {
                    assert(before.lower_entries(v) == if term_map(lbs@.take(i as int)).contains_key(v as usize) {
                        with_guard(o.lower_entries(v), term_map(lbs@)[v as usize], c)
                    } else {
                        o.lower_entries(v)
                    });
                    assert(self.upper_entries(v) == before.upper_entries(v));
                    if v != k {
                        assert(self.lower_entries(v) == before.lower_entries(v));
                        assert(term_map(lbs@.take(i + 1)).contains_key(v as usize) == term_map(lbs@.take(i as int)).contains_key(v as usize));
                    }
                }
            }
        }
        proof {
            assert(lbs@.take(n as int) == lbs@);
        }
        proof {
            assert forall|v: int| 0 <= v < o.num_vars() implies #[trigger] strip_guard(self.lower_entries(v), c) == strip_guard(
                o.lower_entries(v),
                c,
            ) && strip_guard(self.upper_entries(v), c) == strip_guard(o.upper_entries(v), c) by {
                o.lemma_entry_facts(v);
                assert(self.lower_entries(v) == self.lower_entries(v));
                assert(self.upper_entries(v) == self.upper_entries(v));
                if term_map(lbs@).contains_key(v as usize) {
                    let j = choose|j: int| 0 <= j < lbs@.len() && lbs@[j].0.0 == v as usize;
                    crate::terms::lemma_term_index(lbs@, j);
                    lemma_strip_with_guard(o.lower_entries(v), o.num_guards(), term_map(lbs@)[v as usize], c);
                }
            }
            assert(self.same_stripped(&o, c));
        }
        Ok(())
    }

    /// Sets each upper bound of `ubs` under guard `c`, in order, stopping at
    /// the first error.
    #[verifier::spinoff_prover]
    fn assert_ubs(&mut self, c: GuardId, ubs: &Vec<(VarId, InfRational)>) -> (r: Result<(), PropagationError>)
        requires
            old(self).inv(),
            c.0 < old(self).num_guards(),
            pending_ok(ubs@, old(self).num_vars()),
            old(self).pending_ubs(c.0 as int) == term_map(ubs@),
        ensures
            final(self).same_stripped(old(self), c),
            forall|g: int| #![trigger final(self).pending_lbs(g)] #![trigger final(self).pending_ubs(g)] 0 <= g < old(self).num_guards()
                ==> final(self).pending_lbs(g) == old(self).pending_lbs(g) && final(self).pending_ubs(g) == old(self).pending_ubs(g),
            r is Ok ==> old(self).sets_ubs(final(self), c, ubs@, ubs@.len()),
            r is Err ==> old(self).fails_ubs(final(self), c, ubs@, r),
            r matches Err(PropagationError::Overflow) ==> exists|i: int| 0 <= i < ubs@.len() && #[trigger] old(self).drives(ubs@[i].0.0 as int),
            final(self).inv(),
            final(self).same_tableau(old(self)),
            r matches Err(PropagationError::Conflict(l)) ==> l@.len() > 0 && l@[0] == c,
            r matches Err(PropagationError::Conflict(l)) ==> exists|i: int| 0 <= i < ubs@.len() && #[trigger] ubs@[i].1.less(
                old(self).lower(ubs@[i].0.0 as int),
            ) && l@ == old(self).ub_conflict(ubs@[i].0.0 as int, Some(c)),
            (forall|i: int| 0 <= i < ubs@.len() ==> !(#[trigger] ubs@[i].1.less(old(self).lower(ubs@[i].0.0 as int)))) ==> !(r matches Err(
                PropagationError::Conflict(_),
            )),
            r is Ok ==> forall|i: int| 0 <= i < ubs@.len() ==> !(#[trigger] ubs@[i].1.less(old(self).lower(ubs@[i].0.0 as int))),
            r is Ok ==> {
                &&& final(self).pending_ubs(c.0 as int) == term_map(ubs@)
                &&& forall|g: int| #![trigger final(self).pending_lbs(g)] #![trigger final(self).pending_ubs(g)]
                    0 <= g < old(self).num_guards() ==> {
                    &&& (g != c.0 ==> final(self).pending_ubs(g) == old(self).pending_ubs(g))
                    &&& final(self).pending_lbs(g) == old(self).pending_lbs(g)
                }
                &&& forall|v: int| 0 <= v < old(self).num_vars() ==> {
                    &&& #[trigger] final(self).upper_entries(v) == if term_map(ubs@).contains_key(v as usize) {
                        with_guard(old(self).upper_entries(v), term_map(ubs@)[v as usize], c)
                    } else {
                        old(self).upper_entries(v)
                    }
                    &&& final(self).lower_entries(v) == old(self).lower_entries(v)
                }
            },
    {
        let ghost o = *old(self);
        let n = ubs.len();
        proof {
            Engine::lemma_sets_ubs_none(&o, c, ubs@);
            lemma_empty_terms_take(ubs@);
        }
        for i in 0..n
            invariant
                forall|j: int| 0 <= j < i ==> !(#[trigger] ubs@[j].1.less(o.lower(ubs@[j].0.0 as int))),
                n == ubs@.len(),
                o == *old(self),
                o.inv(),
                pending_ok(ubs@, o.num_vars()),
                c.0 < o.num_guards(),
                self.inv(),
                self.same_tableau(&o),
                self.pending_ubs(c.0 as int) == term_map(ubs@),
                o.sets_ubs(self, c, ubs@, i as nat),
                forall|g: int| 0 <= g < o.num_guards() ==> {
                    &&& #[trigger] self.pending_ubs(g) == o.pending_ubs(g)
                    &&& self.pending_lbs(g) == o.pending_lbs(g)
                },
                forall|v: int| 0 <= v < o.num_vars() ==> {
                    &&& #[trigger] self.upper_entries(v) == if term_map(ubs@.take(i as int)).contains_key(v as usize) {
                        with_guard(o.upper_entries(v), term_map(ubs@)[v as usize], c)
                    } else {
                        o.upper_entries(v)
                    }
                    &&& self.lower_entries(v) == o.lower_entries(v)
                },
        {
            let t = ubs[i];
            let ghost before = *self;
            proof {
                lemma_take_term(ubs@, i as int);
                crate::terms::lemma_term_index(ubs@, i as int);
                assert(before.pending_ubs(c.0 as int)[t.0.0] == t.1);
            }
            match self.set_ub(t.0, t.1, Some(c)) {
                Ok(()) => {},
                Err(e) => {
                    proof {
                        if e is Overflow {
                            let k = t.0.0 as int;
                            assert(t == ubs@[i as int]);
                            let w = choose|w: int| 0 <= w < before.num_vars() && #[trigger] before.moves(w, k) && before.shifted(w, k, t.1) is None;
                            assert(o.moves(w, k));
                            assert(o.drives(ubs@[i as int].0.0 as int));
                        }
                    }
                    proof {
                        lemma_same_tableau_trans(&o, &before, self);
                        let k = t.0.0 as int;
                        assert(t == ubs@[i as int]);
                        assert(before.lower_entries(k) == o.lower_entries(k));
                        if t.1.less(o.lower(k)) {
                            assert(ubs@[i as int].1.less(o.lower(ubs@[i as int].0.0 as int)));
                        }
                    }
                    proof {
                        assert(t == ubs@[i as int]);
                        assert(before.ub_effect(self, ubs@[i as int].0, ubs@[i as int].1, Some(c), Err(e)));
                        assert(*self == before);
                        let ghost ii: int = i as int;
                        assert(o.sets_ubs(self, c, ubs@, ii as nat));
                        assert(self.ub_effect(self, ubs@[ii].0, ubs@[ii].1, Some(c), Err(e)));
                        assert(o.fails_ubs(self, c, ubs@, Err(e)));
                        assert forall|g: int| 0 <= g < o.num_guards() implies #[trigger] self.pending_lbs(g)
                            == o.pending_lbs(g) && self.pending_ubs(g) == o.pending_ubs(g) by {
                            assert(before.pending_ubs(g) == o.pending_ubs(g));
                            assert(before.pending_lbs(g) == o.pending_lbs(g));
                        }
                    }
                    proof {
                        assert forall|v: int| 0 <= v < o.num_vars() implies #[trigger] strip_guard(self.lower_entries(v), c) == strip_guard(
                            o.lower_entries(v),
                            c,
                        ) && strip_guard(self.upper_entries(v), c) == strip_guard(o.upper_entries(v), c) by {
                            o.lemma_entry_facts(v);
                            assert(before.lower_entries(v) == before.lower_entries(v));
                            assert(before.upper_entries(v) == before.upper_entries(v));
                            if term_map(ubs@).contains_key(v as usize) {
                                let j = choose|j: int| 0 <= j < ubs@.len() && ubs@[j].0.0 == v as usize;
                                crate::terms::lemma_term_index(ubs@, j);
                                lemma_strip_with_guard(o.upper_entries(v), o.num_guards(), term_map(ubs@)[v as usize], c);
                            }
                        }
                        assert(self.same_stripped(&o, c));
                    }
                    return Err(e);
                },
            }
            proof {
                lemma_same_tableau_trans(&o, &before, self);
                let k = t.0.0 as int;
                assert(self.upper_entries(k) == with_guard(before.upper_entries(k), t.1, c));
                assert(before.upper_entries(k) == o.upper_entries(k));
                assert(self.pending_ubs(c.0 as int) == before.pending_ubs_after(c.0 as int, k, t.1, Some(c)));
                assert(self.pending_ubs(c.0 as int) =~= before.pending_ubs(c.0 as int));
                assert(t == ubs@[i as int]);
                Engine::lemma_sets_ubs_more(&o, &before, self, c, ubs@, i as nat);
                assert forall|g: int| 0 <= g < o.num_guards() implies {
                    &&& #[trigger] self.pending_ubs(g) == o.pending_ubs(g)
                    &&& self.pending_lbs(g) == o.pending_lbs(g)
                } by {
                    assert(self.pending_ubs(g) == before.pending_ubs_after(g, k, t.1, Some(c)));
                }
                assert forall|v: int| 0 <= v < o.num_vars() implies {
                    &&& #[trigger] self.upper_entries(v) == if term_map(ubs@.take(i + 1)).contains_key(v as usize) {
                        with_guard(o.upper_entries(v), term_map(ubs@)[v as usize], c)
                    } else {
                        o.upper_entries(v)
                    }
                    &&& self.lower_entries(v) == o.lower_entries(v)
                } by {
                    assert(before.upper_entries(v) == if term_map(ubs@.take(i as int)).contains_key(v as usize) {
                        with_guard(o.upper_entries(v), term_map(ubs@)[v as usize], c)
                    } else {
                        o.upper_entries(v)
                    });
                    assert(self.lower_entries(v) == before.lower_entries(v));
                    if v != k {
                        assert(self.upper_entries(v) == before.upper_entries(v));
                        assert(term_map(ubs@.take(i + 1)).contains_key(v as usize) == term_map(ubs@.take(i as int)).contains_key(v as usize));
                    }
                }
            }
        }
        proof {
            assert forall|g: int| 0 <= g < o.num_guards() implies #[trigger] self.pending_lbs(g)
                == o.pending_lbs(g) && self.pending_ubs(g) == o.pending_ubs(g) by {
                assert(self.pending_ubs(g) == o.pending_ubs(g));
            }
        }
        proof {
            assert(ubs@.take(n as int) == ubs@);
        }
        proof {
            assert forall|v: int| 0 <= v < o.num_vars() implies #[trigger] strip_guard(self.lower_entries(v), c) == strip_guard(
                o.lower_entries(v),
                c,
            ) && strip_guard(self.upper_entries(v), c) == strip_guard(o.upper_entries(v), c) by {
                o.lemma_entry_facts(v);
                assert(self.lower_entries(v) == self.lower_entries(v));
                assert(self.upper_entries(v) == self.upper_entries(v));
                if term_map(ubs@).contains_key(v as usize) {
                    let j = choose|j: int| 0 <= j < ubs@.len() && ubs@[j].0.0 == v as usize;
                    crate::terms::lemma_term_index(ubs@, j);
                    lemma_strip_with_guard(o.upper_entries(v), o.num_guards(), term_map(ubs@)[v as usize], c);
                }
            }
            assert(self.same_stripped(&o, c));
        }
        Ok(())
    }
}

impl Engine {
    /// The lower bounds that guard `g` records, sorted by variable.
    pub closed spec fn recorded_lbs(&self, g: int) -> Seq<(VarId, InfRational)> {
        self.guard_bounds@[g].lbs@
    }

    /// The upper bounds that guard `g` records, sorted by variable.
    pub closed spec fn recorded_ubs(&self, g: int) -> Seq<(VarId, InfRational)> {
        self.guard_bounds@[g].ubs@
    }

    /// The records of guard `g` as sequences: sorted, and read as maps they
    /// are [`Engine::pending_lbs`] and [`Engine::pending_ubs`].
    pub proof fn lemma_recorded(&self, g: int)
        requires
            self.inv(),
            0 <= g < self.num_guards(),
        ensures
            sorted_terms(self.recorded_lbs(g)),
            sorted_terms(self.recorded_ubs(g)),
            term_map(self.recorded_lbs(g)) == self.pending_lbs(g),
            term_map(self.recorded_ubs(g)) == self.pending_ubs(g),
    {
        assert(self.guard_bounds@[g].wf(self.num_vars()));
    }

    /// `f` is `self` once guard `c` is asserted without error: each lower
    /// bound it records, in order of the variables, then each upper bound,
    /// is set under `c` as [`Engine::set_lb`] and [`Engine::set_ub`] say.
    pub open spec fn assert_done(&self, f: &Engine, c: GuardId) -> bool {
        let lbs = self.recorded_lbs(c.0 as int);
        let ubs = self.recorded_ubs(c.0 as int);
        exists|m: Engine| #[trigger] self.sets_lbs(&m, c, lbs, lbs.len()) && m.sets_ubs(f, c, ubs, ubs.len())
    }

    /// `f` is `self` once asserting guard `c` fails with `r`: the bounds that
    /// `c` records are set in that order until one fails with `r`, and then
    /// `c` is retracted.
    pub open spec fn assert_failed(&self, f: &Engine, c: GuardId, r: Result<(), PropagationError>) -> bool {
        let lbs = self.recorded_lbs(c.0 as int);
        let ubs = self.recorded_ubs(c.0 as int);
        exists|m: Engine| #[trigger] m.retracted(f, c) && (self.fails_lbs(&m, c, lbs, r) || exists|m1: Engine|
            #[trigger] self.sets_lbs(&m1, c, lbs, lbs.len()) && m1.fails_ubs(&m, c, ubs, r))
    }

    /// Taking guard `c` off every bound gives the same bounds in `self` as
    /// in `o`.
    pub open spec fn same_stripped(&self, o: &Engine, c: GuardId) -> bool {
        forall|v: int| 0 <= v < o.num_vars() ==> #[trigger] strip_guard(self.lower_entries(v), c) == strip_guard(
            o.lower_entries(v),
            c,
        ) && strip_guard(self.upper_entries(v), c) == strip_guard(o.upper_entries(v), c)
    }

    /// Every guard records what it recorded in `o`.
    pub open spec fn same_records(&self, o: &Engine) -> bool {
        forall|g: int| 0 <= g < o.num_guards() ==> #[trigger] self.pending_lbs(g) == o.pending_lbs(g)
            && self.pending_ubs(g) == o.pending_ubs(g)
    }

    /// Once a guard is retracted, no bound holds it.
    proof fn lemma_retract_frees(e: &Engine, f: &Engine, g: GuardId)
        requires
            e.inv(),
            e.retracted(f, g),
        ensures
            forall|v: int| 0 <= v < e.num_vars() ==> guard_free(#[trigger] f.lower_entries(v), g) && guard_free(
                f.upper_entries(v),
                g,
            ),
    {
        assert forall|v: int| 0 <= v < e.num_vars() implies guard_free(#[trigger] f.lower_entries(v), g) && guard_free(
            f.upper_entries(v),
            g,
        ) by {
            e.lemma_entry_facts(v);
            lemma_strip_frees(e.lower_entries(v), g, e.num_guards());
            lemma_strip_frees(e.upper_entries(v), g, e.num_guards());
        }
    }

    /// `f` is `e` once guard `g` is asserted without error: each variable on
    /// which `g` records a bound gets `g` on the entry of that value (the
    /// entry added if missing), and the guards' records stay.
    pub open spec fn asserted(&self, f: &Engine, g: GuardId) -> bool {
        &&& f.num_vars() == self.num_vars()
        &&& f.num_guards() == self.num_guards()
        &&& forall|g2: int| 0 <= g2 < self.num_guards() ==> {
            &&& #[trigger] f.pending_lbs(g2) == self.pending_lbs(g2)
            &&& f.pending_ubs(g2) == self.pending_ubs(g2)
        }
        &&& forall|v: int| #![trigger f.lower_entries(v)] #![trigger f.upper_entries(v)] 0 <= v < self.num_vars() ==> {
            &&& f.lower_entries(v) == if self.pending_lbs(g.0 as int).contains_key(v as usize) {
                with_guard(self.lower_entries(v), self.pending_lbs(g.0 as int)[v as usize], g)
            } else {
                self.lower_entries(v)
            }
            &&& f.upper_entries(v) == if self.pending_ubs(g.0 as int).contains_key(v as usize) {
                with_guard(self.upper_entries(v), self.pending_ubs(g.0 as int)[v as usize], g)
            } else {
                self.upper_entries(v)
            }
        }
    }

    /// The lower bounds of `x` once guard `g` sets the lower bound that it
    /// records on `x`, if any.
    pub open spec fn lower_entries_asserting(&self, g: GuardId, x: int) -> Seq<BV> {
        if self.pending_lbs(g.0 as int).contains_key(x as usize) {
            with_guard(self.lower_entries(x), self.pending_lbs(g.0 as int)[x as usize], g)
        } else {
            self.lower_entries(x)
        }
    }

    /// A bound that guard `g` records crosses the opposite bound in force
    /// when it is set: a lower bound above the upper bound, or an upper
    /// bound below the lower bound once the guard's lower bounds are set.
    pub open spec fn guard_crosses(&self, g: GuardId) -> bool {
        ||| exists|x: usize| #[trigger] self.pending_lbs(g.0 as int).contains_key(x) && self.upper(x as int).less(
            self.pending_lbs(g.0 as int)[x],
        )
        ||| exists|x: usize| #[trigger] self.pending_ubs(g.0 as int).contains_key(x) && self.pending_ubs(g.0 as int)[x].less(
            lb_of(self.lower_entries_asserting(g, x as int)),
        )
    }

    /// The conflicts that asserting guard `g` can answer: `g` with the
    /// guards of a bound that one of its lower bounds crosses, or of the
    /// lower bound (with those of `g` set) that one of its upper bounds
    /// crosses.
    pub open spec fn guard_conflict(&self, g: GuardId, l: Seq<GuardId>) -> bool {
        ||| exists|x: usize| #[trigger] self.pending_lbs(g.0 as int).contains_key(x) && self.upper(x as int).less(
            self.pending_lbs(g.0 as int)[x],
        ) && l == self.lb_conflict(x as int, Some(g))
        ||| exists|x: usize| #[trigger] self.pending_ubs(g.0 as int).contains_key(x) && self.pending_ubs(g.0 as int)[x].less(
            lb_of(self.lower_entries_asserting(g, x as int)),
        ) && l == opt_seq(Some(g)) + self.lower_entries_asserting(g, x as int).last().1
    }

    /// Activates every bound that `constraint` records: each lower bound
    /// through [`Engine::set_lb`], then each upper bound through
    /// [`Engine::set_ub`], under the guard, in order of the variables (see
    /// [`Engine::assert_done`]). At the first error the guard is retracted
    /// and the error returned (see [`Engine::assert_failed`]); a conflict
    /// names the guard first. Every guard keeps its records, so a guard can
    /// be asserted again; after an error every variable has the bounds it
    /// had before the call, less those that the guard held.
    #[verifier::spinoff_prover]
    #[verifier::rlimit(40)]
    pub fn assert_guard(&mut self, constraint: GuardId) -> (r: Result<(), PropagationError>)
        requires
            old(self).inv(),
            constraint.0 < old(self).num_guards(),
        ensures
            final(self).inv(),
            final(self).same_tableau(old(self)),
            r matches Err(PropagationError::Conflict(l)) ==> l@.len() > 0 && l@[0] == constraint,
            r matches Err(PropagationError::Conflict(l)) ==> old(self).guard_conflict(constraint, l@),
            !old(self).guard_crosses(constraint) ==> !(r matches Err(PropagationError::Conflict(_))),
            r is Ok ==> old(self).asserted(final(self), constraint),
            r is Ok ==> !old(self).guard_crosses(constraint),
            r matches Err(PropagationError::Overflow) ==> exists|x: usize| #![trigger old(self).pending_lbs(constraint.0 as int).contains_key(x)]
                #![trigger old(self).pending_ubs(constraint.0 as int).contains_key(x)]
                (old(self).pending_lbs(constraint.0 as int).contains_key(x) || old(self).pending_ubs(constraint.0 as int).contains_key(x))
                && old(self).drives(x as int),
            r is Err ==> forall|v: int| 0 <= v < old(self).num_vars() ==> guard_free(#[trigger] final(self).lower_entries(v), constraint)
                && guard_free(final(self).upper_entries(v), constraint),
            final(self).same_records(old(self)),
            r is Err ==> forall|v: int| 0 <= v < old(self).num_vars() ==> #[trigger] final(self).lower_entries(v)
                == old(self).lower_retracted(constraint, v) && final(self).upper_entries(v) == old(self).upper_retracted(constraint, v),
            r is Ok ==> old(self).assert_done(final(self), constraint),
            r is Err ==> old(self).assert_failed(final(self), constraint, r),
    {
        let c = constraint;
        let ghost o = *old(self);
        let lbs = copy_records(&self.guard_bounds[c.0].lbs);
        let ubs = copy_records(&self.guard_bounds[c.0].ubs);
        proof {
            assert(o.guard_bounds@[c.0 as int].wf(o.num_vars()));
            assert(lbs@ == o.recorded_lbs(c.0 as int));
            assert(ubs@ == o.recorded_ubs(c.0 as int));
            assert(term_map(lbs@) == o.pending_lbs(c.0 as int));
            assert(term_map(ubs@) == o.pending_ubs(c.0 as int));
        }
        let ghost s1 = *self;
        let ra = self.assert_lbs(c, &lbs);
        let ghost rag = ra;
        let ghost s3 = *self;
        proof {
            assert forall|i: int| 0 <= i < lbs@.len() implies #[trigger] lbs@[i].0.0 < o.num_vars()
                && o.pending_lbs(c.0 as int).contains_key(lbs@[i].0.0) && o.pending_lbs(c.0 as int)[lbs@[i].0.0]
                == lbs@[i].1 && s1.upper(lbs@[i].0.0 as int) == o.upper(lbs@[i].0.0 as int) && s1.lb_conflict(
                lbs@[i].0.0 as int,
                Some(c),
            ) == o.lb_conflict(lbs@[i].0.0 as int, Some(c)) by {
                crate::terms::lemma_term_index(lbs@, i);
            }
            match rag {
                Err(PropagationError::Conflict(l)) => {
                    let i = choose|i: int| 0 <= i < lbs@.len() && #[trigger] s1.upper(lbs@[i].0.0 as int).less(lbs@[i].1)
                        && l@ == s1.lb_conflict(lbs@[i].0.0 as int, Some(c));
                    let x = lbs@[i].0.0;
                    assert(o.pending_lbs(c.0 as int).contains_key(x) && o.upper(x as int).less(o.pending_lbs(c.0 as int)[x])
                        && l@ == o.lb_conflict(x as int, Some(c)));
                    assert(o.guard_conflict(c, l@));
                },
                _ => {},
            }
            if !o.guard_crosses(c) {
                assert forall|i: int| 0 <= i < lbs@.len() implies !(#[trigger] s1.upper(lbs@[i].0.0 as int).less(lbs@[i].1)) by {
                    let x = lbs@[i].0.0;
                    assert(o.pending_lbs(c.0 as int).contains_key(x));
                }
            }
        }
        match ra {
            Ok(()) => {},
            Err(e) => {
                let ghost mid = *self;
                self.retract(c);
                proof {
                    lemma_same_tableau_trans(&o, &mid, self);
                    Engine::lemma_retract_frees(&mid, self, c);
                    assert forall|g: int| 0 <= g < o.num_guards() implies #[trigger] self.pending_lbs(g)
                        == o.pending_lbs(g) && self.pending_ubs(g) == o.pending_ubs(g) by {
                        assert(self.pending_lbs(g) == mid.pending_lbs(g));
                        assert(mid.pending_lbs(g) == o.pending_lbs(g));
                    }
                    assert(self.same_records(&o));
                    if rag is Err && rag->Err_0 is Overflow {
                        let i = choose|i: int| 0 <= i < lbs@.len() && #[trigger] s1.drives(lbs@[i].0.0 as int);
                        let x = lbs@[i].0.0;
                        crate::terms::lemma_term_index(lbs@, i);
                        assert(o.pending_lbs(c.0 as int).contains_key(x));
                    }
                    assert forall|v: int| 0 <= v < o.num_vars() implies #[trigger] self.lower_entries(v)
                        == o.lower_retracted(c, v) && self.upper_entries(v) == o.upper_retracted(c, v) by {
                        assert(self.lower_entries(v) == mid.lower_retracted(c, v));
                        assert(strip_guard(mid.lower_entries(v), c) == strip_guard(o.lower_entries(v), c));
                        assert(self.upper_entries(v) == mid.upper_retracted(c, v));
                        assert(strip_guard(mid.upper_entries(v), c) == strip_guard(o.upper_entries(v), c));
                    }
                    assert(o.fails_lbs(&mid, c, lbs@, Err(e)));
                    assert(mid.retracted(self, c));
                    assert(o.assert_failed(self, c, Err(e)));
                }
                return Err(e);
            },
        }
        proof {
            assert(s3.same_tableau(&o));
            assert forall|v: int| 0 <= v < o.num_vars() implies #[trigger] s3.lower_entries(v) == o.lower_entries_asserting(c, v) by {
                assert(s3.lower_entries(v) == if term_map(lbs@).contains_key(v as usize) {
                    with_guard(s1.lower_entries(v), term_map(lbs@)[v as usize], c)
                } else {
                    s1.lower_entries(v)
                });
            }
            assert(s3.pending_ubs(c.0 as int) == o.pending_ubs(c.0 as int));
        }
        let rb = self.assert_ubs(c, &ubs);
        let ghost rbg = rb;
        proof {
            if rbg is Ok {
                assert forall|x: usize| #[trigger] o.pending_lbs(c.0 as int).contains_key(x) implies !o.upper(x as int).less(
                    o.pending_lbs(c.0 as int)[x],
                ) by {
                    let i = choose|i: int| 0 <= i < lbs@.len() && lbs@[i].0.0 == x;
                    crate::terms::lemma_term_index(lbs@, i);
                    assert(!s1.upper(lbs@[i].0.0 as int).less(lbs@[i].1));
                }
                assert forall|x: usize| #[trigger] o.pending_ubs(c.0 as int).contains_key(x) implies !o.pending_ubs(
                    c.0 as int,
                )[x].less(lb_of(o.lower_entries_asserting(c, x as int))) by {
                    let i = choose|i: int| 0 <= i < ubs@.len() && ubs@[i].0.0 == x;
                    crate::terms::lemma_term_index(ubs@, i);
                    assert(!ubs@[i].1.less(s3.lower(ubs@[i].0.0 as int)));
                    assert(x < o.num_vars()) by {
                        assert(pending_ok(ubs@, o.num_vars()));
                    }
                    assert(s3.lower_entries(x as int) == o.lower_entries_asserting(c, x as int));
                }
            }
        }
        proof {
            assert forall|i: int| 0 <= i < ubs@.len() implies #[trigger] ubs@[i].0.0 < o.num_vars()
                && o.pending_ubs(c.0 as int).contains_key(ubs@[i].0.0) && o.pending_ubs(c.0 as int)[ubs@[i].0.0]
                == ubs@[i].1 && s3.lower(ubs@[i].0.0 as int) == lb_of(o.lower_entries_asserting(c, ubs@[i].0.0 as int))
                && s3.ub_conflict(ubs@[i].0.0 as int, Some(c)) == opt_seq(Some(c)) + o.lower_entries_asserting(
                c,
                ubs@[i].0.0 as int,
            ).last().1 by {
                crate::terms::lemma_term_index(ubs@, i);
                assert(s3.lower_entries(ubs@[i].0.0 as int) == o.lower_entries_asserting(c, ubs@[i].0.0 as int));
            }
            match rbg {
                Err(PropagationError::Conflict(l)) => {
                    let i = choose|i: int| 0 <= i < ubs@.len() && #[trigger] ubs@[i].1.less(s3.lower(ubs@[i].0.0 as int))
                        && l@ == s3.ub_conflict(ubs@[i].0.0 as int, Some(c));
                    let x = ubs@[i].0.0;
                    assert(o.pending_ubs(c.0 as int).contains_key(x) && o.pending_ubs(c.0 as int)[x].less(
                        lb_of(o.lower_entries_asserting(c, x as int)),
                    ) && l@ == opt_seq(Some(c)) + o.lower_entries_asserting(c, x as int).last().1);
                    assert(o.guard_conflict(c, l@));
                },
                _ => {},
            }
            if !o.guard_crosses(c) {
                assert forall|i: int| 0 <= i < ubs@.len() implies !(#[trigger] ubs@[i].1.less(s3.lower(ubs@[i].0.0 as int))) by {
                    let x = ubs@[i].0.0;
                    assert(o.pending_ubs(c.0 as int).contains_key(x));
                }
            }
        }
        match rb {
            Ok(()) => {},
            Err(e) => {
                let ghost mid = *self;
                self.retract(c);
                proof {
                    lemma_same_tableau_trans(&o, &s3, &mid);
                    lemma_same_tableau_trans(&o, &mid, self);
                    Engine::lemma_retract_frees(&mid, self, c);
                    assert forall|g: int| 0 <= g < o.num_guards() implies #[trigger] self.pending_lbs(g)
                        == o.pending_lbs(g) && self.pending_ubs(g) == o.pending_ubs(g) by {
                        assert(self.pending_lbs(g) == mid.pending_lbs(g));
                        assert(mid.pending_lbs(g) == s3.pending_lbs(g));
                        assert(s3.pending_lbs(g) == o.pending_lbs(g));
                    }
                    assert(self.same_records(&o));
                    if rbg is Err && rbg->Err_0 is Overflow {
                        let i = choose|i: int| 0 <= i < ubs@.len() && #[trigger] s3.drives(ubs@[i].0.0 as int);
                        let x = ubs@[i].0.0;
                        crate::terms::lemma_term_index(ubs@, i);
                        assert(o.pending_ubs(c.0 as int).contains_key(x));
                        let w = choose|w: int| 0 <= w < s3.num_vars() && #[trigger] s3.moves(w, x as int);
                        assert(o.moves(w, x as int));
                        assert(o.drives(x as int));
                    }
                    assert forall|v: int| 0 <= v < o.num_vars() implies #[trigger] self.lower_entries(v)
                        == o.lower_retracted(c, v) && self.upper_entries(v) == o.upper_retracted(c, v) by {
                        assert(self.lower_entries(v) == mid.lower_retracted(c, v));
                        assert(strip_guard(mid.lower_entries(v), c) == strip_guard(s3.lower_entries(v), c));
                        assert(strip_guard(s3.lower_entries(v), c) == strip_guard(o.lower_entries(v), c));
                        assert(self.upper_entries(v) == mid.upper_retracted(c, v));
                        assert(strip_guard(mid.upper_entries(v), c) == strip_guard(s3.upper_entries(v), c));
                        assert(strip_guard(s3.upper_entries(v), c) == strip_guard(o.upper_entries(v), c));
                    }
                    assert(o.sets_lbs(&s3, c, lbs@, lbs@.len()));
                    assert(s3.fails_ubs(&mid, c, ubs@, Err(e)));
                    assert(mid.retracted(self, c));
                    assert(o.assert_failed(self, c, Err(e)));
                }
                return Err(e);
            },
        }
        proof {
            assert forall|g: int| 0 <= g < o.num_guards() implies {
                &&& #[trigger] self.pending_lbs(g) == o.pending_lbs(g)
                &&& self.pending_ubs(g) == o.pending_ubs(g)
            } by {
                assert(self.pending_lbs(g) == s3.pending_lbs(g));
                assert(s3.pending_lbs(g) == o.pending_lbs(g));
            }
            assert(self.same_records(&o));
            assert forall|v: int| 0 <= v < o.num_vars() implies {
                &&& #[trigger] self.lower_entries(v) == if o.pending_lbs(c.0 as int).contains_key(v as usize) {
                    with_guard(o.lower_entries(v), o.pending_lbs(c.0 as int)[v as usize], c)
                } else {
                    o.lower_entries(v)
                }
                &&& self.upper_entries(v) == if o.pending_ubs(c.0 as int).contains_key(v as usize) {
                    with_guard(o.upper_entries(v), o.pending_ubs(c.0 as int)[v as usize], c)
                } else {
                    o.upper_entries(v)
                }
            } by {
                assert(s3.lower_entries(v) == if o.pending_lbs(c.0 as int).contains_key(v as usize) {
                    with_guard(o.lower_entries(v), o.pending_lbs(c.0 as int)[v as usize], c)
                } else {
                    o.lower_entries(v)
                });
                assert(self.upper_entries(v) == if term_map(ubs@).contains_key(v as usize) {
                    with_guard(s3.upper_entries(v), term_map(ubs@)[v as usize], c)
                } else {
                    s3.upper_entries(v)
                });
            }
            lemma_same_tableau_trans(&o, &s3, self);
            assert(o.sets_lbs(&s3, c, lbs@, lbs@.len()));
            assert(s3.sets_ubs(self, c, ubs@, ubs@.len()));
            assert(o.assert_done(self, c));
        }
        Ok(())
    }
}

/// `k` plus the contribution `f(t)` of each term `t` of `ts`, added left to
/// right; `None` when a contribution or a partial sum is out of range.
pub open spec fn fold_terms(ts: Seq<Term>, k: Rational, f: spec_fn(Term) -> Option<InfRational>) -> Option<InfRational>
    decreases ts.len(),
{
    if ts.len() == 0 {
        Some(lift(k))
    } else {
        match (fold_terms(ts.drop_last(), k, f), f(ts.last())) {
            (Some(a), Some(p)) => a.add_spec(p),
            _ => None,
        }
    }
}

/// The terms of `m`, sorted by variable.
pub open spec fn terms_of(m: Map<usize, Rational>) -> Seq<Term> {
    choose|ts: Seq<Term>| sorted_terms(ts) && term_map(ts) == m
}

/// A sum that fails on a prefix fails on the whole.
pub proof fn lemma_fold_none(ts: Seq<Term>, k: Rational, f: spec_fn(Term) -> Option<InfRational>, i: int)
    requires
        0 <= i <= ts.len(),
        fold_terms(ts.take(i), k, f) is None,
    ensures
        fold_terms(ts, k, f) is None,
    decreases ts.len() - i,
{
    if i == ts.len() {
        assert(ts.take(i) == ts);
    } else {
        assert(ts.take(i + 1).drop_last() == ts.take(i));
        lemma_fold_none(ts, k, f, i + 1);
    }
}

/// Same variables, guards, tableau rows and listened variables is transitive.
#[verifier::spinoff_prover]
proof fn lemma_same_tableau_trans(a: &Engine, b: &Engine, c: &Engine)
    requires
        b.same_tableau(a),
        c.same_tableau(b),
    ensures
        c.same_tableau(a),
{
    assert forall|v: int| 0 <= v < a.num_vars() implies {
        &&& #[trigger] c.basic(v) == a.basic(v)
        &&& (a.basic(v) ==> c.row(v) == a.row(v))
        &&& c.is_listened(v) == a.is_listened(v)
    } by {
        assert(b.basic(v) == a.basic(v));
        assert(c.basic(v) == b.basic(v));
    }
}

impl Engine {
    /// The contribution of a term to the value of an expression.
    pub open spec fn value_term(&self) -> spec_fn(Term) -> Option<InfRational> {
        |t: Term| self.value(t.0.0 as int).mul_rat_spec(t.1)
    }

    /// The contribution of a term to the least value of an expression: a
    /// positive coefficient takes the lower bound, another the upper bound.
    pub open spec fn lower_term(&self) -> spec_fn(Term) -> Option<InfRational> {
        |t: Term| if t.1.num > 0 {
            self.lower(t.0.0 as int).mul_rat_spec(t.1)
        } else {
            self.upper(t.0.0 as int).mul_rat_spec(t.1)
        }
    }

    /// The contribution of a term to the greatest value of an expression.
    pub open spec fn upper_term(&self) -> spec_fn(Term) -> Option<InfRational> {
        |t: Term| if t.1.num > 0 {
            self.upper(t.0.0 as int).mul_rat_spec(t.1)
        } else {
            self.lower(t.0.0 as int).mul_rat_spec(t.1)
        }
    }

    /// The value of `l` under the current values.
    pub open spec fn lin_value(&self, l: Lin) -> Option<InfRational> {
        fold_terms(l.vars@, l.known_term, self.value_term())
    }

    /// The current value of `Σ m[x]·x`; `None` when out of range.
    pub open spec fn sum_value(&self, m: Map<usize, Rational>) -> Option<InfRational> {
        fold_terms(terms_of(m), zero_spec(), self.value_term())
    }

    /// The least value of `l` within the current bounds.
    pub open spec fn lin_lower(&self, l: Lin) -> Option<InfRational> {
        fold_terms(l.vars@, l.known_term, self.lower_term())
    }

    /// The greatest value of `l` within the current bounds.
    pub open spec fn lin_upper(&self, l: Lin) -> Option<InfRational> {
        fold_terms(l.vars@, l.known_term, self.upper_term())
    }

    /// `l` is well formed and over variables of the engine.
    pub open spec fn lin_ok(&self, l: Lin) -> bool {
        &&& l.wf()
        &&& forall|i: int| 0 <= i < l.vars@.len() ==> (#[trigger] l.vars@[i]).0.0 < self.num_vars()
    }

    /// The contribution of term `i` of `lin`, given the value its variable
    /// takes (`which`: 0 the value, 1 the least, 2 the greatest).
    fn term_part(&self, lin: &Lin, i: usize, which: u8) -> (r: Option<InfRational>)
        requires
            self.shape(),
            self.lin_ok(*lin),
            i < lin.vars@.len(),
        ensures
            r == if which == 0 {
                (self.value_term())(lin.vars@[i as int])
            } else if which == 1 {
                (self.lower_term())(lin.vars@[i as int])
            } else {
                (self.upper_term())(lin.vars@[i as int])
            },
            r matches Some(x) ==> x.wf(),
            which == 0 ==> (r matches Some(x) ==> x.is_fin()),
    {
        let t = lin.vars[i];
        let ghost k = t.0.0 as int;
        proof {
            assert(t.0.0 < self.num_vars());
            assert(self.value(k).wf());
            assert(bounds_ok(self.lower_entries(k), self.num_guards()));
            assert(bounds_ok(self.upper_entries(k), self.num_guards()));
            lemma_extremes(self.lower_entries(k), self.num_guards());
            lemma_extremes(self.upper_entries(k), self.num_guards());
            assert(t.1.wf());
        }
        let x = if which == 0 {
            self.value_at(t.0)
        } else if (which == 1) == t.1.is_positive() {
            self.lower_at(t.0)
        } else {
            self.upper_at(t.0)
        };
        x.checked_mul_rat(&t.1)
    }

    /// `lin` summed over its terms, each term contributing as `which` says.
    fn fold_lin(&self, lin: &Lin, which: u8) -> (r: Option<InfRational>)
        requires
            self.shape(),
            self.lin_ok(*lin),
        ensures
            r == if which == 0 {
                self.lin_value(*lin)
            } else if which == 1 {
                self.lin_lower(*lin)
            } else {
                self.lin_upper(*lin)
            },
            r matches Some(x) ==> x.wf(),
            which == 0 ==> (r matches Some(x) ==> x.is_fin()),
    {
        let ghost f = if which == 0 {
            self.value_term()
        } else if which == 1 {
            self.lower_term()
        } else {
            self.upper_term()
        };
        let mut acc = InfRational::from_rational(lin.known_term);
        let n = lin.vars.len();
        let mut i: usize = 0;
        while i < n
            invariant
                n == lin.vars@.len(),
                i <= n,
                self.shape(),
                self.lin_ok(*lin),
                f == (if which == 0 {
                    self.value_term()
                } else if which == 1 {
                    self.lower_term()
                } else {
                    self.upper_term()
                }),
                Some(acc) == fold_terms(lin.vars@.take(i as int), lin.known_term, f),
                acc.wf(),
                which == 0 ==> acc.is_fin(),
            decreases n - i,
        {
            proof {
                assert(lin.vars@.take(i + 1).drop_last() == lin.vars@.take(i as int));
                assert(lin.vars@.take(i + 1).last() == lin.vars@[i as int]);
            }
            let p = match self.term_part(lin, i, which) {
                Some(p) => p,
                None => {
                    proof {
                        lemma_fold_none(lin.vars@, lin.known_term, f, i + 1);
                    }
                    return None;
                },
            };
            acc = match acc.checked_add(&p) {
                Some(a) => a,
                None => {
                    proof {
                        lemma_fold_none(lin.vars@, lin.known_term, f, i + 1);
                    }
                    return None;
                },
            };
            i = i + 1;
        }
        proof {
            assert(lin.vars@.take(n as int) == lin.vars@);
        }
        Some(acc)
    }

    /// The value of `lin` under the current values: `Σ c·val(x) + k`,
    /// computed term by term in the order of the variables; the sum must
    /// stay in range.
    pub fn lin_val(&self, lin: &Lin) -> (r: InfRational)
        requires
            self.inv(),
            self.lin_ok(*lin),
            self.lin_value(*lin) is Some,
        ensures
            Some(r) == self.lin_value(*lin),
            r.wf() && r.is_fin(),
            holds(*lin, self.values(), r),
    {
        let r = self.fold_lin(lin, 0);
        proof {
            self.lemma_rows_view();
            assert forall|t: Term| #[trigger] self.value_term()(t) == self.assignments@[t.0.0 as int].mul_rat_spec(t.1) by {
            }
            assert forall|i: int| 0 <= i < lin.vars@.len() implies (#[trigger] lin.vars@[i]).0.0 < self.assignments@.len() by {
                assert(lin.vars@[i].0.0 < self.num_vars());
            }
            lemma_fold_part(lin.vars@, lin.known_term, self.value_term(), self.assignments@, true);
            lemma_fold_part(lin.vars@, lin.known_term, self.value_term(), self.assignments@, false);
        }
        r.unwrap()
    }

    /// The least value of `lin` within the current bounds: each term takes
    /// the lower bound of its variable for a positive coefficient, the
    /// upper bound otherwise; the sum must stay in range.
    pub fn lin_lb(&self, lin: &Lin) -> (r: InfRational)
        requires
            self.inv(),
            self.lin_ok(*lin),
            self.lin_lower(*lin) is Some,
        ensures
            Some(r) == self.lin_lower(*lin),
    {
        self.fold_lin(lin, 1).unwrap()
    }

    /// The greatest value of `lin` within the current bounds: each term
    /// takes the upper bound of its variable for a positive coefficient, the
    /// lower bound otherwise; the sum must stay in range.
    pub fn lin_ub(&self, lin: &Lin) -> (r: InfRational)
        requires
            self.inv(),
            self.lin_ok(*lin),
            self.lin_upper(*lin) is Some,
        ensures
            Some(r) == self.lin_upper(*lin),
    {
        self.fold_lin(lin, 2).unwrap()
    }
}

impl Engine {
    /// Makes the fresh non-basic `var` basic, with row `lin`.
    #[verifier::spinoff_prover]
    fn new_row(&mut self, var: VarId, lin: Lin)
        requires
            old(self).shape(),
            var.0 < old(self).num_vars(),
            !old(self).basic(var.0 as int),
            old(self).watchers(var.0 as int).len() == 0,
            old(self).lin_ok(lin),
            forall|i: int| 0 <= i < lin.vars@.len() ==> !old(self).basic((#[trigger] lin.vars@[i]).0.0 as int)
                && lin.vars@[i].0 != var,
        ensures
            final(self).shape(),
            final(self).num_vars() == old(self).num_vars(),
            final(self).num_guards() == old(self).num_guards(),
            final(self).basic(var.0 as int),
            final(self).row(var.0 as int) == lin,
            forall|v: int| #![trigger final(self).value(v)] #![trigger final(self).lower_entries(v)] #![trigger final(self).upper_entries(v)] #![trigger final(self).basic(v)]
                0 <= v < old(self).num_vars() ==> {
                &&& final(self).value(v) == old(self).value(v)
                &&& final(self).lower_entries(v) == old(self).lower_entries(v)
                &&& final(self).upper_entries(v) == old(self).upper_entries(v)
                &&& final(self).is_listened(v) == old(self).is_listened(v)
                &&& (v != var.0 ==> final(self).basic(v) == old(self).basic(v))
                &&& (v != var.0 && old(self).basic(v) ==> final(self).row(v) == old(self).row(v))
            },
            forall|g: int| 0 <= g < old(self).num_guards() ==> #[trigger] final(self).pending_lbs(g) == old(self).pending_lbs(g)
                && final(self).pending_ubs(g) == old(self).pending_ubs(g),
            final(self).events() == old(self).events(),
    {
        let ghost o = *old(self);
        let ghost nv = o.num_vars();
        let ghost m = term_map(lin.vars@);
        let n = lin.vars.len();
        proof {
            lemma_empty_terms_take(lin.vars@);
        }
        for i in 0..n
            invariant
                n == lin.vars@.len(),
                o == *old(self),
                o.shape(),
                o.lin_ok(lin),
                m == term_map(lin.vars@),
                nv == o.num_vars(),
                self.assignments@ == o.assignments@,
                self.lbs@ == o.lbs@,
                self.ubs@ == o.ubs@,
                self.guard_bounds@ == o.guard_bounds@,
                self.tableau@ == o.tableau@,
                self.listened@ == o.listened@,
                self.notifications@ == o.notifications@,
                self.t_watches@.len() == nv,
                forall|k: int| 0 <= k < nv ==> (#[trigger] self.t_watches@[k])@ == if term_map(lin.vars@.take(i as int)).contains_key(k as usize) {
                    o.t_watches@[k]@.push(var)
                } else {
                    o.t_watches@[k]@
                },
        {
            let k = lin.vars[i].0.0;
            let ghost before = self.t_watches@;
            proof {
                lemma_take_term(lin.vars@, i as int);
                assert(lin.vars@[i as int].0.0 < nv);
            }
            self.t_watches[k].push(var);
            proof {
                assert forall|k2: int| 0 <= k2 < nv implies (#[trigger] self.t_watches@[k2])@ == if term_map(lin.vars@.take(i + 1)).contains_key(k2 as usize) {
                    o.t_watches@[k2]@.push(var)
                } else {
                    o.t_watches@[k2]@
                } by {
                    if k2 != k as int {
                        assert(self.t_watches@[k2] == before[k2]);
                    }
                }
            }
        }
        self.tableau.set(var.0, Some(lin));
        proof {
            assert(lin.vars@.take(n as int) == lin.vars@);
            let x = var.0 as int;
            lin.lemma_coeffs_ok();
            assert forall|j: int| 0 <= j < lin.vars@.len() implies #[trigger] m.contains_key(lin.vars@[j].0.0) && m[lin.vars@[j].0.0] == lin.vars@[j].1 by {
                lemma_term_index(lin.vars@, j);
            }
            assert forall|k: usize| #[trigger] m.contains_key(k) implies k < nv && !o.basic(k as int) && k != var.0 by {
                let j = choose|j: int| 0 <= j < lin.vars@.len() && lin.vars@[j].0.0 == k;
                assert(lin.vars@[j].0.0 < nv);
            }
            assert(self.row(x) == lin);
            assert forall|b: int| 0 <= b < self.num_vars() && #[trigger] self.basic(b) implies self.row_ok(b) by {
                if b != x {
                    assert(o.basic(b));
                    assert(o.row_ok(b));
                    assert forall|k: usize| #[trigger] self.row(b).coeffs().contains_key(k) implies k < self.num_vars() && !self.basic(k as int) by {
                        assert(o.row(b).coeffs().contains_key(k));
                        if k == var.0 {
                            assert(o.watchers(x).contains(VarId(b as usize)));
                        }
                    }
                }
            }
            assert forall|v: int, w: usize| 0 <= v < self.num_vars() && w < self.num_vars()
                implies (#[trigger] self.watchers(v).contains(VarId(w)) <==> (self.basic(w as int)
                    && self.row(w as int).coeffs().contains_key(v as usize))) by {
                crate::lin::lemma_push_contains(o.watchers(v), var, VarId(w));
                assert(o.watchers(v).contains(VarId(w)) <==> (o.basic(w as int)
                    && o.row(w as int).coeffs().contains_key(v as usize)));
                if w == var.0 {
                    assert(!o.watchers(v).contains(VarId(w)));
                }
            }
            assert forall|v: int, i: int| 0 <= v < self.num_vars() && 0 <= i < self.watchers(v).len()
                implies (#[trigger] self.watchers(v)[i]).0 < self.num_vars() by {
                if i < o.watchers(v).len() {
                    assert(self.watchers(v)[i] == o.watchers(v)[i]);
                }
            }
            assert forall|v: int, i: int, j: int| 0 <= v < self.num_vars() && 0 <= i < j < self.watchers(v).len()
                implies #[trigger] self.watchers(v)[i] != #[trigger] self.watchers(v)[j] by {
                if j < o.watchers(v).len() {
                    assert(self.watchers(v)[i] == o.watchers(v)[i]);
                    assert(self.watchers(v)[j] == o.watchers(v)[j]);
                } else {
                    assert(self.watchers(v)[j] == var);
                    assert(self.watchers(v)[i] == o.watchers(v)[i]);
                    assert(o.watchers(v).contains(o.watchers(v)[i]));
                    assert(!o.watchers(v).contains(var));
                }
            }
            Engine::lemma_frame_guards(&o, self);
            assert forall|v: int| 0 <= v < self.num_vars() implies (#[trigger] self.value(v)).wf() && self.value(v).is_fin() by {
                assert(o.value(v).wf());
            }
            assert forall|v: int| 0 <= v < self.num_vars() implies bounds_ok(#[trigger] self.lower_entries(v), self.num_guards()) by {
                assert(bounds_ok(o.lower_entries(v), o.num_guards()));
            }
            assert forall|v: int| 0 <= v < self.num_vars() implies bounds_ok(#[trigger] self.upper_entries(v), self.num_guards()) by {
                assert(bounds_ok(o.upper_entries(v), o.num_guards()));
            }
            assert forall|v: int| 0 <= v < self.num_vars() implies (#[trigger] self.lower(v)).leq(self.upper(v)) by {
                assert(o.lower(v).leq(o.upper(v)));
            }
            assert forall|v: int| 0 <= v < self.num_vars() && !self.basic(v) implies (#[trigger] self.lower(v)).leq(self.value(v))
                && self.value(v).leq(self.upper(v)) by {
                assert(o.lower(v).leq(o.value(v)));
            }
        }
    }

    /// Adds a basic variable whose row is `lin`, over non-basic variables,
    /// and whose value is that of `lin`.
    #[verifier::spinoff_prover]
    fn add_row_var(&mut self, lin: Lin) -> (var: VarId)
        requires
            old(self).inv(),
            old(self).num_vars() < usize::MAX,
            old(self).lin_ok(lin),
            forall|i: int| 0 <= i < lin.vars@.len() ==> !old(self).basic((#[trigger] lin.vars@[i]).0.0 as int),
            old(self).lin_value(lin) is Some,
        ensures
            final(self).inv(),
            var.0 == old(self).num_vars(),
            final(self).num_vars() == old(self).num_vars() + 1,
            final(self).num_guards() == old(self).num_guards(),
            final(self).basic(var.0 as int),
            final(self).row(var.0 as int) == lin,
            final(self).value(var.0 as int) == old(self).lin_value(lin).unwrap(),
            final(self).lower_entries(var.0 as int) == Seq::<BV>::empty(),
            final(self).upper_entries(var.0 as int) == Seq::<BV>::empty(),
            !final(self).is_listened(var.0 as int),
            forall|v: int| 0 <= v < old(self).num_vars() ==> {
                &&& #[trigger] final(self).value(v) == old(self).value(v)
                &&& final(self).lower_entries(v) == old(self).lower_entries(v)
                &&& final(self).upper_entries(v) == old(self).upper_entries(v)
                &&& final(self).basic(v) == old(self).basic(v)
                &&& (old(self).basic(v) ==> final(self).row(v) == old(self).row(v))
                &&& final(self).is_listened(v) == old(self).is_listened(v)
            },
            forall|g: int| 0 <= g < old(self).num_guards() ==> #[trigger] final(self).pending_lbs(g) == old(self).pending_lbs(g)
                && final(self).pending_ubs(g) == old(self).pending_ubs(g),
            final(self).events() == old(self).events(),
    {
        let val = self.lin_val(&lin);
        let ghost o = *old(self);
        let var = self.add_var();
        let ghost a = *self;
        self.assignments.set(var.0, val);
        proof {
            lemma_finite_between(val);
            lemma_inf_order(neg_inf(), val, pos_inf());
            Engine::lemma_frame_rows(&a, self);
            Engine::lemma_frame_guards(&a, self);
            assert forall|v: int| 0 <= v < self.num_vars() implies (#[trigger] self.value(v)).wf() && self.value(v).is_fin() by {
                if v != var.0 {
                    assert(a.value(v).wf());
                }
            }
            assert forall|v: int| 0 <= v < self.num_vars() implies bounds_ok(#[trigger] self.lower_entries(v), self.num_guards()) by {
                assert(bounds_ok(a.lower_entries(v), a.num_guards()));
            }
            assert forall|v: int| 0 <= v < self.num_vars() implies bounds_ok(#[trigger] self.upper_entries(v), self.num_guards()) by {
                assert(bounds_ok(a.upper_entries(v), a.num_guards()));
            }
            assert forall|v: int| 0 <= v < self.num_vars() implies (#[trigger] self.lower(v)).leq(self.upper(v)) by {
                assert(a.lower(v).leq(a.upper(v)));
            }
            assert forall|v: int| 0 <= v < self.num_vars() && !self.basic(v) implies (#[trigger] self.lower(v)).leq(self.value(v))
                && self.value(v).leq(self.upper(v)) by {
                assert(a.lower(v).leq(a.value(v)));
            }
            assert(self.watchers(var.0 as int).len() == 0);
            assert forall|i: int| 0 <= i < lin.vars@.len() implies (#[trigger] lin.vars@[i]).0.0 < self.num_vars()
                && !self.basic(lin.vars@[i].0.0 as int) && lin.vars@[i].0 != var by {
                assert(lin.vars@[i].0.0 < o.num_vars());
            }
        }
        let ghost b = *self;
        self.new_row(var, lin);
        proof {
            assert forall|v: int| 0 <= v < o.num_vars() implies {
                &&& #[trigger] self.value(v) == o.value(v)
                &&& self.lower_entries(v) == o.lower_entries(v)
                &&& self.upper_entries(v) == o.upper_entries(v)
                &&& self.basic(v) == o.basic(v)
                &&& (o.basic(v) ==> self.row(v) == o.row(v))
                &&& self.is_listened(v) == o.is_listened(v)
            } by {
                assert(a.value(v) == o.value(v));
                assert(a.lower_entries(v) == o.lower_entries(v));
                assert(a.basic(v) == o.basic(v));
                assert(b.value(v) == a.value(v));
                assert(self.value(v) == b.value(v));
                assert(self.basic(v) == b.basic(v));
                assert(v != var.0);
                assert(b.is_listened(v) == a.is_listened(v));
                assert(a.is_listened(v) == o.is_listened(v));
                assert(self.is_listened(v) == b.is_listened(v));
                assert(b.upper_entries(v) == a.upper_entries(v));
                assert(b.lower_entries(v) == a.lower_entries(v));
                if o.basic(v) {
                    assert(a.row(v) == o.row(v));
                    assert(b.row(v) == a.row(v));
                    assert(self.row(v) == b.row(v));
                }
            }
            // the values of the basic variables are those of their rows
            let x = var.0 as int;
            a.lemma_rows_view();
            assert forall|w: int| 0 <= w < a.tableau@.len() && (#[trigger] a.tableau@[w]) is Some implies !a.tableau@[w].unwrap().coeffs().contains_key(
                var.0,
            ) by {
                assert(a.basic(w));
                if a.row(w).coeffs().contains_key(var.0) {
                    assert(a.watchers(x).contains(VarId(w as usize)));
                }
            }
            assert forall|k: int| 0 <= k < a.num_vars() implies #[trigger] b.tableau@[k] == a.tableau@[k] by {
            }
            assert forall|k: int| 0 <= k < a.num_vars() && k != x implies #[trigger] b.assignments@[k] == a.assignments@[k] by {
            }
            lemma_rows_frame(a.assignments@, a.tableau@, b.assignments@, b.tableau@, x);
            assert(o.lin_ok(lin));
            assert forall|t: Term| #[trigger] o.value_term()(t) == o.assignments@[t.0.0 as int].mul_rat_spec(t.1) by {
            }
            o.lemma_rows_view();
            assert forall|i: int| 0 <= i < lin.vars@.len() implies (#[trigger] lin.vars@[i]).0.0 < o.assignments@.len() by {
                assert(lin.vars@[i].0.0 < o.num_vars());
            }
            lemma_fold_part(lin.vars@, lin.known_term, o.value_term(), o.assignments@, true);
            lemma_fold_part(lin.vars@, lin.known_term, o.value_term(), o.assignments@, false);
            assert(holds(lin, o.assignments@, val));
            assert forall|k: usize| #[trigger] lin.coeffs().contains_key(k) implies k < o.assignments@.len()
                && b.assignments@[k as int] == o.assignments@[k as int] by {
                let i = choose|i: int| 0 <= i < lin.vars@.len() && lin.vars@[i].0.0 == k;
                assert(lin.vars@[i].0.0 < o.num_vars());
                assert(b.value(k as int) == o.value(k as int));
            }
            lemma_holds_frame(lin, o.assignments@, b.assignments@, val);
            assert(self.assignments@ =~= b.assignments@) by {
                assert forall|k: int| 0 <= k < b.num_vars() implies self.assignments@[k] == b.assignments@[k] by {
                    assert(self.value(k) == b.value(k));
                }
            }
            assert(b.assignments@[x] == val);
            reveal(rows_hold);
            assert forall|w: int| 0 <= w < self.assignments@.len() && (#[trigger] self.tableau@[w]) is Some implies holds(
                self.tableau@[w].unwrap(),
                self.assignments@,
                self.assignments@[w],
            ) by {
                if w != x {
                    assert(self.basic(w) == b.basic(w));
                    assert(self.row(w) == b.row(w));
                    assert(b.tableau@[w] is Some);
                } else {
                    assert(self.row(x) == lin);
                }
            }
        }
        var
    }
}

impl Engine {
    /// `ws` lists, for each variable `k`, the basic variables below `b`
    /// whose rows contain `k`, in increasing order.
    closed spec fn watch_lists_upto(&self, ws: Seq<Vec<VarId>>, b: int) -> bool {
        &&& ws.len() == self.num_vars()
        &&& forall|k: int, i: int| 0 <= k < self.num_vars() && 0 <= i < ws[k]@.len() ==> {
            &&& (#[trigger] ws[k]@[i]).0 < b
            &&& self.basic(ws[k]@[i].0 as int)
            &&& self.row(ws[k]@[i].0 as int).coeffs().contains_key(k as usize)
        }
        &&& forall|k: int, i: int, j: int| 0 <= k < self.num_vars() && 0 <= i < j < ws[k]@.len()
            ==> (#[trigger] ws[k]@[i]).0 < (#[trigger] ws[k]@[j]).0
        &&& forall|k: int, w: usize| 0 <= k < self.num_vars() && w < b && self.basic(w as int)
            && self.row(w as int).coeffs().contains_key(k as usize) ==> #[trigger] ws[k]@.contains(VarId(w))
    }

    /// Recomputes every watch list from the tableau.
    fn rebuild_watches(&mut self)
        requires
            old(self).sizes_ok(),
            old(self).rows_ok(),
        ensures
            final(self).watches_ok(),
            final(self).sizes_ok(),
            final(self).rows_ok(),
            final(self).assignments@ == old(self).assignments@,
            final(self).lbs@ == old(self).lbs@,
            final(self).ubs@ == old(self).ubs@,
            final(self).guard_bounds@ == old(self).guard_bounds@,
            final(self).tableau@ == old(self).tableau@,
            final(self).listened@ == old(self).listened@,
            final(self).notifications@ == old(self).notifications@,
    {
        let n = self.tableau.len();
        let mut ws: Vec<Vec<VarId>> = Vec::new();
        for v in 0..n
            invariant
                ws@.len() == v,
                forall|k: int| 0 <= k < v ==> (#[trigger] ws@[k])@.len() == 0,
        {
            ws.push(Vec::new());
        }
        for b in 0..n
            invariant
                n == self.num_vars(),
                self.sizes_ok(),
                self.rows_ok(),
                self.watch_lists_upto(ws@, b as int),
        {
            match &self.tableau[b] {
                Some(row) => {
                    let ghost start = ws@;
                    proof {
                        assert(self.basic(b as int));
                        assert(*row == self.row(b as int));
                        assert(self.row_ok(b as int));
                        lemma_empty_terms_take(row.vars@);
                    }
                    let m = row.vars.len();
                    for j in 0..m
                        invariant
                            n == self.num_vars(),
                            m == row.vars@.len(),
                            b < n,
                            self.sizes_ok(),
                            self.rows_ok(),
                            self.basic(b as int),
                            *row == self.row(b as int),
                            self.row_ok(b as int),
                            self.watch_lists_upto(start, b as int),
                            ws@.len() == n,
                            forall|k: int| 0 <= k < n ==> (#[trigger] ws@[k])@ == if term_map(row.vars@.take(j as int)).contains_key(k as usize) {
                                start[k]@.push(VarId(b))
                            } else {
                                start[k]@
                            },
                    {
                        let k = row.vars[j].0.0;
                        let ghost before = ws@;
                        proof {
                            lemma_take_term(row.vars@, j as int);
                            lemma_term_index(row.vars@, j as int);
                            assert(row.coeffs().contains_key(k));
                        }
                        ws[k].push(VarId(b));
                        proof {
                            assert forall|k2: int| 0 <= k2 < n implies (#[trigger] ws@[k2])@ == if term_map(row.vars@.take(j + 1)).contains_key(k2 as usize) {
                                start[k2]@.push(VarId(b))
                            } else {
                                start[k2]@
                            } by {
                                if k2 != k as int {
                                    assert(ws@[k2] == before[k2]);
                                }
                            }
                        }
                    }
                    proof {
                        assert(row.vars@.take(m as int) == row.vars@);
                        assert forall|k: int, i: int| 0 <= k < self.num_vars() && 0 <= i < ws@[k]@.len() implies {
                            &&& (#[trigger] ws@[k]@[i]).0 < b + 1
                            &&& self.basic(ws@[k]@[i].0 as int)
                            &&& self.row(ws@[k]@[i].0 as int).coeffs().contains_key(k as usize)
                        } by {
                            if i < start[k]@.len() {
                                assert(ws@[k]@[i] == start[k]@[i]);
                            }
                        }
                        assert forall|k: int, i: int, j: int| 0 <= k < self.num_vars() && 0 <= i < j < ws@[k]@.len()
                            implies (#[trigger] ws@[k]@[i]).0 < (#[trigger] ws@[k]@[j]).0 by {
                            if j < start[k]@.len() {
                                assert(ws@[k]@[i] == start[k]@[i]);
                                assert(ws@[k]@[j] == start[k]@[j]);
                            } else {
                                assert(ws@[k]@[i] == start[k]@[i]);
                            }
                        }
                        assert forall|k: int, w: usize| 0 <= k < self.num_vars() && w < b + 1 && self.basic(w as int)
                            && self.row(w as int).coeffs().contains_key(k as usize) implies #[trigger] ws@[k]@.contains(VarId(w)) by {
                            if w < b {
                                assert(start[k]@.contains(VarId(w)));
                                let i = choose|i: int| 0 <= i < start[k]@.len() && start[k]@[i] == VarId(w);
                                assert(ws@[k]@[i] == start[k]@[i]);
                            } else {
                                assert(ws@[k]@[ws@[k]@.len() - 1] == VarId(b));
                            }
                        }
                    }
                },
                None => {
                    proof {
                        assert(!self.basic(b as int));
                    }
                },
            }
        }
        self.t_watches = ws;
        proof {
            let o = old(self);
            assert forall|b: int| 0 <= b < self.num_vars() && #[trigger] self.basic(b) implies self.row_ok(b) by {
                assert(o.basic(b));
                assert(o.row_ok(b));
                assert forall|k: usize| #[trigger] self.row(b).coeffs().contains_key(k) implies k < self.num_vars() && !self.basic(k as int) by {
                    assert(o.row(b).coeffs().contains_key(k));
                }
            }
            assert forall|v: int, w: usize| 0 <= v < self.num_vars() && w < self.num_vars()
                implies (#[trigger] self.watchers(v).contains(VarId(w)) <==> (self.basic(w as int)
                    && self.row(w as int).coeffs().contains_key(v as usize))) by {
                if self.watchers(v).contains(VarId(w)) {
                    let i = choose|i: int| 0 <= i < self.watchers(v).len() && self.watchers(v)[i] == VarId(w);
                    assert(self.t_watches@[v]@[i] == VarId(w));
                }
            }
            assert forall|v: int, i: int, j: int| 0 <= v < self.num_vars() && 0 <= i < j < self.watchers(v).len()
                implies #[trigger] self.watchers(v)[i] != #[trigger] self.watchers(v)[j] by {
                assert(self.t_watches@[v]@[i].0 < self.t_watches@[v]@[j].0);
            }
            assert forall|v: int, i: int| 0 <= v < self.num_vars() && 0 <= i < self.watchers(v).len()
                implies (#[trigger] self.watchers(v)[i]).0 < self.num_vars() by {
                assert(self.t_watches@[v]@[i].0 < n);
            }
        }
    }
}

/// The coefficients of the row of `e` once it trades places with `l`, whose
/// row `r` has coefficient `c` on `e`: from `l = c·e + Σ a_j·x_j + K`,
/// `e = (1/c)·l + Σ (a_j / -c)·x_j + K / -c`.
pub open spec fn pivot_coeffs(r: Lin, e: usize, l: usize) -> Map<usize, Rational> {
    solved(r.coeffs(), e, l)
}

/// The known term of the row of `e` once it trades places with `l`.
pub open spec fn pivot_known(r: Lin, e: usize) -> Rational {
    r.known_term.div_spec(r.coeffs()[e].neg_spec().unwrap()).unwrap()
}

/// The known term of row `r` once `e` is replaced by an expression with
/// known term `k`.
pub open spec fn subst_known(r: Lin, e: usize, k: Rational) -> Rational {
    r.known_term.add_spec(k.mul_spec(r.coeffs()[e]).unwrap()).unwrap()
}

impl Engine {
    /// Moving `e` so that basic `l` takes the value `nv`, the basic
    /// variables depending on `e` following, and then trading `l` for `e`
    /// stays in range.
    pub open spec fn pivot_update_in_range(&self, e: int, l: int, nv: InfRational) -> bool {
        &&& self.pivot_in_range(e, l)
        &&& self.theta(e, l, nv) is Some
        &&& self.value(e).add_spec(self.theta(e, l, nv).unwrap()) is Some
        &&& forall|w: int| 0 <= w < self.num_vars() && w != l && #[trigger] self.moves(w, e) ==> self.moved(
            w,
            e,
            self.theta(e, l, nv).unwrap(),
        ) is Some
    }

    /// Trading basic `l` for non-basic `e` stays in range: the row of `l`
    /// can be solved for `e`, and substituted for `e` in every other row
    /// that contains `e`.
    pub open spec fn pivot_in_range(&self, e: int, l: int) -> bool {
        let rl = self.row(l);
        &&& solvable(rl.coeffs(), e as usize)
        &&& rl.known_term.div_spec(rl.coeffs()[e as usize].neg_spec().unwrap()) is Some
        &&& forall|w: int| 0 <= w < self.num_vars() && w != l && #[trigger] self.moves(w, e) ==> {
            &&& subst_ok(self.row(w).coeffs(), e as usize, pivot_coeffs(rl, e as usize, l as usize))
            &&& pivot_known(rl, e as usize).mul_spec(self.row(w).coeffs()[e as usize]) is Some
            &&& self.row(w).known_term.add_spec(
                pivot_known(rl, e as usize).mul_spec(self.row(w).coeffs()[e as usize]).unwrap(),
            ) is Some
        }
    }

    /// Computes the row of `e` in place of that of `l`, and the rows of the
    /// watchers of `e` with `e` replaced by it (a placeholder for `l`);
    /// `None` when a coefficient is out of range.
    fn compute_pivot(&self, e: VarId, l: VarId) -> (r: Option<(Lin, Vec<Lin>)>)
        requires
            self.inv_except(e.0 as int),
            e.0 < self.num_vars(),
            l.0 < self.num_vars(),
            self.basic(l.0 as int),
            !self.basic(e.0 as int),
            self.row(l.0 as int).coeffs().contains_key(e.0),
            self.row(l.0 as int).coeffs()[e.0].num != 0,
        ensures
            r matches Some((nr, rows)) ==> {
                &&& nr.wf()
                &&& nr.coeffs() == pivot_coeffs(self.row(l.0 as int), e.0, l.0)
                &&& nr.known_term == pivot_known(self.row(l.0 as int), e.0)
                &&& rows@.len() == self.watchers(e.0 as int).len()
                &&& forall|i: int| 0 <= i < rows@.len() && self.watchers(e.0 as int)[i] != l ==> {
                    let w = self.watchers(e.0 as int)[i].0 as int;
                    &&& (#[trigger] rows@[i]).wf()
                    &&& rows@[i].coeffs() == subst_map(self.row(w).coeffs(), e.0, nr.coeffs())
                    &&& rows@[i].known_term == subst_known(self.row(w), e.0, nr.known_term)
                    &&& subst_ok(self.row(w).coeffs(), e.0, nr.coeffs())
                    &&& nr.known_term.mul_spec(self.row(w).coeffs()[e.0]) is Some
                    &&& self.row(w).known_term.add_spec(nr.known_term.mul_spec(self.row(w).coeffs()[e.0]).unwrap()) is Some
                }
                &&& solvable(self.row(l.0 as int).coeffs(), e.0)
                &&& self.row(l.0 as int).known_term.div_spec(self.row(l.0 as int).coeffs()[e.0].neg_spec().unwrap()) is Some
            },
            r is Some <==> self.pivot_in_range(e.0 as int, l.0 as int),
    {
        let ghost x = e.0 as int;
        let ghost rl = self.row(l.0 as int);
        proof {
            assert(self.row_ok(l.0 as int));
            rl.lemma_coeffs_ok();
            self.lemma_watchers(x);
        }
        let mut nr = match &self.tableau[l.0] {
            Some(row) => row.duplicate(),
            None => {
                proof {
                    assert(false);
                }
                Lin::from_int(0)
            },
        };
        proof {
            assert(nr.coeffs() == rl.coeffs());
        }
        let c = nr.remove_var(e.0).unwrap();
        proof {
            assert(c == rl.coeffs()[e.0]);
        }
        let nc = match c.checked_neg() {
            Some(v) => v,
            None => {
                proof {
                    assert(!solvable(rl.coeffs(), e.0));
                }
                return None;
            },
        };
        if !nr.can_divide(&nc) {
            proof {
                assert(nr.coeffs() == rl.coeffs().remove(e.0));
                assert(!solvable(rl.coeffs(), e.0) || rl.known_term.div_spec(nc) is None);
            }
            return None;
        }
        nr.div_assign(&nc);
        let one = Rational::from_int(1);
        let ic = match one.checked_div(&c) {
            Some(v) => v,
            None => {
                proof {
                    assert(!solvable(rl.coeffs(), e.0));
                }
                return None;
            },
        };
        nr.set_coeff(l.0, ic);
        proof {
            assert(nr.coeffs() =~= pivot_coeffs(rl, e.0, l.0));
            assert(solvable(rl.coeffs(), e.0));
        }
        let mut rows: Vec<Lin> = Vec::new();
        let n = self.t_watches[e.0].len();
        for i in 0..n
            invariant
                n == self.watchers(x).len(),
                x == e.0 as int,
                0 <= x < self.num_vars(),
                self.inv_except(x),
                nr.wf(),
                rows@.len() == i,
                forall|j: int| 0 <= j < self.watchers(x).len() ==> (#[trigger] self.watchers(x)[j]).0 < self.num_vars()
                    && self.moves(self.watchers(x)[j].0 as int, x),
                forall|j: int| 0 <= j < i && self.watchers(x)[j] != l ==> {
                    let w = self.watchers(x)[j].0 as int;
                    &&& (#[trigger] rows@[j]).wf()
                    &&& rows@[j].coeffs() == subst_map(self.row(w).coeffs(), e.0, nr.coeffs())
                    &&& rows@[j].known_term == subst_known(self.row(w), e.0, nr.known_term)
                    &&& subst_ok(self.row(w).coeffs(), e.0, nr.coeffs())
                    &&& nr.known_term.mul_spec(self.row(w).coeffs()[e.0]) is Some
                    &&& self.row(w).known_term.add_spec(nr.known_term.mul_spec(self.row(w).coeffs()[e.0]).unwrap()) is Some
                },
                solvable(rl.coeffs(), e.0),
                rl.known_term.div_spec(rl.coeffs()[e.0].neg_spec().unwrap()) is Some,
                rl == self.row(l.0 as int),
                nr.coeffs() == pivot_coeffs(rl, e.0, l.0),
                nr.known_term == pivot_known(rl, e.0),
        {
            let w = self.t_watches[e.0][i];
            let ghost prev = rows@;
            if w.0 == l.0 {
                rows.push(Lin::from_int(0));
            } else {
                proof {
                    assert(self.moves(w.0 as int, x));
                    assert(self.row_ok(w.0 as int));
                }
                let mut row = match &self.tableau[w.0] {
                    Some(row) => row.duplicate(),
                    None => {
                        proof {
                            assert(false);
                        }
                        Lin::from_int(0)
                    },
                };
                proof {
                    assert(row.coeffs() == self.row(w.0 as int).coeffs());
                }
                if !row.can_substitute(e, &nr) {
                    proof {
                        assert(row.known_term == self.row(w.0 as int).known_term);
                        assert(w.0 as int != l.0 as int);
                        assert(!self.pivot_in_range(e.0 as int, l.0 as int));
                    }
                    return None;
                }
                let _ = row.substitute(e, &nr);
                rows.push(row);
            }
            proof {
                assert forall|j: int| 0 <= j < i + 1 && self.watchers(x)[j] != l implies {
                    let w = self.watchers(x)[j].0 as int;
                    &&& (#[trigger] rows@[j]).wf()
                    &&& rows@[j].coeffs() == subst_map(self.row(w).coeffs(), e.0, nr.coeffs())
                    &&& rows@[j].known_term == subst_known(self.row(w), e.0, nr.known_term)
                    &&& subst_ok(self.row(w).coeffs(), e.0, nr.coeffs())
                    &&& nr.known_term.mul_spec(self.row(w).coeffs()[e.0]) is Some
                    &&& self.row(w).known_term.add_spec(nr.known_term.mul_spec(self.row(w).coeffs()[e.0]).unwrap()) is Some
                } by {
                    if j < i {
                        assert(rows@[j] == prev[j]);
                    }
                }
            }
        }
        proof {
            assert forall|w: int| 0 <= w < self.num_vars() && w != l.0 && #[trigger] self.moves(w, x) implies {
                &&& subst_ok(self.row(w).coeffs(), e.0, pivot_coeffs(rl, e.0, l.0))
                &&& pivot_known(rl, e.0).mul_spec(self.row(w).coeffs()[e.0]) is Some
                &&& self.row(w).known_term.add_spec(pivot_known(rl, e.0).mul_spec(self.row(w).coeffs()[e.0]).unwrap()) is Some
            } by {
                let j = choose|j: int| 0 <= j < self.watchers(x).len() && self.watchers(x)[j] == VarId(w as usize);
                assert(self.watchers(x)[j] != l);
                assert(rows@[j].wf());
            }
        }
        Some((nr, rows))
    }
}

impl Engine {
    /// Swaps basic `l` with non-basic `e`, given the rows that
    /// [`Engine::compute_pivot`] computed: the row of `l` solved for `e`
    /// becomes the row of `e`, which becomes basic, and every other row
    /// containing `e` takes its substituted form; `l` becomes non-basic.
    #[verifier::spinoff_prover]
    fn pivot(&mut self, e: VarId, l: VarId, nr: Lin, rows: Vec<Lin>)
        requires
            old(self).inv_except(e.0 as int),
            e.0 < old(self).num_vars(),
            l.0 < old(self).num_vars(),
            old(self).basic(l.0 as int),
            !old(self).basic(e.0 as int),
            old(self).row(l.0 as int).coeffs().contains_key(e.0),
            old(self).lower(l.0 as int).leq(old(self).value(l.0 as int)),
            old(self).value(l.0 as int).leq(old(self).upper(l.0 as int)),
            nr.wf(),
            nr.coeffs() == pivot_coeffs(old(self).row(l.0 as int), e.0, l.0),
            nr.known_term == pivot_known(old(self).row(l.0 as int), e.0),
            rows@.len() == old(self).watchers(e.0 as int).len(),
            forall|i: int| 0 <= i < rows@.len() && old(self).watchers(e.0 as int)[i] != l ==> {
                let w = old(self).watchers(e.0 as int)[i].0 as int;
                &&& (#[trigger] rows@[i]).wf()
                &&& rows@[i].coeffs() == subst_map(old(self).row(w).coeffs(), e.0, nr.coeffs())
                &&& rows@[i].known_term == subst_known(old(self).row(w), e.0, nr.known_term)
            },
        ensures
            final(self).shape(),
            final(self).same_but_rows(old(self)),
            final(self).basic(e.0 as int),
            !final(self).basic(l.0 as int),
            final(self).row(e.0 as int).coeffs() == pivot_coeffs(old(self).row(l.0 as int), e.0, l.0),
            final(self).row(e.0 as int).known_term == pivot_known(old(self).row(l.0 as int), e.0),
            forall|w: int| 0 <= w < old(self).num_vars() && w != e.0 && w != l.0 ==> {
                &&& #[trigger] final(self).basic(w) == old(self).basic(w)
                &&& (old(self).basic(w) && !old(self).moves(w, e.0 as int) ==> final(self).row(w) == old(self).row(w))
                &&& (old(self).moves(w, e.0 as int) ==> final(self).row(w).coeffs() == subst_map(
                    old(self).row(w).coeffs(),
                    e.0,
                    pivot_coeffs(old(self).row(l.0 as int), e.0, l.0),
                ) && final(self).row(w).known_term == subst_known(
                    old(self).row(w),
                    e.0,
                    pivot_known(old(self).row(l.0 as int), e.0),
                ))
            },
    {
        let ghost o = *old(self);
        let ghost x = e.0 as int;
        let ghost ws = o.watchers(x);
        let ghost pc = pivot_coeffs(o.row(l.0 as int), e.0, l.0);
        proof {
            o.lemma_watchers(x);
        }
        let n = rows.len();
        for i in 0..n
            invariant
                n == rows@.len(),
                n == ws.len(),
                ws == o.watchers(x),
                x == e.0 as int,
                e.0 < o.num_vars(),
                o == *old(self),
                o.inv_except(x),
                nr.coeffs() == pc,
                self.assignments@ == o.assignments@,
                self.lbs@ == o.lbs@,
                self.ubs@ == o.ubs@,
                self.guard_bounds@ == o.guard_bounds@,
                self.t_watches@ == o.t_watches@,
                self.listened@ == o.listened@,
                self.notifications@ == o.notifications@,
                self.tableau@.len() == o.tableau@.len(),
                forall|j: int| 0 <= j < ws.len() ==> (#[trigger] ws[j]).0 < o.num_vars() && o.moves(ws[j].0 as int, x),
                forall|j: int| 0 <= j < n && ws[j] != l ==> {
                    let w = ws[j].0 as int;
                    &&& (#[trigger] rows@[j]).wf()
                    &&& rows@[j].coeffs() == subst_map(o.row(w).coeffs(), e.0, nr.coeffs())
                    &&& rows@[j].known_term == subst_known(o.row(w), e.0, nr.known_term)
                },
                forall|v: int| 0 <= v < o.num_vars() ==> if ws.take(i as int).contains(VarId(v as usize)) && v != l.0 {
                    &&& #[trigger] self.tableau@[v] is Some
                    &&& self.row(v).wf()
                    &&& self.row(v).coeffs() == subst_map(o.row(v).coeffs(), e.0, pc)
                    &&& self.row(v).known_term == subst_known(o.row(v), e.0, nr.known_term)
                } else {
                    self.tableau@[v] == o.tableau@[v]
                },
        {
            let w = self.t_watches[e.0][i];
            let ghost before = self.tableau@;
            proof {
                assert(w == ws[i as int]);
                assert(ws.take(i + 1) == ws.take(i as int).push(w));
            }
            if w.0 != l.0 {
                let row = rows[i].duplicate();
                self.tableau.set(w.0, Some(row));
            }
            proof {
                assert forall|v: int| 0 <= v < o.num_vars() implies if ws.take(i + 1).contains(VarId(v as usize)) && v != l.0 {
                    &&& #[trigger] self.tableau@[v] is Some
                    &&& self.row(v).wf()
                    &&& self.row(v).coeffs() == subst_map(o.row(v).coeffs(), e.0, pc)
                    &&& self.row(v).known_term == subst_known(o.row(v), e.0, nr.known_term)
                } else {
                    self.tableau@[v] == o.tableau@[v]
                } by {
                    crate::lin::lemma_push_contains(ws.take(i as int), w, VarId(v as usize));
                    if v != w.0 as int {
                        assert(self.tableau@[v] == before[v]);
                    } else if v != l.0 {
                        assert(rows@[i as int].coeffs() == subst_map(o.row(v).coeffs(), e.0, nr.coeffs()));
                    }
                }
            }
        }
        self.tableau.set(l.0, None);
        self.tableau.set(e.0, Some(nr));
        proof {
            assert(ws.take(n as int) == ws);
            assert(!ws.contains(VarId(e.0))) by {
                if ws.contains(VarId(e.0)) {
                    let j = choose|j: int| 0 <= j < ws.len() && ws[j] == VarId(e.0);
                    assert(o.moves(ws[j].0 as int, x));
                }
            }
            assert forall|v: int| 0 <= v < o.num_vars() implies ws.contains(VarId(v as usize)) == o.moves(v, x) by {
                if ws.contains(VarId(v as usize)) {
                    let j = choose|j: int| 0 <= j < ws.len() && ws[j] == VarId(v as usize);
                    assert(o.moves(ws[j].0 as int, x));
                } else {
                    assert(o.watchers(x).contains(VarId(v as usize)) <==> (o.basic(v)
                        && o.row(v).coeffs().contains_key(x as usize)));
                }
            }
            let lr = o.row(l.0 as int);
            assert(o.row_ok(l.0 as int));
            // rows of the new tableau are over non-basic variables
            assert forall|b: int| 0 <= b < self.num_vars() && #[trigger] self.basic(b) implies self.row_ok(b) by {
                if b == x {
                    assert forall|k: usize| #[trigger] self.row(b).coeffs().contains_key(k) implies k < self.num_vars() && !self.basic(k as int) by {
                        if k != l.0 {
                            assert(lr.coeffs().contains_key(k));
                        }
                    }
                } else {
                    assert(b != l.0);
                    assert(o.basic(b));
                    assert(o.row_ok(b));
                    if o.moves(b, x) {
                        assert forall|k: usize| #[trigger] self.row(b).coeffs().contains_key(k) implies k < self.num_vars() && !self.basic(k as int) by {
                            if pc.contains_key(k) {
                                if k != l.0 {
                                    assert(lr.coeffs().contains_key(k));
                                }
                            } else {
                                assert(o.row(b).coeffs().contains_key(k));
                            }
                        }
                    } else {
                        assert(!ws.contains(VarId(b as usize)));
                        assert forall|k: usize| #[trigger] self.row(b).coeffs().contains_key(k) implies k < self.num_vars() && !self.basic(k as int) by {
                            assert(o.row(b).coeffs().contains_key(k));
                            if k == e.0 {
                                assert(o.moves(b, x));
                            }
                        }
                    }
                }
            }
            assert(self.sizes_ok());
        }
        let ghost t = *self;
        self.rebuild_watches();
        proof {
            assert forall|v: int| 0 <= v < self.num_vars() implies (#[trigger] self.value(v)).wf() && self.value(v).is_fin() by {
                assert(o.value(v).wf());
            }
            assert forall|v: int| 0 <= v < self.num_vars() implies bounds_ok(#[trigger] self.lower_entries(v), self.num_guards()) by {
                assert(bounds_ok(o.lower_entries(v), o.num_guards()));
            }
            assert forall|v: int| 0 <= v < self.num_vars() implies bounds_ok(#[trigger] self.upper_entries(v), self.num_guards()) by {
                assert(bounds_ok(o.upper_entries(v), o.num_guards()));
            }
            assert forall|v: int| 0 <= v < self.num_vars() implies (#[trigger] self.lower(v)).leq(self.upper(v)) by {
                assert(o.lower(v).leq(o.upper(v)));
            }
            assert forall|v: int| 0 <= v < self.num_vars() && !self.basic(v) implies (#[trigger] self.lower(v)).leq(self.value(v))
                && self.value(v).leq(self.upper(v)) by {
                if v != l.0 {
                    assert(self.tableau@[v] == t.tableau@[v]);
                    assert(v != x);
                    assert(!o.basic(v));
                    assert(o.lower(v).leq(o.value(v)));
                }
            }
            Engine::lemma_frame_guards(&o, self);
            assert forall|w: int| 0 <= w < old(self).num_vars() && w != e.0 && w != l.0 implies {
                &&& #[trigger] self.basic(w) == old(self).basic(w)
                &&& (old(self).basic(w) && !old(self).moves(w, e.0 as int) ==> self.row(w) == old(self).row(w))
                &&& (old(self).moves(w, e.0 as int) ==> self.row(w).coeffs() == subst_map(old(self).row(w).coeffs(), e.0, pc)
                    && self.row(w).known_term == subst_known(old(self).row(w), e.0, pivot_known(old(self).row(l.0 as int), e.0)))
            } by {
                assert(self.tableau@[w] == t.tableau@[w]);
            }
        }
    }

    /// Everything but the tableau and the watch lists is as in `o`.
    closed spec fn same_but_rows(&self, o: &Engine) -> bool {
        &&& self.assignments@ == o.assignments@
        &&& self.lbs@ == o.lbs@
        &&& self.ubs@ == o.ubs@
        &&& self.guard_bounds@ == o.guard_bounds@
        &&& self.listened@ == o.listened@
        &&& self.notifications@ == o.notifications@
        &&& self.tableau@.len() == o.tableau@.len()
    }
}

impl Engine {
    /// The value of basic `w` once `var` moves by `d`: `value(w) + row(w)[var] · d`.
    pub open spec fn moved(&self, w: int, var: int, d: InfRational) -> Option<InfRational> {
        match d.mul_rat_spec(self.row(w).coeffs()[var as usize]) {
            Some(delta) => self.value(w).add_spec(delta),
            None => None,
        }
    }

    /// Computes the values of the watchers of `var` (but `skip`) once `var`
    /// moves by `d`, in the order of the watch list; `None` when one is out
    /// of range.
    fn compute_moves(&self, var: VarId, d: &InfRational, skip: VarId) -> (r: Option<Vec<InfRational>>)
        requires
            self.inv_except(var.0 as int),
            var.0 < self.num_vars(),
            d.wf(),
            d.is_fin(),
        ensures
            r matches Some(c) ==> c@.len() == self.watchers(var.0 as int).len() && forall|i: int| 0 <= i < c@.len()
                && self.watchers(var.0 as int)[i] != skip ==> Some(#[trigger] c@[i]) == self.moved(
                self.watchers(var.0 as int)[i].0 as int,
                var.0 as int,
                *d,
            ) && c@[i].wf() && c@[i].is_fin(),
            r is Some <==> forall|i: int| 0 <= i < self.watchers(var.0 as int).len() && self.watchers(var.0 as int)[i] != skip
                ==> #[trigger] self.moved(self.watchers(var.0 as int)[i].0 as int, var.0 as int, *d) is Some,
    {
        let ghost v = var.0 as int;
        proof {
            self.lemma_watchers(v);
        }
        let ws = &self.t_watches[var.0];
        let mut out: Vec<InfRational> = Vec::new();
        let mut i: usize = 0;
        while i < ws.len()
            invariant
                i <= ws@.len(),
                v == var.0 as int,
                d.wf(),
                d.is_fin(),
                self.inv_except(v),
                0 <= v < self.num_vars(),
                ws@ == self.watchers(v),
                out@.len() == i,
                forall|j: int| 0 <= j < i && ws@[j] != skip ==> Some(#[trigger] out@[j]) == self.moved(ws@[j].0 as int, v, *d)
                    && out@[j].wf() && out@[j].is_fin(),
                forall|j: int| 0 <= j < ws@.len() ==> (#[trigger] ws@[j]).0 < self.num_vars() && self.moves(ws@[j].0 as int, v),
            decreases ws@.len() - i,
        {
            let w = ws[i];
            let ghost prev = out@;
            if w == skip {
                out.push(InfRational::zero());
            } else {
                proof {
                    assert(ws@[i as int].0 < self.num_vars() && self.moves(ws@[i as int].0 as int, v));
                    assert(self.row_ok(w.0 as int));
                    assert(self.value(w.0 as int).wf());
                    self.row(w.0 as int).lemma_coeffs_ok();
                }
                let c = match &self.tableau[w.0] {
                    Some(row) => {
                        proof {
                            assert(*row == self.row(w.0 as int));
                            assert(row.coeffs().contains_key(var.0));
                        }
                        row.get(var).unwrap()
                    },
                    None => {
                        proof {
                            assert(false);
                        }
                        Rational::zero()
                    },
                };
                proof {
                    assert(c == self.row(w.0 as int).coeffs()[v as usize]);
                    assert(c.wf() && c.is_fin());
                    assert(self.value(w.0 as int).is_fin());
                }
                let delta = match d.checked_mul_rat(&c) {
                    Some(x) => x,
                    None => {
                        proof {
                            assert(self.moved(ws@[i as int].0 as int, v, *d) is None);
                        }
                        return None;
                    },
                };
                let x = match self.assignments[w.0].checked_add(&delta) {
                    Some(x) => x,
                    None => {
                        proof {
                            assert(self.moved(ws@[i as int].0 as int, v, *d) is None);
                        }
                        return None;
                    },
                };
                out.push(x);
            }
            i = i + 1;
            proof {
                assert forall|j: int| 0 <= j < i && ws@[j] != skip implies Some(#[trigger] out@[j]) == self.moved(ws@[j].0 as int, v, *d)
                    && out@[j].wf() && out@[j].is_fin() by {
                    if j < i - 1 {
                        assert(out@[j] == prev[j]);
                    }
                }
            }
        }
        proof {
            assert forall|j: int| 0 <= j < ws@.len() && ws@[j] != skip implies #[trigger] self.moved(ws@[j].0 as int, v, *d) is Some by {
                assert(Some(out@[j]) == self.moved(ws@[j].0 as int, v, *d));
            }
        }
        Some(out)
    }
}

impl Engine {
    /// The reports of changes of `vs`, but `skip`, in order.
    pub open spec fn reports_but(&self, vs: Seq<VarId>, skip: VarId) -> Seq<Notification>
        decreases vs.len(),
    {
        if vs.len() == 0 {
            Seq::empty()
        } else {
            self.reports_but(vs.drop_last(), skip) + if vs.last() == skip {
                Seq::empty()
            } else {
                self.report(vs.last())
            }
        }
    }

    proof fn lemma_same_reports_but(e: &Engine, o: &Engine, vs: Seq<VarId>, skip: VarId)
        requires
            e.same_but_events(o),
        ensures
            e.reports_but(vs, skip) == o.reports_but(vs, skip),
        decreases vs.len(),
    {
        if vs.len() > 0 {
            Engine::lemma_same_reports_but(e, o, vs.drop_last(), skip);
            assert(e.report(vs.last()) == o.report(vs.last()));
        }
    }

    /// Reports a change of each of `vs` but `skip`, in order.
    fn notify_but(&mut self, vs: &Vec<VarId>, skip: VarId)
        requires
            old(self).shape(),
            forall|i: int| 0 <= i < vs@.len() ==> (#[trigger] vs@[i]).0 < old(self).num_vars(),
        ensures
            final(self).shape(),
            final(self).same_but_events(old(self)),
            final(self).events() == old(self).events() + old(self).reports_but(vs@, skip),
    {
        let ghost o = *old(self);
        let n = vs.len();
        for i in 0..n
            invariant
                n == vs@.len(),
                o == *old(self),
                self.shape(),
                self.same_but_events(&o),
                forall|j: int| 0 <= j < vs@.len() ==> (#[trigger] vs@[j]).0 < o.num_vars(),
                self.events() == o.events() + o.reports_but(vs@.take(i as int), skip),
        {
            let w = vs[i];
            proof {
                assert(vs@.take(i + 1).drop_last() == vs@.take(i as int));
                assert(vs@.take(i + 1).last() == w);
            }
            if w != skip {
                let ghost before = *self;
                self.notify(w);
                proof {
                    assert(before.report(w) == o.report(w));
                }
            }
            proof {
                assert(self.events() == o.events() + o.reports_but(vs@.take(i + 1), skip));
            }
        }
        proof {
            assert(vs@.take(n as int) == vs@);
        }
    }

    proof fn lemma_inv_except(&self, x: int)
        requires
            self.shape(),
        ensures
            self.inv_except(x),
    {
    }

    /// Sets `l` to `nv`, `e` to `ne` and each watcher of `e` but `l` to its
    /// entry of `news`.
    #[verifier::spinoff_prover]
    fn apply_moves(&mut self, e: VarId, l: VarId, nv: InfRational, ne: InfRational, news: &Vec<InfRational>)
        requires
            old(self).shape(),
            e.0 < old(self).num_vars(),
            l.0 < old(self).num_vars(),
            old(self).basic(l.0 as int),
            !old(self).basic(e.0 as int),
            nv.wf() && nv.is_fin(),
            ne.wf() && ne.is_fin(),
            news@.len() == old(self).watchers(e.0 as int).len(),
            forall|i: int| 0 <= i < news@.len() && old(self).watchers(e.0 as int)[i] != l ==> (#[trigger] news@[i]).wf()
                && news@[i].is_fin(),
        ensures
            final(self).inv_except(e.0 as int),
            final(self).keeps_structure(old(self)),
            final(self).events() == old(self).events(),
            final(self).value(l.0 as int) == nv,
            final(self).value(e.0 as int) == ne,
            forall|i: int| 0 <= i < news@.len() && old(self).watchers(e.0 as int)[i] != l ==> #[trigger] final(self).value(
                old(self).watchers(e.0 as int)[i].0 as int,
            ) == news@[i],
            forall|v: int| 0 <= v < old(self).num_vars() && v != l.0 && v != e.0 && !old(self).moves(v, e.0 as int)
                ==> #[trigger] final(self).value(v) == old(self).value(v),
    {
        let ghost o = *old(self);
        let ghost x = e.0 as int;
        let ghost ws = o.watchers(x);
        proof {
            o.lemma_watchers(x);
            assert forall|i: int, j: int| 0 <= i < j < ws.len() implies ws[i] != ws[j] by {
                assert(o.watchers(x)[i] != o.watchers(x)[j]);
            }
        }
        let n = news.len();
        for i in 0..n
            invariant
                n == news@.len(),
                n == ws.len(),
                x == e.0 as int,
                0 <= x < o.num_vars(),
                o == *old(self),
                ws == o.watchers(x),
                !o.basic(x),
                o.shape(),
                self.shape(),
                self.keeps_structure(&o),
                self.events() == o.events(),
                forall|j: int| 0 <= j < n && ws[j] != l ==> (#[trigger] news@[j]).wf() && news@[j].is_fin(),
                forall|j: int| 0 <= j < ws.len() ==> (#[trigger] ws[j]).0 < o.num_vars() && o.moves(ws[j].0 as int, x),
                forall|a: int, b: int| 0 <= a < b < ws.len() ==> ws[a] != ws[b],
                forall|j: int| 0 <= j < i && ws[j] != l ==> #[trigger] self.value(ws[j].0 as int) == news@[j],
                forall|v: int| 0 <= v < o.num_vars() && !ws.take(i as int).contains(VarId(v as usize)) ==> #[trigger] self.value(v) == o.value(v),
        {
            let w = self.t_watches[e.0][i];
            let ghost before = *self;
            proof {
                assert(w == ws[i as int]);
                assert(o.moves(w.0 as int, x));
                assert(ws.take(i + 1) == ws.take(i as int).push(w));
            }
            if w.0 != l.0 {
                self.assignments.set(w.0, news[i]);
                proof {
                    assert forall|v: int| 0 <= v < self.num_vars() implies (#[trigger] self.value(v)).wf() && self.value(v).is_fin() by {
                        if v != w.0 as int {
                            assert(self.value(v) == before.value(v));
                            assert(before.value(v).wf());
                        }
                    }
                    assert forall|v: int| 0 <= v < self.num_vars() && !self.basic(v) implies (#[trigger] self.lower(v)).leq(self.value(v))
                        && self.value(v).leq(self.upper(v)) by {
                        assert(before.basic(v) == self.basic(v));
                        assert(o.basic(w.0 as int));
                        assert(before.basic(w.0 as int));
                        assert(v != w.0 as int);
                        assert(self.value(v) == before.value(v));
                        assert(before.lower(v).leq(before.value(v)));
                    }
                    assert(self.nonbasic_ok());
                    assert(self.keeps_structure(&before));
                    Engine::lemma_values_only(&before, self);
                }
            }
            proof {
                assert forall|j: int| 0 <= j < i + 1 && ws[j] != l implies #[trigger] self.value(ws[j].0 as int) == news@[j] by {
                    if j < i {
                        assert(ws[j] != ws[i as int]);
                        assert(before.value(ws[j].0 as int) == news@[j]);
                    }
                }
                assert forall|v: int| 0 <= v < o.num_vars() && !ws.take(i + 1).contains(VarId(v as usize)) implies #[trigger] self.value(v) == o.value(v) by {
                    crate::lin::lemma_push_contains(ws.take(i as int), w, VarId(v as usize));
                    assert(before.value(v) == o.value(v));
                }
            }
        }
        let ghost before = *self;
        self.assignments.set(l.0, nv);
        self.assignments.set(e.0, ne);
        proof {
            assert(ws.take(n as int) == ws);
            assert(!ws.contains(VarId(e.0))) by {
                if ws.contains(VarId(e.0)) {
                    let j = choose|j: int| 0 <= j < ws.len() && ws[j] == VarId(e.0);
                    assert(o.moves(ws[j].0 as int, x));
                }
            }
            assert forall|v: int| 0 <= v < self.num_vars() implies (#[trigger] self.value(v)).wf() && self.value(v).is_fin() by {
                if v != l.0 && v != e.0 {
                    assert(self.value(v) == before.value(v));
                    assert(before.value(v).wf());
                }
            }
            assert forall|v: int| 0 <= v < self.num_vars() && !self.basic(v) && v != x implies (#[trigger] self.lower(v)).leq(self.value(v))
                && self.value(v).leq(self.upper(v)) by {
                assert(before.basic(v) == self.basic(v));
                assert(v != l.0);
                assert(self.value(v) == before.value(v));
                assert(before.lower(v).leq(before.value(v)));
            }
            Engine::lemma_frame_rows(&before, self);
            Engine::lemma_frame_guards(&before, self);
            assert forall|v: int| 0 <= v < self.num_vars() implies bounds_ok(#[trigger] self.lower_entries(v), self.num_guards()) by {
                assert(bounds_ok(before.lower_entries(v), before.num_guards()));
            }
            assert forall|v: int| 0 <= v < self.num_vars() implies bounds_ok(#[trigger] self.upper_entries(v), self.num_guards()) by {
                assert(bounds_ok(before.upper_entries(v), before.num_guards()));
            }
            assert forall|v: int| 0 <= v < self.num_vars() implies (#[trigger] self.lower(v)).leq(self.upper(v)) by {
                assert(before.lower(v).leq(before.upper(v)));
            }
            assert forall|j: int| 0 <= j < n && ws[j] != l implies #[trigger] self.value(ws[j].0 as int) == news@[j] by {
                assert(before.value(ws[j].0 as int) == news@[j]);
            }
            assert forall|v: int| 0 <= v < o.num_vars() && v != l.0 && v != e.0 && !o.moves(v, x) implies #[trigger] self.value(v) == o.value(v) by {
                if ws.contains(VarId(v as usize)) {
                    let j = choose|j: int| 0 <= j < ws.len() && ws[j] == VarId(v as usize);
                    assert(o.moves(ws[j].0 as int, x));
                }
                assert(before.value(v) == o.value(v));
            }
        }
    }
}

impl Engine {
    /// The rows after `pivot` are those of `o` with `l` traded for `e`.
    proof fn lemma_pivoted(o: &Engine, p: &Engine, ev: VarId, lv: VarId)
        requires
            o.sizes_ok(),
            o.rows_ok(),
            p.shape(),
            p.num_vars() == o.num_vars(),
            ev.0 < o.num_vars(),
            lv.0 < o.num_vars(),
            ev != lv,
            o.basic(lv.0 as int),
            !o.basic(ev.0 as int),
            p.basic(ev.0 as int),
            !p.basic(lv.0 as int),
            p.row(ev.0 as int).coeffs() == pivot_coeffs(o.row(lv.0 as int), ev.0, lv.0),
            p.row(ev.0 as int).known_term == pivot_known(o.row(lv.0 as int), ev.0),
            o.row(lv.0 as int).known_term.div_spec(o.row(lv.0 as int).coeffs()[ev.0].neg_spec().unwrap()) is Some,
            forall|w: int| 0 <= w < o.num_vars() && w != ev.0 && w != lv.0 ==> {
                &&& #[trigger] p.basic(w) == o.basic(w)
                &&& (o.basic(w) && !o.moves(w, ev.0 as int) ==> p.row(w) == o.row(w))
                &&& (o.moves(w, ev.0 as int) ==> p.row(w).coeffs() == subst_map(
                    o.row(w).coeffs(),
                    ev.0,
                    pivot_coeffs(o.row(lv.0 as int), ev.0, lv.0),
                ) && p.row(w).known_term == subst_known(
                    o.row(w),
                    ev.0,
                    pivot_known(o.row(lv.0 as int), ev.0),
                ))
            },
            forall|w: int| 0 <= w < o.num_vars() && w != lv.0 && #[trigger] o.moves(w, ev.0 as int) ==> {
                &&& subst_ok(o.row(w).coeffs(), ev.0, pivot_coeffs(o.row(lv.0 as int), ev.0, lv.0))
                &&& pivot_known(o.row(lv.0 as int), ev.0).mul_spec(o.row(w).coeffs()[ev.0]) is Some
                &&& o.row(w).known_term.add_spec(
                    pivot_known(o.row(lv.0 as int), ev.0).mul_spec(o.row(w).coeffs()[ev.0]).unwrap(),
                ) is Some
            },
        ensures
            pivoted(o.tableau@, p.tableau@, ev.0 as int, lv.0 as int),
    {
        let e = ev.0 as int;
        let l = lv.0 as int;
        let tab = o.tableau@;
        let tab2 = p.tableau@;
        assert(p.row_ok(e));
        assert forall|w: int| 0 <= w < tab.len() && w != e && w != l implies {
            let rw = tab[w].unwrap();
            let ae = rw.coeffs()[e as usize];
            if (#[trigger] tab[w]) is Some && rw.coeffs().contains_key(e as usize) {
                &&& tab2[w] is Some
                &&& tab2[w].unwrap().wf()
                &&& subst_ok(rw.coeffs(), e as usize, tab2[e].unwrap().coeffs())
                &&& tab2[e].unwrap().known_term.mul_spec(ae) is Some
                &&& rw.known_term.add_spec(tab2[e].unwrap().known_term.mul_spec(ae).unwrap()) is Some
                &&& tab2[w].unwrap().coeffs() == subst_map(rw.coeffs(), e as usize, tab2[e].unwrap().coeffs())
                &&& tab2[w].unwrap().known_term == rw.known_term.add_spec(
                    tab2[e].unwrap().known_term.mul_spec(ae).unwrap(),
                ).unwrap()
            } else {
                tab2[w] == tab[w]
            }
        } by {
            assert(p.basic(w) == o.basic(w));
            if tab[w] is Some && tab[w].unwrap().coeffs().contains_key(e as usize) {
                assert(o.moves(w, e));
                assert(p.row_ok(w));
            } else if tab[w] is Some {
                assert(!o.moves(w, e));
                assert(p.row(w) == o.row(w));
            }
        }
    }

    /// The same values satisfy the rows of `self` and those of `o`.
    pub closed spec fn same_solutions(&self, o: &Engine) -> bool {
        forall|vals: Seq<InfRational>| vals.len() == o.num_vars() && vals_fin(vals) ==> (#[trigger] rows_hold(
            vals,
            self.tableau@,
        ) <==> rows_hold(vals, o.tableau@))
    }

    /// A pivot keeps exactly the solutions of the rows.
    proof fn lemma_pivot_solutions(o: &Engine, f: &Engine, e: int, l: int)
        requires
            o.shape(),
            0 <= e < o.num_vars(),
            0 <= l < o.num_vars(),
            e != l,
            o.basic(l),
            !o.basic(e),
            solvable(o.row(l).coeffs(), e as usize),
            pivoted(o.tableau@, f.tableau@, e, l),
        ensures
            f.same_solutions(o),
    {
        o.lemma_rows_view();
        assert forall|vals: Seq<InfRational>| vals.len() == o.num_vars() && vals_fin(vals) implies (#[trigger] rows_hold(
            vals,
            f.tableau@,
        ) <==> rows_hold(vals, o.tableau@)) by {
            if rows_hold(vals, o.tableau@) {
                lemma_pivot_rows(vals, o.tableau@, f.tableau@, e, l);
            }
            if rows_hold(vals, f.tableau@) {
                lemma_unpivot_rows(vals, o.tableau@, f.tableau@, e, l);
            }
        }
    }

    /// Keeping the solutions of the rows is transitive.
    proof fn lemma_same_solutions_trans(a: &Engine, b: &Engine, c: &Engine)
        requires
            b.same_solutions(a),
            c.same_solutions(b),
            b.num_vars() == a.num_vars(),
        ensures
            c.same_solutions(a),
    {
        assert forall|vals: Seq<InfRational>| vals.len() == a.num_vars() && vals_fin(vals) implies (#[trigger] rows_hold(
            vals,
            c.tableau@,
        ) <==> rows_hold(vals, a.tableau@)) by {
            assert(rows_hold(vals, c.tableau@) <==> rows_hold(vals, b.tableau@));
            assert(rows_hold(vals, b.tableau@) <==> rows_hold(vals, a.tableau@));
        }
    }

    /// The rows as a public statement: `rows_satisfied` is `rows_hold`.
    proof fn lemma_rows_satisfied(&self, vals: Seq<InfRational>)
        requires
            self.sizes_ok(),
            vals.len() == self.num_vars(),
        ensures
            self.rows_satisfied(vals) == rows_hold(vals, self.tableau@),
    {
        reveal(rows_hold);
        if self.rows_satisfied(vals) {
            assert forall|b: int| 0 <= b < vals.len() && (#[trigger] self.tableau@[b]) is Some implies holds(
                self.tableau@[b].unwrap(),
                vals,
                vals[b],
            ) by {
                assert(self.basic(b));
            }
        }
        if rows_hold(vals, self.tableau@) {
            assert forall|b: int| 0 <= b < self.num_vars() && #[trigger] self.basic(b) implies holds(self.row(b), vals, vals[b]) by {
                assert(self.tableau@[b] is Some);
            }
        }
    }

    /// What keeping the solutions of the rows says publicly.
    proof fn lemma_solutions_public(f: &Engine, o: &Engine)
        requires
            f.same_solutions(o),
            f.sizes_ok(),
            o.sizes_ok(),
            f.num_vars() == o.num_vars(),
        ensures
            forall|vals: Seq<InfRational>| vals.len() == o.num_vars() && vals_fin(vals) ==> (#[trigger] f.rows_satisfied(vals)
                <==> o.rows_satisfied(vals)),
    {
        assert forall|vals: Seq<InfRational>| vals.len() == o.num_vars() && vals_fin(vals) implies (#[trigger] f.rows_satisfied(
            vals,
        ) <==> o.rows_satisfied(vals)) by {
            f.lemma_rows_satisfied(vals);
            o.lemma_rows_satisfied(vals);
            assert(rows_hold(vals, f.tableau@) <==> rows_hold(vals, o.tableau@));
        }
    }

    /// A pivot with its moves keeps the values of the basic variables those
    /// of their rows.
    proof fn lemma_pivot_consistent(o: &Engine, f: &Engine, e: int, l: int, nv: InfRational)
        requires
            o.shape(),
            o.consistent(),
            f.shape(),
            f.num_vars() == o.num_vars(),
            0 <= e < o.num_vars(),
            0 <= l < o.num_vars(),
            e != l,
            o.basic(l),
            !o.basic(e),
            o.row(l).coeffs().contains_key(e as usize),
            o.row(l).coeffs()[e as usize].num != 0,
            nv.wf(),
            nv.is_fin(),
            o.theta(e, l, nv) is Some,
            o.value(e).add_spec(o.theta(e, l, nv).unwrap()) is Some,
            f.value(l) == nv,
            f.value(e) == o.value(e).add_spec(o.theta(e, l, nv).unwrap()).unwrap(),
            forall|w: int| 0 <= w < o.num_vars() && w != e && w != l ==> #[trigger] f.value(w) == o.after_move(w, e, l, nv),
            forall|w: int| 0 <= w < o.num_vars() && w != l && #[trigger] o.moves(w, e) ==> o.moved(
                w,
                e,
                o.theta(e, l, nv).unwrap(),
            ) is Some,
            solvable(o.row(l).coeffs(), e as usize),
            pivoted(o.tableau@, f.tableau@, e, l),
        ensures
            f.consistent(),
    {
        o.lemma_rows_view();
        f.lemma_rows_view();
        let vals = o.assignments@;
        let vals2 = f.assignments@;
        let tab = o.tableau@;
        let n = vals.len();
        let theta = o.theta(e, l, nv).unwrap();
        let c = o.row(l).coeffs()[e as usize];
        assert(o.row_ok(l));
        o.row(l).lemma_coeffs_ok();
        assert(o.value(l).wf() && o.value(e).wf());
        lemma_theta_exact(o.value(l), nv, o.value(e), c);
        assert forall|k: int| 0 <= k < n && k != e && tab[k] is None implies #[trigger] vals2[k] == vals[k] by {
            assert(!o.basic(k));
            assert(k != l);
            assert(f.value(k) == o.after_move(k, e, l, nv));
            assert(!o.moves(k, e));
        }
        assert forall|b: int| 0 <= b < n && (#[trigger] tab[b]) is Some implies if tab[b].unwrap().coeffs().contains_key(
            e as usize,
        ) {
            shifted_by(vals2[b], vals[b], tab[b].unwrap().coeffs()[e as usize], vals2[e], vals[e])
        } else {
            vals2[b] == vals[b]
        } by {
            assert(o.basic(b));
            assert(b != e);
            if b == l {
            } else {
                assert(f.value(b) == o.after_move(b, e, l, nv));
                if tab[b].unwrap().coeffs().contains_key(e as usize) {
                    assert(o.moves(b, e));
                    assert(o.moved(b, e, theta) is Some);
                    assert(o.row_ok(b));
                    o.row(b).lemma_coeffs_ok();
                    let cb = o.row(b).coeffs()[e as usize];
                    assert(o.value(b).wf());
                    lemma_move_exact(o.value(b), o.value(e), theta, cb);
                } else {
                    assert(!o.moves(b, e));
                }
            }
        }
        lemma_move_rows(vals, vals2, tab, e);
        lemma_pivot_rows(vals2, tab, f.tableau@, e, l);
    }
}

impl Engine {
    /// The move of the entering variable `e` that brings basic `l` to `nv`:
    /// `(nv - value(l)) / row(l)[e]`.
    pub open spec fn theta(&self, e: int, l: int, nv: InfRational) -> Option<InfRational> {
        match nv.sub_spec(self.value(l)) {
            Some(d) => d.div_rat_spec(self.row(l).coeffs()[e as usize]),
            None => None,
        }
    }

    /// The value of `w`, neither `e` nor `l`, once `e` moves so that `l`
    /// takes the value `nv`.
    pub open spec fn after_move(&self, w: int, e: int, l: int, nv: InfRational) -> InfRational {
        if self.moves(w, e) {
            self.moved(w, e, self.theta(e, l, nv).unwrap()).unwrap()
        } else {
            self.value(w)
        }
    }

    /// Moves non-basic `e` so that basic `l` takes the value `nv` (the
    /// basic variables depending on `e` following), then pivots `e` and
    /// `l`. Returns `false`, changing nothing, when a value or a
    /// coefficient is out of range.
    #[verifier::rlimit(80)]
    fn pivot_and_update(&mut self, e: VarId, l: VarId, nv: InfRational) -> (ok: bool)
        requires
            old(self).shape(),
            old(self).consistent(),
            e.0 < old(self).num_vars(),
            l.0 < old(self).num_vars(),
            old(self).basic(l.0 as int),
            !old(self).basic(e.0 as int),
            old(self).row(l.0 as int).coeffs().contains_key(e.0),
            old(self).row(l.0 as int).coeffs()[e.0].num != 0,
            nv.wf(),
            nv.is_fin(),
            old(self).lower(l.0 as int).leq(nv),
            nv.leq(old(self).upper(l.0 as int)),
        ensures
            ok == old(self).pivot_update_in_range(e.0 as int, l.0 as int, nv),
            !ok ==> *final(self) == *old(self),
            ok ==> final(self).same_solutions(old(self)),
            ok ==> (final(self).inv()),
            ok ==> (final(self).num_vars() == old(self).num_vars()),
            ok ==> (final(self).num_guards() == old(self).num_guards()),
            ok ==> (final(self).basic(e.0 as int)),
            ok ==> (!final(self).basic(l.0 as int)),
            ok ==> (final(self).row(e.0 as int).coeffs() == pivot_coeffs(old(self).row(l.0 as int), e.0, l.0)),
            ok ==> (final(self).row(e.0 as int).known_term == pivot_known(old(self).row(l.0 as int), e.0)),
            ok ==> (final(self).value(l.0 as int) == nv),
            ok ==> (final(self).value(e.0 as int) == old(self).value(e.0 as int).add_spec(
                old(self).theta(e.0 as int, l.0 as int, nv).unwrap(),
            ).unwrap()),
            ok ==> (forall|w: int| 0 <= w < old(self).num_vars() && w != e.0 && w != l.0 ==> {
                &&& #[trigger] final(self).basic(w) == old(self).basic(w)
                &&& final(self).lower_entries(w) == old(self).lower_entries(w)
                &&& final(self).upper_entries(w) == old(self).upper_entries(w)
                &&& final(self).is_listened(w) == old(self).is_listened(w)
                &&& (old(self).basic(w) && !old(self).moves(w, e.0 as int) ==> final(self).row(w) == old(self).row(w))
                &&& (old(self).moves(w, e.0 as int) ==> final(self).row(w).coeffs() == subst_map(
                    old(self).row(w).coeffs(),
                    e.0,
                    pivot_coeffs(old(self).row(l.0 as int), e.0, l.0),
                ) && final(self).row(w).known_term == subst_known(
                    old(self).row(w),
                    e.0,
                    pivot_known(old(self).row(l.0 as int), e.0),
                ))
                &&& final(self).value(w) == old(self).after_move(w, e.0 as int, l.0 as int, nv)
            }),
            ok ==> (forall|v: int| 0 <= v < old(self).num_vars() ==> {
                &&& #[trigger] final(self).lower_entries(v) == old(self).lower_entries(v)
                &&& final(self).upper_entries(v) == old(self).upper_entries(v)
                &&& final(self).is_listened(v) == old(self).is_listened(v)
            }),
            ok ==> (forall|g: int| 0 <= g < old(self).num_guards() ==> #[trigger] final(self).pending_lbs(g) == old(self).pending_lbs(g)
                && final(self).pending_ubs(g) == old(self).pending_ubs(g)),
            ok ==> (final(self).events() == old(self).events() + final(self).report(l) + final(self).report(e)
                + final(self).reports_but(old(self).watchers(e.0 as int), l)),
    {
        let ghost o = *old(self);
        let ghost x = e.0 as int;
        proof {
            self.lemma_inv_except(x);
            o.lemma_watchers(x);
            assert(o.row_ok(l.0 as int));
            o.row(l.0 as int).lemma_coeffs_ok();
            assert(o.value(l.0 as int).wf() && o.value(l.0 as int).is_fin());
            assert(o.value(x).wf() && o.value(x).is_fin());
        }
        let (nr, rows) = match self.compute_pivot(e, l) {
            Some(p) => p,
            None => {
                proof {
                    assert(!o.pivot_in_range(x, l.0 as int));
                }
                return false;
            },
        };
        let ghost nrg = nr;
        let ghost rowsg = rows@;
        let c = match &self.tableau[l.0] {
            Some(row) => row.get(e).unwrap(),
            None => {
                proof {
                    assert(false);
                }
                Rational::zero()
            },
        };
        proof {
            assert(c == o.row(l.0 as int).coeffs()[e.0]);
        }
        let d = match nv.checked_sub(&self.assignments[l.0]) {
            Some(d) => d,
            None => {
                proof {
                    assert(o.theta(x, l.0 as int, nv) is None);
                }
                return false;
            },
        };
        let theta = match d.checked_div_rat(&c) {
            Some(t) => t,
            None => {
                proof {
                    assert(o.theta(x, l.0 as int, nv) is None);
                }
                return false;
            },
        };
        proof {
            assert(o.theta(x, l.0 as int, nv) == Some(theta));
        }
        let ne = match self.assignments[e.0].checked_add(&theta) {
            Some(v) => v,
            None => return false,
        };
        let news = match self.compute_moves(e, &theta, l) {
            Some(c) => c,
            None => {
                proof {
                    let j = choose|j: int| 0 <= j < o.watchers(x).len() && o.watchers(x)[j] != l && !(#[trigger] o.moved(
                        o.watchers(x)[j].0 as int,
                        x,
                        theta,
                    ) is Some);
                    assert(o.moves(o.watchers(x)[j].0 as int, x));
                    assert(o.watchers(x)[j].0 as int != l.0 as int);
                    assert(!o.pivot_update_in_range(x, l.0 as int, nv));
                }
                return false;
            },
        };
        proof {
            assert(o.pivot_update_in_range(x, l.0 as int, nv)) by {
                assert forall|w: int| 0 <= w < o.num_vars() && w != l.0 && #[trigger] o.moves(w, x) implies o.moved(w, x, theta) is Some by {
                    let j = choose|j: int| 0 <= j < o.watchers(x).len() && o.watchers(x)[j] == VarId(w as usize);
                    assert(o.watchers(x)[j] != l);
                    assert(Some(news@[j]) == o.moved(o.watchers(x)[j].0 as int, x, theta));
                }
            }
        }
        let n = self.t_watches[e.0].len();
        let mut ws: Vec<VarId> = Vec::new();
        for i in 0..n
            invariant
                n == o.watchers(x).len(),
                x == e.0 as int,
                0 <= x < o.num_vars(),
                o == *old(self),
                o.shape(),
                *self == o,
                ws@ == o.watchers(x).take(i as int),
        {
            ws.push(self.t_watches[e.0][i]);
            proof {
                assert(o.watchers(x).take(i + 1) == o.watchers(x).take(i as int).push(o.watchers(x)[i as int]));
            }
        }
        proof {
            assert(o.watchers(x).take(n as int) == o.watchers(x));
            assert(o.row(l.0 as int).coeffs()[e.0] == c);
        }
        self.apply_moves(e, l, nv, ne, &news);
        let ghost m = *self;
        proof {
            assert(m.watchers(x) == o.watchers(x));
            assert forall|w: int| 0 <= w < m.num_vars() implies m.row(w) == o.row(w) && m.basic(w) == o.basic(w) by {
            }
        }
        self.pivot(e, l, nr, rows);
        let ghost p = *self;
        proof {
            lemma_finite_between(nv);
        }
        self.notify(l);
        let ghost q1 = *self;
        self.notify(e);
        let ghost q2 = *self;
        proof {
            assert forall|i: int| 0 <= i < ws@.len() implies (#[trigger] ws@[i]).0 < o.num_vars() by {
                assert(ws@[i] == o.watchers(x)[i]);
            }
        }
        self.notify_but(&ws, l);
        proof {
            assert(p.events() == o.events());
            assert(q1.events() == o.events() + p.report(l));
            assert(q2.events() == q1.events() + q1.report(e));
            Engine::lemma_same_reports_but(self, &q2, ws@, l);
            assert(self.report(l) == p.report(l));
            assert(self.report(e) == q1.report(e));
            assert forall|w: int| 0 <= w < o.num_vars() && w != e.0 && w != l.0 implies {
                &&& #[trigger] self.basic(w) == o.basic(w)
                &&& self.lower_entries(w) == o.lower_entries(w)
                &&& self.upper_entries(w) == o.upper_entries(w)
                &&& self.is_listened(w) == o.is_listened(w)
                &&& (o.basic(w) && !o.moves(w, e.0 as int) ==> self.row(w) == o.row(w))
                &&& (o.moves(w, e.0 as int) ==> self.row(w).coeffs() == subst_map(
                    o.row(w).coeffs(),
                    e.0,
                    pivot_coeffs(o.row(l.0 as int), e.0, l.0),
                ) && self.row(w).known_term == subst_known(
                    o.row(w),
                    e.0,
                    pivot_known(o.row(l.0 as int), e.0),
                ))
                &&& self.value(w) == o.after_move(w, e.0 as int, l.0 as int, nv)
            } by {
                assert(p.basic(w) == m.basic(w));
                assert(self.value(w) == m.value(w));
                if o.moves(w, x) {
                    let j = choose|j: int| 0 <= j < o.watchers(x).len() && o.watchers(x)[j] == VarId(w as usize);
                    assert(m.value(o.watchers(x)[j].0 as int) == news@[j]);
                } else {
                    assert(m.value(w) == o.value(w));
                }
            }
            assert(self.shape());
            assert(self.num_vars() == o.num_vars());
            assert(self.num_guards() == o.num_guards());
            assert(!self.basic(l.0 as int));
            assert(self.row(e.0 as int).known_term == pivot_known(o.row(l.0 as int), e.0));
            assert(self.basic(e.0 as int));
            assert(self.row(e.0 as int).coeffs() == pivot_coeffs(o.row(l.0 as int), e.0, l.0));
            assert(self.value(l.0 as int) == nv);
            assert(self.value(e.0 as int) == o.value(e.0 as int).add_spec(o.theta(e.0 as int, l.0 as int, nv).unwrap()).unwrap());
            assert forall|v: int| 0 <= v < o.num_vars() implies {
                &&& #[trigger] self.lower_entries(v) == o.lower_entries(v)
                &&& self.upper_entries(v) == o.upper_entries(v)
                &&& self.is_listened(v) == o.is_listened(v)
            } by {
                assert(self.lbs@[v] == o.lbs@[v]);
            }
            assert forall|g: int| 0 <= g < o.num_guards() implies #[trigger] self.pending_lbs(g) == o.pending_lbs(g)
                && self.pending_ubs(g) == o.pending_ubs(g) by {
                assert(self.guard_bounds@[g] == o.guard_bounds@[g]);
            }
            assert(ws@ == o.watchers(x));
            assert(self.events() == o.events() + self.report(l) + self.report(e) + self.reports_but(o.watchers(x), l));
            // the values of the basic variables are those of their rows
            assert(self.consistent() && self.same_solutions(&o)) by {
                let li = l.0 as int;
                let theta = o.theta(x, li, nv).unwrap();
                assert forall|w: int| 0 <= w < o.num_vars() && w != li && #[trigger] o.moves(w, x) implies {
                    &&& subst_ok(o.row(w).coeffs(), e.0, pivot_coeffs(o.row(li), e.0, l.0))
                    &&& pivot_known(o.row(li), e.0).mul_spec(o.row(w).coeffs()[e.0]) is Some
                    &&& o.row(w).known_term.add_spec(pivot_known(o.row(li), e.0).mul_spec(o.row(w).coeffs()[e.0]).unwrap()) is Some
                    &&& o.moved(w, x, theta) is Some
                } by {
                    let j = choose|j: int| 0 <= j < o.watchers(x).len() && o.watchers(x)[j] == VarId(w as usize);
                    assert(o.watchers(x)[j] != l);
                    assert(rowsg[j].wf());
                    assert(Some(news@[j]) == o.moved(o.watchers(x)[j].0 as int, x, theta));
                }
                assert forall|w: int| 0 <= w < o.num_vars() && w != l.0 && #[trigger] m.moves(w, e.0 as int) implies {
                    &&& subst_ok(m.row(w).coeffs(), e.0, pivot_coeffs(m.row(l.0 as int), e.0, l.0))
                    &&& pivot_known(m.row(l.0 as int), e.0).mul_spec(m.row(w).coeffs()[e.0]) is Some
                    &&& m.row(w).known_term.add_spec(pivot_known(m.row(l.0 as int), e.0).mul_spec(m.row(w).coeffs()[e.0]).unwrap()) is Some
                } by {
                    assert(m.row(w) == o.row(w));
                    assert(m.row(li) == o.row(li));
                    assert(o.moves(w, x));
                }
                assert(m.row(li) == o.row(li));
                Engine::lemma_pivoted(&m, &p, e, l);
                assert(m.tableau@ == o.tableau@);
                assert(self.tableau@ == p.tableau@);
                assert(self.value(x) == o.value(x).add_spec(theta).unwrap());
                assert forall|w: int| 0 <= w < o.num_vars() && w != x && w != li implies #[trigger] self.value(w)
                    == o.after_move(w, x, li, nv) by {
                    assert(self.basic(w) == o.basic(w));
                }
                assert(self.same_solutions(&o)) by {
                    Engine::lemma_pivot_solutions(&o, self, x, li);
                }
                Engine::lemma_pivot_consistent(&o, self, x, li, nv);
            }
        }
        true
    }
}

impl Engine {
    /// Moving the variable of term `t` within its bounds can bring the row's
    /// basic variable up (`low`) or down.
    pub open spec fn can_enter(&self, t: Term, low: bool) -> bool {
        let k = t.0.0 as int;
        if low {
            (t.1.num > 0 && self.value(k).less(self.upper(k))) || (t.1.num < 0 && self.lower(k).less(self.value(k)))
        } else {
            (t.1.num > 0 && self.lower(k).less(self.value(k))) || (t.1.num < 0 && self.value(k).less(self.upper(k)))
        }
    }

    /// `e` is the first variable of the row of `b` that can move `b` back
    /// towards its lower bound (`low`) or its upper bound.
    pub open spec fn first_entering(&self, b: int, low: bool, e: int) -> bool {
        exists|i: int| 0 <= i < self.row(b).vars@.len() && self.row(b).vars@[i].0.0 == e && self.can_enter(
            #[trigger] self.row(b).vars@[i],
            low,
        ) && forall|j: int| 0 <= j < i ==> !self.can_enter(#[trigger] self.row(b).vars@[j], low)
    }

    /// Basic `b` is below its lower bound (`low`) or above its upper bound,
    /// and the pivot with the first variable of its row that can move it
    /// back, onto the violated bound, leaves the range of the values.
    pub open spec fn pivot_overflows(&self, b: int, low: bool) -> bool {
        &&& 0 <= b < self.num_vars()
        &&& self.basic(b)
        &&& if low {
            self.value(b).less(self.lower(b))
        } else {
            self.upper(b).less(self.value(b))
        }
        &&& exists|e: int| #[trigger] self.first_entering(b, low, e) && !self.pivot_update_in_range(
            e,
            b,
            if low {
                self.lower(b)
            } else {
                self.upper(b)
            },
        )
    }

    /// `b` is the first basic variable outside its bounds: below its lower
    /// bound (`low`), or else above its upper bound.
    pub open spec fn first_violation(&self, b: int, low: bool) -> bool {
        &&& 0 <= b < self.num_vars()
        &&& self.basic(b)
        &&& if low {
            self.value(b).less(self.lower(b))
        } else {
            !self.value(b).less(self.lower(b)) && self.upper(b).less(self.value(b))
        }
        &&& forall|w: int| 0 <= w < b && #[trigger] self.basic(w) ==> self.within(w)
    }

    /// The bound that a violated basic variable `b` is brought back to.
    pub open spec fn target(&self, b: int, low: bool) -> InfRational {
        if low {
            self.lower(b)
        } else {
            self.upper(b)
        }
    }

    /// `self` is `o` after trading basic `l` for non-basic `e`, with `l`
    /// moved to `nv`: the rows as solved and substituted, the values as
    /// moved, the same solutions of the rows, the same bounds and records,
    /// and the changes of `l`, `e` and the moved variables reported.
    pub open spec fn pivot_done(&self, o: &Engine, e: int, l: int, nv: InfRational) -> bool {
        &&& self.same_solutions(o)
        &&& self.inv()
        &&& self.num_vars() == o.num_vars()
        &&& self.num_guards() == o.num_guards()
        &&& self.basic(e)
        &&& !self.basic(l)
        &&& self.row(e).coeffs() == pivot_coeffs(o.row(l), e as usize, l as usize)
        &&& self.row(e).known_term == pivot_known(o.row(l), e as usize)
        &&& self.value(l) == nv
        &&& self.value(e) == o.value(e).add_spec(o.theta(e, l, nv).unwrap()).unwrap()
        &&& forall|w: int| 0 <= w < o.num_vars() && w != e && w != l ==> {
            &&& #[trigger] self.basic(w) == o.basic(w)
            &&& (o.basic(w) && !o.moves(w, e) ==> self.row(w) == o.row(w))
            &&& (o.moves(w, e) ==> self.row(w).coeffs() == subst_map(
                o.row(w).coeffs(),
                e as usize,
                pivot_coeffs(o.row(l), e as usize, l as usize),
            ) && self.row(w).known_term == subst_known(o.row(w), e as usize, pivot_known(o.row(l), e as usize)))
            &&& self.value(w) == o.after_move(w, e, l, nv)
        }
        &&& forall|v: int| 0 <= v < o.num_vars() ==> {
            &&& #[trigger] self.lower_entries(v) == o.lower_entries(v)
            &&& self.upper_entries(v) == o.upper_entries(v)
            &&& self.is_listened(v) == o.is_listened(v)
        }
        &&& forall|g: int| 0 <= g < o.num_guards() ==> #[trigger] self.pending_lbs(g) == o.pending_lbs(g)
            && self.pending_ubs(g) == o.pending_ubs(g)
        &&& self.events() == o.events() + self.report(VarId(l as usize)) + self.report(VarId(e as usize)) + self.reports_but(
            o.watchers(e),
            VarId(l as usize),
        )
    }

    /// `t` is `self` after one step of the simplex method: the first basic
    /// variable outside its bounds trades places with the first variable of
    /// its row that can bring it back, and moves onto the violated bound.
    pub open spec fn pivot_step(&self, t: &Engine) -> bool {
        exists|b: int, low: bool, e: int| #![trigger self.first_entering(b, low, e)]
            self.first_violation(b, low) && self.first_entering(b, low, e) && self.pivot_update_in_range(e, b, self.target(b, low))
                && t.pivot_done(self, e, b, self.target(b, low))
    }

    /// `ss` is a run of the simplex method: each state is the one before
    /// after one step.
    pub open spec fn is_run(ss: Seq<Engine>) -> bool {
        forall|i: int| 0 <= i < ss.len() - 1 ==> #[trigger] ss[i].pivot_step(&ss[i + 1])
    }

    /// `t` is `self` after `k` steps of the simplex method.
    pub open spec fn pivots_to(&self, t: &Engine, k: nat) -> bool {
        exists|ss: Seq<Engine>| #![trigger Engine::is_run(ss)] ss.len() == k + 1 && ss[0] == *self && ss[k as int] == *t
            && Engine::is_run(ss)
    }

    /// The outcome of a pivot, as [`Engine::pivot_done`] puts it.
    #[verifier::spinoff_prover]
    proof fn lemma_pivot_done(o: &Engine, f: &Engine, e: VarId, l: VarId, nv: InfRational)
        requires
            f.same_solutions(o),
            (f.inv()),
            (f.num_vars() == o.num_vars()),
            (f.num_guards() == o.num_guards()),
            (f.basic(e.0 as int)),
            (!f.basic(l.0 as int)),
            (f.row(e.0 as int).coeffs() == pivot_coeffs(o.row(l.0 as int), e.0, l.0)),
            (f.row(e.0 as int).known_term == pivot_known(o.row(l.0 as int), e.0)),
            (f.value(l.0 as int) == nv),
            (f.value(e.0 as int) == o.value(e.0 as int).add_spec(
                o.theta(e.0 as int, l.0 as int, nv).unwrap(),
            ).unwrap()),
            (forall|w: int| 0 <= w < o.num_vars() && w != e.0 && w != l.0 ==> {
                &&& #[trigger] f.basic(w) == o.basic(w)
                &&& f.lower_entries(w) == o.lower_entries(w)
                &&& f.upper_entries(w) == o.upper_entries(w)
                &&& f.is_listened(w) == o.is_listened(w)
                &&& (o.basic(w) && !o.moves(w, e.0 as int) ==> f.row(w) == o.row(w))
                &&& (o.moves(w, e.0 as int) ==> f.row(w).coeffs() == subst_map(
                    o.row(w).coeffs(),
                    e.0,
                    pivot_coeffs(o.row(l.0 as int), e.0, l.0),
                ) && f.row(w).known_term == subst_known(
                    o.row(w),
                    e.0,
                    pivot_known(o.row(l.0 as int), e.0),
                ))
                &&& f.value(w) == o.after_move(w, e.0 as int, l.0 as int, nv)
            }),
            (forall|v: int| 0 <= v < o.num_vars() ==> {
                &&& #[trigger] f.lower_entries(v) == o.lower_entries(v)
                &&& f.upper_entries(v) == o.upper_entries(v)
                &&& f.is_listened(v) == o.is_listened(v)
            }),
            (forall|g: int| 0 <= g < o.num_guards() ==> #[trigger] f.pending_lbs(g) == o.pending_lbs(g)
                && f.pending_ubs(g) == o.pending_ubs(g)),
            (f.events() == o.events() + f.report(l) + f.report(e)
                + f.reports_but(o.watchers(e.0 as int), l)),
        ensures
            f.pivot_done(o, e.0 as int, l.0 as int, nv),
    {
        assert(e.0 as int as usize == e.0);
        assert(l.0 as int as usize == l.0);
        assert(VarId(l.0 as int as usize) == l);
        assert(VarId(e.0 as int as usize) == e);
        let ei = e.0 as int;
        let li = l.0 as int;
        assert(f.row(ei).coeffs() == pivot_coeffs(o.row(li), ei as usize, li as usize));
        assert(f.row(ei).known_term == pivot_known(o.row(li), ei as usize));
        assert(f.value(ei) == o.value(ei).add_spec(o.theta(ei, li, nv).unwrap()).unwrap());
        assert forall|w: int| 0 <= w < o.num_vars() && w != ei && w != li implies {
            &&& #[trigger] f.basic(w) == o.basic(w)
            &&& (o.basic(w) && !o.moves(w, ei) ==> f.row(w) == o.row(w))
            &&& (o.moves(w, ei) ==> f.row(w).coeffs() == subst_map(
                o.row(w).coeffs(),
                ei as usize,
                pivot_coeffs(o.row(li), ei as usize, li as usize),
            ) && f.row(w).known_term == subst_known(o.row(w), ei as usize, pivot_known(o.row(li), ei as usize)))
            &&& f.value(w) == o.after_move(w, ei, li, nv)
        } by {
            assert(f.basic(w) == o.basic(w));
        }
        assert(f.events() == o.events() + f.report(VarId(li as usize)) + f.report(VarId(ei as usize)) + f.reports_but(
            o.watchers(ei),
            VarId(li as usize),
        ));
    }

    /// No step at all.
    proof fn lemma_pivots_none(o: &Engine)
        ensures
            o.pivots_to(o, 0),
    {
        let ss = seq![*o];
        assert(Engine::is_run(ss));
    }

    /// One more step of the simplex method.
    proof fn lemma_pivots_more(o: &Engine, m: &Engine, t: &Engine, k: nat)
        requires
            o.pivots_to(m, k),
            m.pivot_step(t),
        ensures
            o.pivots_to(t, k + 1),
    {
        let ss = choose|ss: Seq<Engine>| ss.len() == k + 1 && ss[0] == *o && ss[k as int] == *m && Engine::is_run(ss);
        let s2 = ss.push(*t);
        assert forall|i: int| 0 <= i < s2.len() - 1 implies #[trigger] s2[i].pivot_step(&s2[i + 1]) by {
            if i < k {
                assert(s2[i] == ss[i] && s2[i + 1] == ss[i + 1]);
                assert(ss[i].pivot_step(&ss[i + 1]));
            } else {
                assert(s2[i] == *m);
                assert(s2[i + 1] == *t);
            }
        }
        assert(Engine::is_run(s2));
        assert(s2.len() == k + 1 + 1 && s2[0] == *o && s2[(k + 1) as int] == *t);
    }

    /// Basic `b` is below its lower bound (`low`) or above its upper bound,
    /// and no variable of its row can move it back.
    pub open spec fn stuck(&self, b: int, low: bool) -> bool {
        &&& 0 <= b < self.num_vars()
        &&& self.basic(b)
        &&& if low {
            self.value(b).less(self.lower(b))
        } else {
            self.upper(b).less(self.value(b))
        }
        &&& forall|i: int| 0 <= i < self.row(b).vars@.len() ==> !self.can_enter(#[trigger] self.row(b).vars@[i], low)
    }

    /// The guards that a term of a stuck row blames: those of the bound that
    /// holds its variable.
    pub open spec fn term_blame(&self, t: Term, low: bool) -> Seq<GuardId> {
        let k = t.0.0 as int;
        if t.1.num == 0 {
            Seq::empty()
        } else if (t.1.num > 0) == low {
            self.upper_entries(k)[0].1
        } else {
            self.lower_entries(k).last().1
        }
    }

    pub open spec fn blame_terms(&self, ts: Seq<Term>, low: bool) -> Seq<GuardId>
        decreases ts.len(),
    {
        if ts.len() == 0 {
            Seq::empty()
        } else {
            self.blame_terms(ts.drop_last(), low) + self.term_blame(ts.last(), low)
        }
    }

    /// The guards blamed for stuck `b`: those of the bounds holding the
    /// variables of its row, then those of the bound it violates.
    pub open spec fn explanation(&self, b: int, low: bool) -> Seq<GuardId> {
        self.blame_terms(self.row(b).vars@, low) + if low {
            self.lower_entries(b).last().1
        } else {
            self.upper_entries(b)[0].1
        }
    }

    /// Basic `b` lies within its bounds.
    pub open spec fn within(&self, b: int) -> bool {
        self.lower(b).leq(self.value(b)) && self.value(b).leq(self.upper(b))
    }

    /// A finite value below the lower bound means the lower bound is set;
    /// above the upper bound, the upper bound is set.
    proof fn lemma_set_bounds(&self, v: int)
        requires
            self.shape(),
            0 <= v < self.num_vars(),
        ensures
            self.value(v).less(self.lower(v)) ==> self.lower_entries(v).len() > 0,
            self.upper(v).less(self.value(v)) ==> self.upper_entries(v).len() > 0,
            !self.value(v).less(self.lower(v)) && !self.upper(v).less(self.value(v)) ==> self.within(v),
            self.lower(v).wf() && self.upper(v).wf(),
            self.lower_entries(v).len() > 0 ==> self.lower(v).is_fin(),
            self.upper_entries(v).len() > 0 ==> self.upper(v).is_fin(),
    {
        assert(self.value(v).wf() && self.value(v).is_fin());
        assert(bounds_ok(self.lower_entries(v), self.num_guards()));
        assert(bounds_ok(self.upper_entries(v), self.num_guards()));
        lemma_extremes(self.lower_entries(v), self.num_guards());
        lemma_extremes(self.upper_entries(v), self.num_guards());
        lemma_finite_between(self.value(v));
        lemma_inf_order(self.value(v), self.lower(v), self.upper(v));
        lemma_inf_order(self.lower(v), self.value(v), self.upper(v));
        lemma_inf_order(self.upper(v), self.value(v), self.lower(v));
        lemma_inf_order(neg_inf(), self.value(v), pos_inf());
        lemma_inf_order(self.value(v), neg_inf(), pos_inf());
        lemma_inf_order(pos_inf(), self.value(v), neg_inf());
    }

    /// The first basic variable out of its bounds, and whether it is below.
    fn find_violation(&self) -> (r: Option<(VarId, bool)>)
        requires
            self.shape(),
        ensures
            r is None ==> forall|b: int| 0 <= b < self.num_vars() && #[trigger] self.basic(b) ==> self.within(b),
            r matches Some((b, low)) ==> {
                &&& b.0 < self.num_vars()
                &&& self.basic(b.0 as int)
                &&& low ==> self.value(b.0 as int).less(self.lower(b.0 as int))
                &&& !low ==> self.upper(b.0 as int).less(self.value(b.0 as int))
                &&& self.first_violation(b.0 as int, low)
            },
    {
        let n = self.tableau.len();
        let mut b: usize = 0;
        while b < n
            invariant
                n == self.num_vars(),
                b <= n,
                self.shape(),
                forall|w: int| 0 <= w < b && #[trigger] self.basic(w) ==> self.within(w),
            decreases n - b,
        {
            if self.tableau[b].is_some() {
                let v = VarId(b);
                let val = self.value_at(v);
                if val.less_than(&self.lower_at(v)) {
                    return Some((v, true));
                }
                if self.upper_at(v).less_than(&val) {
                    return Some((v, false));
                }
                proof {
                    self.lemma_set_bounds(b as int);
                }
            }
            b = b + 1;
        }
        None
    }

    /// Whether the variable of term `t` can enter, as [`Engine::can_enter`] says.
    fn entering_ok(&self, t: Term, low: bool) -> (r: bool)
        requires
            self.shape(),
            t.0.0 < self.num_vars(),
            t.1.wf(),
        ensures
            r == self.can_enter(t, low),
    {
        let val = self.value_at(t.0);
        let pos = t.1.is_positive();
        let neg = t.1.is_negative();
        if low {
            (pos && val.less_than(&self.upper_at(t.0))) || (neg && self.lower_at(t.0).less_than(&val))
        } else {
            (pos && self.lower_at(t.0).less_than(&val)) || (neg && val.less_than(&self.upper_at(t.0)))
        }
    }

    /// The first variable of the row of `b` that can enter, if any.
    fn find_entering(&self, b: VarId, low: bool) -> (r: Option<VarId>)
        requires
            self.shape(),
            b.0 < self.num_vars(),
            self.basic(b.0 as int),
        ensures
            r is None ==> forall|i: int| 0 <= i < self.row(b.0 as int).vars@.len() ==> !self.can_enter(
                #[trigger] self.row(b.0 as int).vars@[i],
                low,
            ),
            r matches Some(e) ==> {
                &&& e.0 < self.num_vars()
                &&& !self.basic(e.0 as int)
                &&& self.row(b.0 as int).coeffs().contains_key(e.0)
                &&& self.row(b.0 as int).coeffs()[e.0].num != 0
                &&& self.first_entering(b.0 as int, low, e.0 as int)
            },
    {
        let row = match &self.tableau[b.0] {
            Some(row) => row,
            None => {
                proof {
                    assert(false);
                }
                return None;
            },
        };
        proof {
            assert(*row == self.row(b.0 as int));
            assert(self.row_ok(b.0 as int));
        }
        let n = row.vars.len();
        let mut i: usize = 0;
        while i < n
            invariant
                n == row.vars@.len(),
                i <= n,
                self.shape(),
                *row == self.row(b.0 as int),
                self.row_ok(b.0 as int),
                forall|j: int| 0 <= j < i ==> !self.can_enter(#[trigger] row.vars@[j], low),
            decreases n - i,
        {
            let t = row.vars[i];
            proof {
                lemma_term_index(row.vars@, i as int);
                assert(row.coeffs().contains_key(t.0.0) && row.coeffs()[t.0.0] == t.1);
            }
            if self.entering_ok(t, low) {
                proof {
                    assert(self.row(b.0 as int).vars@[i as int] == t);
                    assert(self.first_entering(b.0 as int, low, t.0.0 as int));
                }
                return Some(t.0);
            }
            i = i + 1;
        }
        None
    }

    /// The guards blamed for stuck `b`, as [`Engine::explanation`] says.
    fn explain(&self, b: VarId, low: bool) -> (r: Vec<GuardId>)
        requires
            self.shape(),
            self.stuck(b.0 as int, low),
        ensures
            r@ == self.explanation(b.0 as int, low),
    {
        let row = match &self.tableau[b.0] {
            Some(row) => row,
            None => {
                proof {
                    assert(false);
                }
                return Vec::new();
            },
        };
        proof {
            assert(*row == self.row(b.0 as int));
            assert(self.row_ok(b.0 as int));
        }
        let mut out: Vec<GuardId> = Vec::new();
        let n = row.vars.len();
        for i in 0..n
            invariant
                n == row.vars@.len(),
                self.shape(),
                self.stuck(b.0 as int, low),
                *row == self.row(b.0 as int),
                self.row_ok(b.0 as int),
                out@ == self.blame_terms(row.vars@.take(i as int), low),
        {
            let t = row.vars[i];
            let k = t.0.0;
            proof {
                lemma_term_index(row.vars@, i as int);
                assert(row.coeffs().contains_key(k));
                assert(row.vars@.take(i + 1).drop_last() == row.vars@.take(i as int));
                assert(row.vars@.take(i + 1).last() == t);
                assert(!self.can_enter(row.vars@[i as int], low));
                self.lemma_set_bounds(k as int);
                lemma_inf_order(self.value(k as int), self.upper(k as int), self.lower(k as int));
                lemma_inf_order(self.lower(k as int), self.value(k as int), self.upper(k as int));
                assert(self.value(k as int).wf() && self.value(k as int).is_fin());
                lemma_finite_between(self.value(k as int));
                lemma_inf_order(self.value(k as int), pos_inf(), neg_inf());
                lemma_inf_order(neg_inf(), self.value(k as int), pos_inf());
            }
            let ghost before = out@;
            if t.1.is_positive() == low && !t.1.is_zero() {
                let ghost gs = self.upper_entries(k as int)[0].1;
                let list = &self.ubs[k];
                proof {
                    assert(self.upper_entries(k as int).len() > 0);
                }
                let mut c = Engine::blame(None, list, 0);
                out.append(&mut c);
            } else if !t.1.is_zero() {
                let list = &self.lbs[k];
                proof {
                    assert(self.lower_entries(k as int).len() > 0);
                }
                let mut c = Engine::blame(None, list, list.len() - 1);
                out.append(&mut c);
            }
            proof {
                assert(out@ == before + self.term_blame(t, low));
            }
        }
        proof {
            assert(row.vars@.take(n as int) == row.vars@);
            self.lemma_set_bounds(b.0 as int);
        }
        let last = if low {
            Engine::blame(None, &self.lbs[b.0], self.lbs[b.0].len() - 1)
        } else {
            Engine::blame(None, &self.ubs[b.0], 0)
        };
        let mut last = last;
        out.append(&mut last);
        out
    }
}

impl Engine {
    /// Same variables, guards, bounds, guard records and listened
    /// variables as `o`.
    pub open spec fn same_bounds(&self, o: &Engine) -> bool {
        &&& self.num_vars() == o.num_vars()
        &&& self.num_guards() == o.num_guards()
        &&& forall|v: int| 0 <= v < o.num_vars() ==> {
            &&& #[trigger] self.lower_entries(v) == o.lower_entries(v)
            &&& self.upper_entries(v) == o.upper_entries(v)
            &&& self.is_listened(v) == o.is_listened(v)
        }
        &&& forall|g: int| 0 <= g < o.num_guards() ==> #[trigger] self.pending_lbs(g) == o.pending_lbs(g)
            && self.pending_ubs(g) == o.pending_ubs(g)
    }

    /// `vals` satisfy the rows: the value of every basic variable is the
    /// exact value of its row under `vals`.
    pub open spec fn rows_satisfied(&self, vals: Seq<InfRational>) -> bool {
        forall|b: int| 0 <= b < self.num_vars() && #[trigger] self.basic(b) ==> holds(self.row(b), vals, vals[b])
    }

    /// Every variable lies within its bounds.
    pub open spec fn feasible(&self) -> bool {
        forall|v: int| 0 <= v < self.num_vars() ==> #[trigger] self.within(v)
    }

    /// Restores feasibility with the simplex method.
    ///
    /// Repeatedly takes the first basic variable outside its bounds and
    /// pivots it with the first variable of its row that can bring it back,
    /// moving it onto the violated bound. Returns `Ok` once every variable
    /// lies within its bounds; a conflict, naming the guards of the bounds
    /// that hold a stuck row, when no variable can bring a basic variable
    /// back; `Overflow` when the pivot that would come next leaves the range
    /// of 64-bit rationals, or after `u64::MAX` pivots. The final state is
    /// reached from the first by such pivots (see [`Engine::pivots_to`]).
    /// Bounds never change.
    #[verifier::spinoff_prover]
    #[verifier::rlimit(40)]
    pub fn check(&mut self) -> (r: Result<(), PropagationError>)
        requires
            old(self).inv(),
        ensures
            final(self).inv(),
            final(self).same_bounds(old(self)),
            r is Ok ==> final(self).feasible(),
            r matches Err(PropagationError::Conflict(l)) ==> exists|b: int, low: bool| #[trigger] final(self).stuck(b, low) && l@
                == final(self).explanation(b, low),
            exists|k: nat| k <= u64::MAX && #[trigger] old(self).pivots_to(final(self), k),
            forall|vals: Seq<InfRational>| vals.len() == old(self).num_vars() && vals_fin(vals) ==> (
                #[trigger] final(self).rows_satisfied(vals) <==> old(self).rows_satisfied(vals)),
            r matches Err(PropagationError::Overflow) ==> old(self).pivots_to(final(self), u64::MAX as nat)
                || exists|b: int, low: bool| #[trigger] final(self).first_violation(b, low) && final(self).pivot_overflows(b, low),
    {
        proof {
            assert forall|vals: Seq<InfRational>| vals.len() == old(self).num_vars() && vals_fin(vals) implies (#[trigger] rows_hold(
                vals,
                self.tableau@,
            ) <==> rows_hold(vals, old(self).tableau@)) by {}
            assert(self.same_solutions(old(self)));
        }
        proof {
            Engine::lemma_pivots_none(old(self));
        }
        let mut fuel: u64 = u64::MAX;
        while fuel > 0
            invariant
                self.inv(),
                self.num_vars() == old(self).num_vars(),
                self.num_guards() == old(self).num_guards(),
                forall|v: int| 0 <= v < old(self).num_vars() ==> {
                    &&& #[trigger] self.lower_entries(v) == old(self).lower_entries(v)
                    &&& self.upper_entries(v) == old(self).upper_entries(v)
                    &&& self.is_listened(v) == old(self).is_listened(v)
                },
                forall|g: int| 0 <= g < old(self).num_guards() ==> #[trigger] self.pending_lbs(g) == old(self).pending_lbs(g)
                    && self.pending_ubs(g) == old(self).pending_ubs(g),
                fuel <= u64::MAX,
                old(self).pivots_to(self, (u64::MAX - fuel) as nat),
                self.same_solutions(old(self)),
                old(self).inv(),
            decreases fuel,
        {
            match self.find_violation() {
                None => {
                    proof {
                        assert forall|v: int| 0 <= v < self.num_vars() implies #[trigger] self.within(v) by {
                            if !self.basic(v) {
                                assert(self.lower(v).leq(self.value(v)));
                            }
                        }
                        Engine::lemma_solutions_public(self, old(self));
                    }
                    return Ok(());
                },
                Some((b, low)) => {
                    proof {
                        self.lemma_set_bounds(b.0 as int);
                        assert(self.lower(b.0 as int).leq(self.upper(b.0 as int)));
                        lemma_inf_order(self.lower(b.0 as int), self.upper(b.0 as int), self.upper(b.0 as int));
                        lemma_inf_order(self.lower(b.0 as int), self.lower(b.0 as int), self.upper(b.0 as int));
                    }
                    let target = if low {
                        self.lower_at(b)
                    } else {
                        self.upper_at(b)
                    };
                    match self.find_entering(b, low) {
                        None => {
                            let c = self.explain(b, low);
                            proof {
                                assert(self.stuck(b.0 as int, low));
                                Engine::lemma_solutions_public(self, old(self));
                            }
                            return Err(PropagationError::Conflict(c));
                        },
                        Some(e) => {
                            let ghost before = *self;
                            if !self.pivot_and_update(e, b, target) {
                                proof {
                                    assert(self.first_entering(b.0 as int, low, e.0 as int));
                                    assert(self.pivot_overflows(b.0 as int, low));
                                    Engine::lemma_solutions_public(self, old(self));
                                }
                                return Err(PropagationError::Overflow);
                            }
                            proof {
                                assert forall|v: int| 0 <= v < old(self).num_vars() implies {
                                    &&& #[trigger] self.lower_entries(v) == old(self).lower_entries(v)
                                    &&& self.upper_entries(v) == old(self).upper_entries(v)
                                    &&& self.is_listened(v) == old(self).is_listened(v)
                                } by {
                                    assert(before.lower_entries(v) == old(self).lower_entries(v));
                                    assert(self.lower_entries(v) == before.lower_entries(v));
                                }
                                assert forall|g: int| 0 <= g < old(self).num_guards() implies #[trigger] self.pending_lbs(g) == old(self).pending_lbs(g)
                                    && self.pending_ubs(g) == old(self).pending_ubs(g) by {
                                    assert(before.pending_lbs(g) == old(self).pending_lbs(g));
                                    assert(self.pending_lbs(g) == before.pending_lbs(g));
                                }
                            }
                            proof {
                                Engine::lemma_same_solutions_trans(old(self), &before, self);
                                Engine::lemma_pivot_done(&before, self, e, b, target);
                                assert(before.pivot_step(self));
                                Engine::lemma_pivots_more(old(self), &before, self, (u64::MAX - fuel) as nat);
                            }
                        },
                    }
                },
            }
            fuel = fuel - 1;
        }
        proof {
            Engine::lemma_solutions_public(self, old(self));
        }
        Err(PropagationError::Overflow)
    }
}

/// `lhs - rhs` as coefficients and known term, when in range.
pub open spec fn difference(lhs: Lin, rhs: Lin) -> Option<(Map<usize, Rational>, Rational)> {
    if sub_maps_ok(lhs.coeffs(), rhs.coeffs()) && lhs.known_term.sub_spec(rhs.known_term) is Some {
        Some((sub_maps(lhs.coeffs(), rhs.coeffs()), lhs.known_term.sub_spec(rhs.known_term).unwrap()))
    } else {
        None
    }
}

/// The variables of a list of terms, in order.
pub open spec fn term_vars(ts: Seq<Term>) -> Seq<VarId> {
    ts.map_values(|t: Term| t.0)
}

impl Engine {
    /// One step of the reduction of an expression `(m, k)`: a basic `v`
    /// still in it is replaced by its row; `None` when out of range.
    pub open spec fn reduce_step(&self, mk: (Map<usize, Rational>, Rational), v: VarId) -> Option<(Map<usize, Rational>, Rational)> {
        let m = mk.0;
        let k = mk.1;
        if self.basic(v.0 as int) && m.contains_key(v.0) {
            let row = self.row(v.0 as int);
            if subst_ok(m, v.0, row.coeffs()) && row.known_term.mul_spec(m[v.0]) is Some && k.add_spec(
                row.known_term.mul_spec(m[v.0]).unwrap(),
            ) is Some {
                Some((subst_map(m, v.0, row.coeffs()), k.add_spec(row.known_term.mul_spec(m[v.0]).unwrap()).unwrap()))
            } else {
                None
            }
        } else {
            Some(mk)
        }
    }

    /// The reduction steps for `vs`, in order.
    pub open spec fn reduce_vars(&self, mk: (Map<usize, Rational>, Rational), vs: Seq<VarId>) -> Option<(Map<usize, Rational>, Rational)>
        decreases vs.len(),
    {
        if vs.len() == 0 {
            Some(mk)
        } else {
            match self.reduce_vars(mk, vs.drop_last()) {
                Some(x) => self.reduce_step(x, vs.last()),
                None => None,
            }
        }
    }

    /// `lhs - rhs` over non-basic variables: each basic variable of `lhs`,
    /// then of `rhs`, in order, is replaced by its row; as coefficients and
    /// known term, `None` when out of range.
    pub open spec fn reduction(&self, lhs: Lin, rhs: Lin) -> Option<(Map<usize, Rational>, Rational)> {
        match difference(lhs, rhs) {
            Some(mk) => self.reduce_vars(mk, term_vars(lhs.vars@) + term_vars(rhs.vars@)),
            None => None,
        }
    }

    /// `lin` is well formed and over non-basic variables of the engine.
    pub open spec fn nonbasic_lin(&self, lin: Lin) -> bool {
        &&& self.lin_ok(lin)
        &&& forall|i: int| 0 <= i < lin.vars@.len() ==> !self.basic((#[trigger] lin.vars@[i]).0.0 as int)
    }

    /// Replaces, in `e`, each basic variable of `vs` in turn by its row;
    /// `None` when out of range.
    fn reduce_by(&self, lin: Lin, vs: &Vec<VarId>) -> (r: Option<Lin>)
        requires
            self.shape(),
            lin.wf(),
            forall|k: usize| #[trigger] lin.coeffs().contains_key(k) ==> k < self.num_vars() && (!self.basic(k as int)
                || vs@.contains(VarId(k))),
            forall|i: int| 0 <= i < vs@.len() ==> (#[trigger] vs@[i]).0 < self.num_vars(),
        ensures
            r is Some <==> self.reduce_vars((lin.coeffs(), lin.known_term), vs@) is Some,
            r matches Some(x) ==> self.nonbasic_lin(x) && (x.coeffs(), x.known_term) == self.reduce_vars(
                (lin.coeffs(), lin.known_term),
                vs@,
            ).unwrap(),
    {
        let ghost mk0 = (lin.coeffs(), lin.known_term);
        let mut e = lin;
        let n = vs.len();
        proof {
            assert(vs@.subrange(0, n as int) == vs@);
        }
        for i in 0..n
            invariant
                n == vs@.len(),
                self.shape(),
                e.wf(),
                forall|j: int| 0 <= j < vs@.len() ==> (#[trigger] vs@[j]).0 < self.num_vars(),
                mk0 == (lin.coeffs(), lin.known_term),
                Some((e.coeffs(), e.known_term)) == self.reduce_vars(mk0, vs@.take(i as int)),
                forall|k: usize| #[trigger] e.coeffs().contains_key(k) ==> k < self.num_vars() && (!self.basic(k as int)
                    || vs@.subrange(i as int, n as int).contains(VarId(k))),
        {
            let v = vs[i];
            let ghost before = e.coeffs();
            proof {
                assert(vs@.take(i + 1).drop_last() == vs@.take(i as int));
                assert(vs@.take(i + 1).last() == v);
            }
            if self.is_basic(v) && e.get(v).is_some() {
                let row = match &self.tableau[v.0] {
                    Some(row) => row,
                    None => {
                        proof {
                            assert(false);
                        }
                        return None;
                    },
                };
                proof {
                    assert(*row == self.row(v.0 as int));
                    assert(self.row_ok(v.0 as int));
                }
                if !e.can_substitute(v, row) {
                    proof {
                        assert(self.reduce_step((e.coeffs(), e.known_term), v) is None);
                        assert(self.reduce_vars(mk0, vs@.take(i + 1)) is None);
                        lemma_reduce_none(self, mk0, vs@, i as int + 1);
                    }
                    return None;
                }
                let _ = e.substitute(v, row);
                proof {
                    assert forall|k: usize| #[trigger] e.coeffs().contains_key(k) implies k < self.num_vars() && (!self.basic(k as int)
                        || vs@.subrange(i + 1, n as int).contains(VarId(k))) by {
                        if self.row(v.0 as int).coeffs().contains_key(k) {
                        } else {
                            assert(before.contains_key(k) && k != v.0);
                            if self.basic(k as int) {
                                assert(vs@.subrange(i as int, n as int).contains(VarId(k)));
                                let j = choose|j: int| 0 <= j < n - i && vs@.subrange(i as int, n as int)[j] == VarId(k);
                                assert(j != 0);
                                assert(vs@.subrange(i + 1, n as int)[j - 1] == VarId(k));
                            }
                        }
                    }
                }
            } else {
                proof {
                    assert forall|k: usize| #[trigger] e.coeffs().contains_key(k) implies k < self.num_vars() && (!self.basic(k as int)
                        || vs@.subrange(i + 1, n as int).contains(VarId(k))) by {
                        if self.basic(k as int) {
                            assert(vs@.subrange(i as int, n as int).contains(VarId(k)));
                            let j = choose|j: int| 0 <= j < n - i && vs@.subrange(i as int, n as int)[j] == VarId(k);
                            if j == 0 {
                                assert(k == v.0);
                            }
                            assert(vs@.subrange(i + 1, n as int)[j - 1] == VarId(k));
                        }
                    }
                }
            }
        }
        proof {
            assert(vs@.take(n as int) == vs@);
            e.lemma_coeffs_ok();
            assert forall|i: int| 0 <= i < e.vars@.len() implies (#[trigger] e.vars@[i]).0.0 < self.num_vars()
                && !self.basic(e.vars@[i].0.0 as int) by {
                lemma_term_index(e.vars@, i);
                assert(e.coeffs().contains_key(e.vars@[i].0.0));
            }
        }
        Some(e)
    }

    /// The variables of `lin`, in order.
    fn vars_of(lin: &Lin, out: &mut Vec<VarId>)
        ensures
            final(out)@ == old(out)@ + term_vars(lin.vars@),
    {
        let n = lin.vars.len();
        for i in 0..n
            invariant
                n == lin.vars@.len(),
                out@ == old(out)@ + term_vars(lin.vars@).take(i as int),
        {
            out.push(lin.vars[i].0);
            proof {
                assert(term_vars(lin.vars@).take(i + 1) == term_vars(lin.vars@).take(i as int).push(lin.vars@[i as int].0));
            }
        }
        proof {
            assert(term_vars(lin.vars@).take(n as int) == term_vars(lin.vars@));
        }
    }

    /// `lhs - rhs` over non-basic variables, as [`Engine::reduction`] says.
    fn reduced_diff(&self, lhs: &Lin, rhs: &Lin) -> (r: Option<Lin>)
        requires
            self.shape(),
            self.lin_ok(*lhs),
            self.lin_ok(*rhs),
        ensures
            r is Some <==> self.reduction(*lhs, *rhs) is Some,
            r matches Some(x) ==> self.nonbasic_lin(x) && (x.coeffs(), x.known_term) == self.reduction(*lhs, *rhs).unwrap(),
    {
        let d = match lhs.checked_sub(rhs) {
            Some(d) => d,
            None => return None,
        };
        let mut vs: Vec<VarId> = Vec::new();
        Engine::vars_of(lhs, &mut vs);
        Engine::vars_of(rhs, &mut vs);
        proof {
            assert(vs@ == term_vars(lhs.vars@) + term_vars(rhs.vars@));
            assert forall|i: int| 0 <= i < vs@.len() implies (#[trigger] vs@[i]).0 < self.num_vars() by {
                if i < lhs.vars@.len() {
                    assert(vs@[i] == lhs.vars@[i].0);
                } else {
                    assert(vs@[i] == rhs.vars@[i - lhs.vars@.len()].0);
                }
            }
            assert forall|k: usize| #[trigger] d.coeffs().contains_key(k) implies k < self.num_vars() && (!self.basic(k as int)
                || vs@.contains(VarId(k))) by {
                if lhs.coeffs().contains_key(k) {
                    let j = choose|j: int| 0 <= j < lhs.vars@.len() && lhs.vars@[j].0.0 == k;
                    assert(vs@[j] == VarId(k));
                } else {
                    assert(rhs.coeffs().contains_key(k));
                    let j = choose|j: int| 0 <= j < rhs.vars@.len() && rhs.vars@[j].0.0 == k;
                    assert(vs@[lhs.vars@.len() + j] == VarId(k));
                }
            }
        }
        self.reduce_by(d, &vs)
    }
}

/// A reduction that fails on a prefix of the variables fails on all.
pub proof fn lemma_reduce_none(e: &Engine, mk: (Map<usize, Rational>, Rational), vs: Seq<VarId>, i: int)
    requires
        0 <= i <= vs.len(),
        e.reduce_vars(mk, vs.take(i)) is None,
    ensures
        e.reduce_vars(mk, vs) is None,
    decreases vs.len() - i,
{
    if i == vs.len() {
        assert(vs.take(i) == vs);
    } else {
        assert(vs.take(i + 1).drop_last() == vs.take(i));
        lemma_reduce_none(e, mk, vs, i + 1);
    }
}

/// Some variable of `m`: the only one when `m` has one.
pub open spec fn the_key(m: Map<usize, Rational>) -> usize {
    choose|x: usize| m.contains_key(x)
}

/// The reduced expression `(m, k)` is a constant: no variable, or one with
/// a zero coefficient.
pub open spec fn is_constant(m: Map<usize, Rational>) -> bool {
    m.len() == 0 || (m.len() == 1 && m[the_key(m)].num == 0)
}

/// A constant `k` satisfies `k < 0` (strict) or `k <= 0`.
pub open spec fn lt_holds(k: Rational, strict: bool) -> bool {
    if strict {
        k.num < 0
    } else {
        k.num <= 0
    }
}

/// The rational `v`.
pub open spec fn int_rat(v: int) -> Rational {
    Rational { num: v as i64, den: 1 }
}

/// The bound that `c·x + k < 0` (strict) or `c·x + k <= 0` puts on `x`:
/// `-k / c`, less `ε` for a strict upper bound (positive `c`) and plus `ε`
/// for a strict lower bound (negative `c`).
pub open spec fn lt_bound(c: Rational, k: Rational, strict: bool) -> Option<InfRational> {
    match k.neg_spec() {
        Some(nk) => match nk.div_spec(c) {
            Some(q) => Some(InfRational {
                rat: q,
                inf: if !strict {
                    zero_spec()
                } else if c.num > 0 {
                    int_rat(-1)
                } else {
                    int_rat(1)
                },
            }),
            None => None,
        },
        None => None,
    }
}

/// The upper bound that `s + k < 0` (strict) or `s + k <= 0` puts on a
/// slack variable `s`: `-k`, less `ε` when strict.
pub open spec fn slack_bound(k: Rational, strict: bool) -> Option<InfRational> {
    match k.neg_spec() {
        Some(nk) => Some(InfRational { rat: nk, inf: if strict { int_rat(-1) } else { zero_spec() } }),
        None => None,
    }
}

/// The value that `c·x + k == 0` fixes for `x`: `-k / c`.
pub open spec fn eq_bound(c: Rational, k: Rational) -> Option<InfRational> {
    match k.neg_spec() {
        Some(nk) => match nk.div_spec(c) {
            Some(q) => Some(lift(q)),
            None => None,
        },
        None => None,
    }
}

impl Engine {
    /// `self` is `o` with guard `g` recording the lower bound `lb` and the
    /// upper bound `ub` (where given) on `x`, and nothing else changed.
    pub open spec fn guard_records(&self, o: &Engine, x: int, lb: Option<InfRational>, ub: Option<InfRational>, g: GuardId) -> bool {
        &&& self.inv()
        &&& self.same_tableau(o)
        &&& forall|v: int| 0 <= v < o.num_vars() ==> {
            &&& #[trigger] self.value(v) == o.value(v)
            &&& self.lower_entries(v) == o.lower_entries(v)
            &&& self.upper_entries(v) == o.upper_entries(v)
        }
        &&& self.events() == o.events()
        &&& forall|g2: int| 0 <= g2 < o.num_guards() ==> {
            &&& #[trigger] self.pending_lbs(g2) == match lb {
                Some(b) => o.pending_lbs_after(g2, x, b, Some(g)),
                None => o.pending_lbs(g2),
            }
            &&& self.pending_ubs(g2) == match ub {
                Some(b) => o.pending_ubs_after(g2, x, b, Some(g)),
                None => o.pending_ubs(g2),
            }
        }
    }

    /// `self` is `o` with one more variable, basic, whose row has
    /// coefficients `m` and known term `k` and whose value is that of the row.
    pub open spec fn row_var_added(&self, o: &Engine, m: Map<usize, Rational>, k: Rational) -> bool {
        let s = o.num_vars() as int;
        &&& self.inv()
        &&& self.num_vars() == o.num_vars() + 1
        &&& self.num_guards() == o.num_guards()
        &&& self.basic(s)
        &&& self.row(s).coeffs() == m
        &&& self.row(s).known_term == k
        &&& Some(self.value(s)) == o.lin_value(self.row(s))
        &&& self.lower_entries(s) == Seq::<BV>::empty()
        &&& self.upper_entries(s) == Seq::<BV>::empty()
        &&& !self.is_listened(s)
        &&& forall|v: int| 0 <= v < o.num_vars() ==> {
            &&& #[trigger] self.value(v) == o.value(v)
            &&& self.lower_entries(v) == o.lower_entries(v)
            &&& self.upper_entries(v) == o.upper_entries(v)
            &&& self.basic(v) == o.basic(v)
            &&& (o.basic(v) ==> self.row(v) == o.row(v))
            &&& self.is_listened(v) == o.is_listened(v)
        }
        &&& forall|g: int| 0 <= g < o.num_guards() ==> #[trigger] self.pending_lbs(g) == o.pending_lbs(g)
            && self.pending_ubs(g) == o.pending_ubs(g)
        &&& self.events() == o.events()
    }

    /// Has guard `g` record the lower bound `lb` and the upper bound `ub`
    /// (where given) on `var`.
    fn record_bounds(&mut self, g: GuardId, var: VarId, lb: Option<InfRational>, ub: Option<InfRational>)
        requires
            old(self).inv(),
            g.0 < old(self).num_guards(),
            var.0 < old(self).num_vars(),
            lb matches Some(b) ==> b.wf() && b.is_fin(),
            ub matches Some(b) ==> b.wf() && b.is_fin(),
        ensures
            final(self).guard_records(old(self), var.0 as int, lb, ub, g),
    {
        let ghost o = *old(self);
        let ghost n = o.num_vars();
        proof {
            assert(o.guard_bounds@[g.0 as int].wf(n));
        }
        match lb {
            Some(b) => self.guard_bounds[g.0].set_lb(var, b, Ghost(n)),
            None => {},
        }
        let ghost mid = *self;
        match ub {
            Some(b) => self.guard_bounds[g.0].set_ub(var, b, Ghost(n)),
            None => {},
        }
        proof {
            Engine::lemma_frame_rows(&o, self);
            Engine::lemma_frame_bounds(&o, self);
            assert forall|gi: int| 0 <= gi < self.num_guards() implies (#[trigger] self.guard_bounds@[gi]).wf(self.num_vars()) by {
                assert(o.guard_bounds@[gi].wf(n));
            }
            assert forall|g2: int| 0 <= g2 < o.num_guards() implies {
                &&& #[trigger] self.pending_lbs(g2) == match lb {
                    Some(b) => o.pending_lbs_after(g2, var.0 as int, b, Some(g)),
                    None => o.pending_lbs(g2),
                }
                &&& self.pending_ubs(g2) == match ub {
                    Some(b) => o.pending_ubs_after(g2, var.0 as int, b, Some(g)),
                    None => o.pending_ubs(g2),
                }
            } by {
                if g2 != g.0 {
                    assert(self.guard_bounds@[g2] == o.guard_bounds@[g2]);
                } else {
                    assert(mid.pending_ubs(g2) == o.pending_ubs(g2));
                    assert(self.pending_lbs(g2) == mid.pending_lbs(g2));
                }
            }
            assert(self.same_tableau(&o));
        }
    }

    /// Adds a basic variable with row `lin`, unless its value is out of
    /// range or the variables are too many.
    #[verifier::spinoff_prover]
    fn add_slack(&mut self, lin: Lin) -> (r: Option<VarId>)
        requires
            old(self).inv(),
            old(self).nonbasic_lin(lin),
        ensures
            r is Some <==> old(self).num_vars() < usize::MAX && old(self).lin_value(lin) is Some,
            r is None ==> *final(self) == *old(self),
            r matches Some(s) ==> s.0 == old(self).num_vars() && final(self).row_var_added(old(self), lin.coeffs(), lin.known_term),
    {
        if self.assignments.len() == usize::MAX {
            return None;
        }
        if self.fold_lin(&lin, 0).is_none() {
            return None;
        }
        let ghost o = *old(self);
        let s = self.add_row_var(lin);
        proof {
            assert(o.lin_value(self.row(s.0 as int)) == o.lin_value(lin));
        }
        Some(s)
    }
}

impl Engine {
    /// `lin` over non-basic variables: each basic variable of `lin`, in
    /// order, is replaced by its row; as coefficients and known term, `None`
    /// when out of range.
    pub open spec fn lin_reduction(&self, lin: Lin) -> Option<(Map<usize, Rational>, Rational)> {
        self.reduce_vars((lin.coeffs(), lin.known_term), term_vars(lin.vars@))
    }

    /// The current value of `Σ m[x]·x + k`; `None` when out of range.
    pub open spec fn expr_value(&self, m: Map<usize, Rational>, k: Rational) -> Option<InfRational> {
        fold_terms(terms_of(m), k, self.value_term())
    }

    /// Adds a variable defined as `lin`: a basic variable whose row is `lin`
    /// with each basic variable replaced by its row, and whose value is that
    /// of this row.
    #[verifier::spinoff_prover]
    pub fn add_lin_var(&mut self, lin: Lin) -> (var: VarId)
        requires
            old(self).inv(),
            old(self).num_vars() < usize::MAX,
            old(self).lin_ok(lin),
            old(self).lin_reduction(lin) matches Some(mk) && old(self).expr_value(mk.0, mk.1) is Some,
        ensures
            final(self).inv(),
            var.0 == old(self).num_vars(),
            final(self).num_vars() == old(self).num_vars() + 1,
            final(self).num_guards() == old(self).num_guards(),
            final(self).basic(var.0 as int),
            final(self).row(var.0 as int).coeffs() == old(self).lin_reduction(lin).unwrap().0,
            final(self).row(var.0 as int).known_term == old(self).lin_reduction(lin).unwrap().1,
            Some(final(self).value(var.0 as int)) == old(self).expr_value(
                old(self).lin_reduction(lin).unwrap().0,
                old(self).lin_reduction(lin).unwrap().1,
            ),
            final(self).lower_entries(var.0 as int) == Seq::<BV>::empty(),
            final(self).upper_entries(var.0 as int) == Seq::<BV>::empty(),
            !final(self).is_listened(var.0 as int),
            forall|v: int| 0 <= v < old(self).num_vars() ==> {
                &&& #[trigger] final(self).value(v) == old(self).value(v)
                &&& final(self).lower_entries(v) == old(self).lower_entries(v)
                &&& final(self).upper_entries(v) == old(self).upper_entries(v)
                &&& final(self).basic(v) == old(self).basic(v)
                &&& (old(self).basic(v) ==> final(self).row(v) == old(self).row(v))
                &&& final(self).is_listened(v) == old(self).is_listened(v)
            },
            forall|g: int| 0 <= g < old(self).num_guards() ==> #[trigger] final(self).pending_lbs(g) == old(self).pending_lbs(g)
                && final(self).pending_ubs(g) == old(self).pending_ubs(g),
            final(self).events() == old(self).events(),
    {
        let ghost o = *self;
        let mut vs: Vec<VarId> = Vec::new();
        Engine::vars_of(&lin, &mut vs);
        proof {
            assert(vs@ =~= term_vars(lin.vars@));
            assert forall|i: int| 0 <= i < vs@.len() implies (#[trigger] vs@[i]).0 < self.num_vars() by {
                assert(vs@[i] == lin.vars@[i].0);
            }
            assert forall|k: usize| #[trigger] lin.coeffs().contains_key(k) implies k < self.num_vars() && (!self.basic(k as int)
                || vs@.contains(VarId(k))) by {
                let i = choose|i: int| 0 <= i < lin.vars@.len() && lin.vars@[i].0.0 == k;
                assert(vs@[i] == lin.vars@[i].0);
            }
        }
        let row = match self.reduce_by(lin, &vs) {
            Some(x) => x,
            None => {
                proof {
                    assert(false);
                }
                return VarId(0);
            },
        };
        proof {
            let m = row.coeffs();
            assert(sorted_terms(row.vars@) && term_map(row.vars@) == m);
            assert(exists|ts: Seq<Term>| sorted_terms(ts) && term_map(ts) == m);
            lemma_terms_unique(terms_of(m), row.vars@);
            assert(o.expr_value(m, row.known_term) == o.lin_value(row));
        }
        let var = self.add_row_var(row);
        proof {
            assert forall|v: int| 0 <= v < o.num_vars() implies {
                &&& #[trigger] self.value(v) == o.value(v)
                &&& self.lower_entries(v) == o.lower_entries(v)
                &&& self.upper_entries(v) == o.upper_entries(v)
                &&& self.basic(v) == o.basic(v)
                &&& (o.basic(v) ==> self.row(v) == o.row(v))
                &&& self.is_listened(v) == o.is_listened(v)
            } by {
                assert(self.value(v) == o.value(v));
            }
        }
        var
    }

    /// Adds a variable defined as `lin`, as [`Engine::add_lin_var`] does,
    /// when there is room for one more variable and the reduced row and its
    /// value are in range; otherwise `None`, with nothing changed.
    pub fn try_add_lin_var(&mut self, lin: Lin) -> (r: Option<VarId>)
        requires
            old(self).inv(),
            old(self).lin_ok(lin),
        ensures
            final(self).inv(),
            r is Some <==> old(self).num_vars() < usize::MAX && old(self).lin_reduction(lin) is Some && old(
                self,
            ).expr_value(old(self).lin_reduction(lin).unwrap().0, old(self).lin_reduction(lin).unwrap().1) is Some,
            r is None ==> *final(self) == *old(self),
            r matches Some(var) ==> var.0 == old(self).num_vars() && final(self).row_var_added(
                old(self),
                old(self).lin_reduction(lin).unwrap().0,
                old(self).lin_reduction(lin).unwrap().1,
            ),
    {
        let ghost o = *self;
        let mut vs: Vec<VarId> = Vec::new();
        Engine::vars_of(&lin, &mut vs);
        proof {
            assert(vs@ =~= term_vars(lin.vars@));
            assert forall|i: int| 0 <= i < vs@.len() implies (#[trigger] vs@[i]).0 < self.num_vars() by {
                assert(vs@[i] == lin.vars@[i].0);
            }
            assert forall|k: usize| #[trigger] lin.coeffs().contains_key(k) implies k < self.num_vars() && (!self.basic(k as int)
                || vs@.contains(VarId(k))) by {
                let i = choose|i: int| 0 <= i < lin.vars@.len() && lin.vars@[i].0.0 == k;
                assert(vs@[i] == lin.vars@[i].0);
            }
        }
        let row = match self.reduce_by(lin, &vs) {
            Some(x) => x,
            None => return None,
        };
        proof {
            let m = row.coeffs();
            assert(sorted_terms(row.vars@) && term_map(row.vars@) == m);
            assert(exists|ts: Seq<Term>| sorted_terms(ts) && term_map(ts) == m);
            lemma_terms_unique(terms_of(m), row.vars@);
            assert(o.expr_value(m, row.known_term) == o.lin_value(row));
        }
        self.add_slack(row)
    }

    /// What `lhs < rhs` (strict) or `lhs <= rhs` does, taking `self` to `f`
    /// with result `r`, once `lhs - rhs` is reduced to `Σ m[x]·x + k` over
    /// non-basic variables: a constant is checked (a conflict naming no
    /// guard when it fails); one variable gets a bound (recorded by the
    /// guard, or set); more variables get a new basic slack variable equal
    /// to `Σ m[x]·x`, which gets the upper bound `-k`, unless there is no
    /// room for one more variable or the slack's value is out of range, which
    /// is `Overflow` with nothing changed.
    pub open spec fn lt_outcome(&self, f: &Engine, m: Map<usize, Rational>, k: Rational, strict: bool, guard: Option<GuardId>, r: Result<(), PropagationError>) -> bool {
        if is_constant(m) {
            &&& *f == *self
            &&& lt_holds(k, strict) ==> r is Ok
            &&& !lt_holds(k, strict) ==> (r matches Err(PropagationError::Conflict(l)) && l@.len() == 0)
        } else if m.len() == 1 {
            let x = the_key(m);
            let c = m[x];
            match lt_bound(c, k, strict) {
                None => r matches Err(PropagationError::Overflow) && *f == *self,
                Some(b) => match guard {
                    Some(g) => r is Ok && if c.num > 0 {
                        f.guard_records(self, x as int, None, Some(b), g)
                    } else {
                        f.guard_records(self, x as int, Some(b), None, g)
                    },
                    None => if c.num > 0 {
                        self.ub_effect(f, VarId(x), b, None, r)
                    } else {
                        self.lb_effect(f, VarId(x), b, None, r)
                    },
                },
            }
        } else {
            match slack_bound(k, strict) {
                None => r matches Err(PropagationError::Overflow) && *f == *self,
                Some(b) => if self.num_vars() < usize::MAX && self.sum_value(m) is Some {
                    exists|mid: Engine| #[trigger] mid.row_var_added(self, m, zero_spec()) && match guard {
                        Some(g) => r is Ok && f.guard_records(&mid, self.num_vars() as int, None, Some(b), g),
                        None => mid.ub_effect(f, VarId(self.num_vars() as usize), b, None, r),
                    }
                } else {
                    r matches Err(PropagationError::Overflow) && *f == *self
                },
            }
        }
    }

    /// Adds the constraint `lhs < rhs` (`strict`) or `lhs <= rhs`, recorded
    /// by `guard` for a later assertion when one is given, as
    /// [`Engine::lt_outcome`] says.
    pub fn new_lt(&mut self, lhs: &Lin, rhs: &Lin, strict: bool, guard: Option<GuardId>) -> (r: Result<(), PropagationError>)
        requires
            old(self).inv(),
            old(self).lin_ok(*lhs),
            old(self).lin_ok(*rhs),
            guard matches Some(g) ==> g.0 < old(self).num_guards(),
        ensures
            final(self).inv(),
            old(self).reduction(*lhs, *rhs) is None ==> (r matches Err(PropagationError::Overflow) && *final(self) == *old(self)),
            old(self).reduction(*lhs, *rhs) matches Some(mk) ==> old(self).lt_outcome(final(self), mk.0, mk.1, strict, guard, r),
    {
        let ghost o = *old(self);
        let e = match self.reduced_diff(lhs, rhs) {
            Some(e) => e,
            None => return Err(PropagationError::Overflow),
        };
        let ghost m = e.coeffs();
        let k = e.known_term;
        let n = e.vars.len();
        proof {
            e.lemma_coeffs_ok();
            assert(m.len() == n);
            if n > 0 {
                lemma_term_index(e.vars@, 0);
                if n == 1 {
                    assert forall|x: usize| m.contains_key(x) implies x == e.vars@[0].0.0 by {
                        let j = choose|j: int| 0 <= j < e.vars@.len() && e.vars@[j].0.0 == x;
                        assert(j == 0);
                    }
                    assert(the_key(m) == e.vars@[0].0.0);
                }
            }
        }
        if n == 0 || (n == 1 && e.vars[0].1.is_zero()) {
            let holds = if strict {
                k.is_negative()
            } else {
                !k.is_positive()
            };
            if holds {
                return Ok(());
            } else {
                return Err(PropagationError::Conflict(Vec::new()));
            }
        }
        if n == 1 {
            let x = e.vars[0].0;
            let c = e.vars[0].1;
            proof {
                assert(e.vars@[0].0.0 < self.num_vars());
            }
            let nk = match k.checked_neg() {
                Some(v) => v,
                None => return Err(PropagationError::Overflow),
            };
            let q = match nk.checked_div(&c) {
                Some(v) => v,
                None => return Err(PropagationError::Overflow),
            };
            let eps = if !strict {
                Rational::zero()
            } else if c.is_positive() {
                Rational::from_int(-1)
            } else {
                Rational::from_int(1)
            };
            let b = inf(q, eps);
            match guard {
                Some(g) => {
                    if c.is_positive() {
                        self.record_bounds(g, x, None, Some(b));
                    } else {
                        self.record_bounds(g, x, Some(b), None);
                    }
                    Ok(())
                },
                None => {
                    if c.is_positive() {
                        self.set_ub(x, b, None)
                    } else {
                        self.set_lb(x, b, None)
                    }
                },
            }
        } else {
            let nk = match k.checked_neg() {
                Some(v) => v,
                None => return Err(PropagationError::Overflow),
            };
            let eps = if strict {
                Rational::from_int(-1)
            } else {
                Rational::zero()
            };
            let b = inf(nk, eps);
            let mut sl = e;
            sl.known_term = Rational::zero();
            proof {
                assert(sl.coeffs() == m);
                assert(self.nonbasic_lin(sl));
                assert(sorted_terms(sl.vars@) && term_map(sl.vars@) == m);
                assert(exists|ts: Seq<Term>| sorted_terms(ts) && term_map(ts) == m);
                let ts = terms_of(m);
                assert(sl.known_term == zero_spec());
                lemma_terms_unique(ts, sl.vars@);
                assert(o.sum_value(m) == o.lin_value(sl));
            }
            let s = match self.add_slack(sl) {
                Some(s) => s,
                None => return Err(PropagationError::Overflow),
            };
            let ghost mid = *self;
            proof {
                assert(s == VarId(o.num_vars() as usize));
            }
            match guard {
                Some(g) => {
                    self.record_bounds(g, s, None, Some(b));
                    proof {
                        assert(mid.row_var_added(&o, m, zero_spec()));
                    }
                    Ok(())
                },
                None => {
                    let r = self.set_ub(s, b, None);
                    proof {
                        assert(mid.row_var_added(&o, m, zero_spec()));
                    }
                    r
                },
            }
        }
    }

    /// Adds the constraint `lhs <= rhs`.
    pub fn new_le(&mut self, lhs: &Lin, rhs: &Lin, guard: Option<GuardId>) -> (r: Result<(), PropagationError>)
        requires
            old(self).inv(),
            old(self).lin_ok(*lhs),
            old(self).lin_ok(*rhs),
            guard matches Some(g) ==> g.0 < old(self).num_guards(),
        ensures
            final(self).inv(),
            old(self).reduction(*lhs, *rhs) is None ==> (r matches Err(PropagationError::Overflow) && *final(self) == *old(self)),
            old(self).reduction(*lhs, *rhs) matches Some(mk) ==> old(self).lt_outcome(final(self), mk.0, mk.1, false, guard, r),
    {
        self.new_lt(lhs, rhs, false, guard)
    }

    /// Adds the constraint `lhs >= rhs`, that is `rhs <= lhs`.
    pub fn new_ge(&mut self, lhs: &Lin, rhs: &Lin, guard: Option<GuardId>) -> (r: Result<(), PropagationError>)
        requires
            old(self).inv(),
            old(self).lin_ok(*lhs),
            old(self).lin_ok(*rhs),
            guard matches Some(g) ==> g.0 < old(self).num_guards(),
        ensures
            final(self).inv(),
            old(self).reduction(*rhs, *lhs) is None ==> (r matches Err(PropagationError::Overflow) && *final(self) == *old(self)),
            old(self).reduction(*rhs, *lhs) matches Some(mk) ==> old(self).lt_outcome(final(self), mk.0, mk.1, false, guard, r),
    {
        self.new_lt(rhs, lhs, false, guard)
    }

    /// Adds the constraint `lhs > rhs` (`strict`) or `lhs >= rhs`, that is
    /// `rhs < lhs` or `rhs <= lhs`.
    pub fn new_gt(&mut self, lhs: &Lin, rhs: &Lin, strict: bool, guard: Option<GuardId>) -> (r: Result<(), PropagationError>)
        requires
            old(self).inv(),
            old(self).lin_ok(*lhs),
            old(self).lin_ok(*rhs),
            guard matches Some(g) ==> g.0 < old(self).num_guards(),
        ensures
            final(self).inv(),
            old(self).reduction(*rhs, *lhs) is None ==> (r matches Err(PropagationError::Overflow) && *final(self) == *old(self)),
            old(self).reduction(*rhs, *lhs) matches Some(mk) ==> old(self).lt_outcome(final(self), mk.0, mk.1, strict, guard, r),
    {
        self.new_lt(rhs, lhs, strict, guard)
    }
}

impl Engine {
    /// Setting first the lower then the upper bound `b` on `var`
    /// (`lower_first`), or the other way round, takes `self` to `f` with
    /// result `r`: when the second bound crosses the opposite bound in force
    /// while the first does not, its conflict comes first and nothing
    /// changes; otherwise the second is set only when the first succeeds.
    pub open spec fn both_effect(&self, f: &Engine, var: VarId, b: InfRational, lower_first: bool, r: Result<(), PropagationError>) -> bool {
        let x = var.0 as int;
        if lower_first && !self.upper(x).less(b) && b.less(self.lower(x)) {
            &&& r matches Err(PropagationError::Conflict(l)) && l@ == self.ub_conflict(x, None)
            &&& *f == *self
        } else if !lower_first && !b.less(self.lower(x)) && self.upper(x).less(b) {
            &&& r matches Err(PropagationError::Conflict(l)) && l@ == self.lb_conflict(x, None)
            &&& *f == *self
        } else {
            exists|mid: Engine, r1: Result<(), PropagationError>| {
                &&& #[trigger] self.bound_effect(&mid, var, b, lower_first, r1)
                &&& (r1 is Err ==> r == r1 && *f == mid)
                &&& (r1 is Ok ==> mid.inv() && mid.bound_effect(f, var, b, !lower_first, r))
            }
        }
    }

    /// Setting the lower (`lower`) or upper bound `b` on `var`, with no
    /// guard, takes `self` to `f` with result `r`.
    pub open spec fn bound_effect(&self, f: &Engine, var: VarId, b: InfRational, lower: bool, r: Result<(), PropagationError>) -> bool {
        if lower {
            self.lb_effect(f, var, b, None, r)
        } else {
            self.ub_effect(f, var, b, None, r)
        }
    }

    /// What `lhs == rhs` does, taking `self` to `f` with result `r`, once
    /// `lhs - rhs` is reduced to `Σ m[x]·x + k` over non-basic variables: a
    /// constant is checked (a conflict naming no guard when it fails); one
    /// variable gets both bounds `-k / m[x]`; more variables get a new basic
    /// slack variable equal to `Σ m[x]·x`, which gets both bounds `-k`,
    /// unless there is no room for one more variable or the slack's value is
    /// out of range, which is `Overflow` with nothing changed.
    pub open spec fn eq_outcome(&self, f: &Engine, m: Map<usize, Rational>, k: Rational, guard: Option<GuardId>, r: Result<(), PropagationError>) -> bool {
        if is_constant(m) {
            &&& *f == *self
            &&& k.num == 0 ==> r is Ok
            &&& k.num != 0 ==> (r matches Err(PropagationError::Conflict(l)) && l@.len() == 0)
        } else if m.len() == 1 {
            let x = the_key(m);
            let c = m[x];
            match eq_bound(c, k) {
                None => r matches Err(PropagationError::Overflow) && *f == *self,
                Some(b) => match guard {
                    Some(g) => r is Ok && f.guard_records(self, x as int, Some(b), Some(b), g),
                    None => self.both_effect(f, VarId(x), b, c.num > 0, r),
                },
            }
        } else {
            match k.neg_spec() {
                None => r matches Err(PropagationError::Overflow) && *f == *self,
                Some(nk) => if self.num_vars() < usize::MAX && self.sum_value(m) is Some {
                    exists|mid: Engine| #[trigger] mid.row_var_added(self, m, zero_spec()) && match guard {
                        Some(g) => r is Ok && f.guard_records(&mid, self.num_vars() as int, Some(lift(nk)), Some(lift(nk)), g),
                        None => mid.both_effect(f, VarId(self.num_vars() as usize), lift(nk), true, r),
                    }
                } else {
                    r matches Err(PropagationError::Overflow) && *f == *self
                },
            }
        }
    }

    /// Sets both bounds `b` on `var`, the lower one first (`lower_first`)
    /// or the upper one, the second only when the first succeeds.
    fn set_both(&mut self, var: VarId, b: InfRational, lower_first: bool) -> (r: Result<(), PropagationError>)
        requires
            old(self).inv(),
            var.0 < old(self).num_vars(),
            b.wf(),
            b.is_fin(),
        ensures
            final(self).inv(),
            old(self).both_effect(final(self), var, b, lower_first, r),
    {
        let ghost o = *old(self);
        let x = var.0;
        let lo = self.lower_at(var);
        let up = self.upper_at(var);
        if lower_first && !up.less_than(&b) && b.less_than(&lo) {
            proof {
                self.lemma_set_bounds(x as int);
                if self.lower_entries(x as int).len() == 0 {
                    lemma_finite_between(b);
                    lemma_inf_order(b, neg_inf(), b);
                }
            }
            let c = Engine::blame(None, &self.lbs[x], self.lbs[x].len() - 1);
            return Err(PropagationError::Conflict(c));
        }
        if !lower_first && !b.less_than(&lo) && up.less_than(&b) {
            proof {
                if self.upper_entries(x as int).len() == 0 {
                    lemma_finite_between(b);
                    lemma_inf_order(b, pos_inf(), b);
                }
            }
            let c = Engine::blame(None, &self.ubs[x], 0);
            return Err(PropagationError::Conflict(c));
        }
        let r1 = if lower_first {
            self.set_lb(var, b, None)
        } else {
            self.set_ub(var, b, None)
        };
        let ghost mid = *self;
        match r1 {
            Err(e) => {
                proof {
                    assert(r1 == Err::<(), PropagationError>(e));
                    assert(*self == mid);
                    assert(o.bound_effect(&mid, var, b, lower_first, r1));
                }
                Err(e)
            },
            Ok(()) => {
                let r = if lower_first {
                    self.set_ub(var, b, None)
                } else {
                    self.set_lb(var, b, None)
                };
                proof {
                    assert(o.bound_effect(&mid, var, b, lower_first, r1));
                    assert(mid.bound_effect(self, var, b, !lower_first, r));
                }
                r
            },
        }
    }

    /// Adds the constraint `lhs == rhs`, recorded by `guard` for a later
    /// assertion when one is given, as [`Engine::eq_outcome`] says.
    pub fn new_eq(&mut self, lhs: &Lin, rhs: &Lin, guard: Option<GuardId>) -> (r: Result<(), PropagationError>)
        requires
            old(self).inv(),
            old(self).lin_ok(*lhs),
            old(self).lin_ok(*rhs),
            guard matches Some(g) ==> g.0 < old(self).num_guards(),
        ensures
            final(self).inv(),
            old(self).reduction(*lhs, *rhs) is None ==> (r matches Err(PropagationError::Overflow) && *final(self) == *old(self)),
            old(self).reduction(*lhs, *rhs) matches Some(mk) ==> old(self).eq_outcome(final(self), mk.0, mk.1, guard, r),
    {
        let ghost o = *old(self);
        let e = match self.reduced_diff(lhs, rhs) {
            Some(e) => e,
            None => return Err(PropagationError::Overflow),
        };
        let ghost m = e.coeffs();
        let k = e.known_term;
        let n = e.vars.len();
        proof {
            e.lemma_coeffs_ok();
            assert(m.len() == n);
            if n > 0 {
                lemma_term_index(e.vars@, 0);
                if n == 1 {
                    assert forall|x: usize| m.contains_key(x) implies x == e.vars@[0].0.0 by {
                        let j = choose|j: int| 0 <= j < e.vars@.len() && e.vars@[j].0.0 == x;
                        assert(j == 0);
                    }
                    assert(the_key(m) == e.vars@[0].0.0);
                }
            }
        }
        if n == 0 || (n == 1 && e.vars[0].1.is_zero()) {
            if k.is_zero() {
                return Ok(());
            } else {
                return Err(PropagationError::Conflict(Vec::new()));
            }
        }
        let nk = match k.checked_neg() {
            Some(v) => v,
            None => return Err(PropagationError::Overflow),
        };
        if n == 1 {
            let x = e.vars[0].0;
            let c = e.vars[0].1;
            proof {
                assert(e.vars@[0].0.0 < self.num_vars());
            }
            let q = match nk.checked_div(&c) {
                Some(v) => v,
                None => return Err(PropagationError::Overflow),
            };
            let b = InfRational::from_rational(q);
            match guard {
                Some(g) => {
                    self.record_bounds(g, x, Some(b), Some(b));
                    Ok(())
                },
                None => self.set_both(x, b, c.is_positive()),
            }
        } else {
            let b = InfRational::from_rational(nk);
            let mut sl = e;
            sl.known_term = Rational::zero();
            proof {
                assert(sl.coeffs() == m);
                assert(self.nonbasic_lin(sl));
                assert(sorted_terms(sl.vars@) && term_map(sl.vars@) == m);
                assert(exists|ts: Seq<Term>| sorted_terms(ts) && term_map(ts) == m);
                let ts = terms_of(m);
                assert(sl.known_term == zero_spec());
                lemma_terms_unique(ts, sl.vars@);
                assert(o.sum_value(m) == o.lin_value(sl));
            }
            let s = match self.add_slack(sl) {
                Some(s) => s,
                None => return Err(PropagationError::Overflow),
            };
            let ghost mid = *self;
            proof {
                assert(s == VarId(o.num_vars() as usize));
            }
            match guard {
                Some(g) => {
                    self.record_bounds(g, s, Some(b), Some(b));
                    proof {
                        assert(mid.row_var_added(&o, m, zero_spec()));
                    }
                    Ok(())
                },
                None => {
                    let r = self.set_both(s, b, true);
                    proof {
                        assert(mid.row_var_added(&o, m, zero_spec()));
                    }
                    r
                },
            }
        }
    }
}

impl Engine {
    /// Has guard `g` record the lower bound `lb` on `var`, to be set when
    /// the guard is asserted; of two recorded on one variable the larger
    /// is kept.
    pub fn guard_lb(&mut self, g: GuardId, var: VarId, lb: InfRational)
        requires
            old(self).inv(),
            g.0 < old(self).num_guards(),
            var.0 < old(self).num_vars(),
            lb.wf(),
            lb.is_fin(),
        ensures
            final(self).guard_records(old(self), var.0 as int, Some(lb), None, g),
    {
        self.record_bounds(g, var, Some(lb), None);
    }

    /// Has guard `g` record the upper bound `ub` on `var`, to be set when
    /// the guard is asserted; of two recorded on one variable the smaller
    /// is kept.
    pub fn guard_ub(&mut self, g: GuardId, var: VarId, ub: InfRational)
        requires
            old(self).inv(),
            g.0 < old(self).num_guards(),
            var.0 < old(self).num_vars(),
            ub.wf(),
            ub.is_fin(),
        ensures
            final(self).guard_records(old(self), var.0 as int, None, Some(ub), g),
    {
        self.record_bounds(g, var, None, Some(ub));
    }
}

impl Default for Engine {
    fn default() -> (e: Engine)
        ensures
            e.inv(),
            e.num_vars() == 0,
            e.num_guards() == 0,
            e.events() == Seq::<Notification>::empty(),
    {
        Engine::new()
    }
}

impl Engine {
    /// The row of `var` when it is basic.
    pub fn basic_row(&self, var: VarId) -> (r: Option<&Lin>)
        requires
            self.inv(),
            var.0 < self.num_vars(),
        ensures
            r is Some <==> self.basic(var.0 as int),
            r matches Some(l) ==> *l == self.row(var.0 as int),
    {
        match &self.tableau[var.0] {
            Some(l) => Some(l),
            None => None,
        }
    }
}

impl Engine {
    /// The bounds of a variable are valid: distinct finite values in
    /// increasing order, each with known guards named once.
    /// The values are well-formed finite values, one per variable, and each
    /// bound is a well-formed value that is finite or the infinity of its side.
    pub proof fn lemma_value_facts(&self)
        requires
            self.inv(),
        ensures
            self.values().len() == self.num_vars(),
            self.num_vars() <= usize::MAX,
            vals_fin(self.values()),
            forall|v: int| #[trigger] self.value(v) == self.values()[v],
            forall|v: int| #![trigger self.lower(v)] #![trigger self.upper(v)] 0 <= v < self.num_vars() ==> {
                &&& self.lower(v).wf()
                &&& self.upper(v).wf()
                &&& self.lower(v).is_fin() || self.lower(v) == neg_inf()
                &&& self.upper(v).is_fin() || self.upper(v) == pos_inf()
            },
    {
        self.lemma_rows_view();
        assert forall|v: int| #![trigger self.lower(v)] #![trigger self.upper(v)] 0 <= v < self.num_vars() implies {
            &&& self.lower(v).wf()
            &&& self.upper(v).wf()
            &&& self.lower(v).is_fin() || self.lower(v) == neg_inf()
            &&& self.upper(v).is_fin() || self.upper(v) == pos_inf()
        } by {
            self.lemma_entry_facts(v);
            lemma_extremes(self.lower_entries(v), self.num_guards());
            lemma_extremes(self.upper_entries(v), self.num_guards());
        }
    }

    pub proof fn lemma_entry_facts(&self, v: int)
        requires
            self.inv(),
            0 <= v < self.num_vars(),
        ensures
            bounds_ok(self.lower_entries(v), self.num_guards()),
            bounds_ok(self.upper_entries(v), self.num_guards()),
    {
    }

    /// The bounds that a guard records are well-formed finite values on
    /// variables of the engine.
    pub proof fn lemma_pending_facts(&self, g: int, k: usize)
        requires
            self.inv(),
            0 <= g < self.num_guards(),
        ensures
            self.pending_lbs(g).contains_key(k) ==> k < self.num_vars() && self.pending_lbs(g)[k].wf()
                && self.pending_lbs(g)[k].is_fin(),
            self.pending_ubs(g).contains_key(k) ==> k < self.num_vars() && self.pending_ubs(g)[k].wf()
                && self.pending_ubs(g)[k].is_fin(),
    {
        let gb = self.guard_bounds@[g];
        assert(gb.wf(self.num_vars()));
        if self.pending_lbs(g).contains_key(k) {
            let i = key_index(gb.lbs@, k);
            assert(has_key(gb.lbs@, k));
            lemma_term_index(gb.lbs@, i);
        }
        if self.pending_ubs(g).contains_key(k) {
            let i = key_index(gb.ubs@, k);
            assert(has_key(gb.ubs@, k));
            lemma_term_index(gb.ubs@, i);
        }
    }
}

} // verus!
