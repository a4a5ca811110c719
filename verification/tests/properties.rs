use linarith::{
    inf, inf_i, v, vc, Constraint, ConstraintId, Engine, GuardId, InfRational, Lin, PropagationError, Rational,
    VarId,
};

fn whole(k: i64) -> InfRational {
    InfRational::from_int(k)
}

#[test]
fn assert_then_retract_restores_bounds() {
    let mut e = Engine::new();
    let x = e.add_var();
    let c0 = e.add_guard();
    e.guard_lb(c0, x, whole(3));
    e.guard_ub(c0, x, whole(7));
    let before = (e.lb(x), e.ub(x));
    assert!(e.assert_guard(c0).is_ok());
    assert_eq!(e.lb(x), whole(3));
    assert_eq!(e.ub(x), whole(7));
    e.retract(c0);
    assert_eq!((e.lb(x), e.ub(x)), before);
}

#[test]
fn lower_bound_is_the_tightest_asserted() {
    let mut e = Engine::new();
    let x = e.add_var();
    let c0 = e.add_guard();
    let c1 = e.add_guard();
    assert!(e.set_lb(x, whole(2), Some(c0)).is_ok());
    assert!(e.set_lb(x, whole(5), Some(c1)).is_ok());
    assert_eq!(e.lb(x), whole(5));
    assert!(e.set_lb(x, whole(4), None).is_ok());
    assert_eq!(e.lb(x), whole(5));
    e.retract(c1);
    assert_eq!(e.lb(x), whole(4));
}

#[test]
fn upper_bound_is_the_tightest_asserted() {
    let mut e = Engine::new();
    let x = e.add_var();
    let c0 = e.add_guard();
    let c1 = e.add_guard();
    assert!(e.set_ub(x, whole(9), Some(c0)).is_ok());
    assert!(e.set_ub(x, whole(6), Some(c1)).is_ok());
    assert_eq!(e.ub(x), whole(6));
    e.retract(c1);
    assert_eq!(e.ub(x), whole(9));
}

#[test]
fn setting_a_lower_bound_moves_a_nonbasic_value() {
    let mut e = Engine::new();
    let x = e.add_var();
    assert!(e.set_lb(x, whole(4), None).is_ok());
    assert_eq!(e.val(x), whole(4));
}

#[test]
fn crossing_bound_conflict_names_guard_first() {
    let mut e = Engine::new();
    let x = e.add_var();
    let c0 = e.add_guard();
    let c1 = e.add_guard();
    assert!(e.set_ub(x, whole(5), Some(c0)).is_ok());
    match e.set_lb(x, whole(10), Some(c1)) {
        Err(PropagationError::Conflict(c)) => assert_eq!(c, vec![c1, c0]),
        _ => panic!("expected a conflict"),
    }
    assert_eq!(e.lb(x), InfRational::negative_infinity());
    assert_eq!(e.ub(x), whole(5));
}

#[test]
fn crossing_bound_without_guard_names_the_other_side() {
    let mut e = Engine::new();
    let x = e.add_var();
    let c0 = e.add_guard();
    assert!(e.set_lb(x, whole(8), Some(c0)).is_ok());
    match e.set_ub(x, whole(1), None) {
        Err(PropagationError::Conflict(c)) => assert_eq!(c, vec![c0]),
        _ => panic!("expected a conflict"),
    }
}

#[test]
fn check_finds_values_within_bounds() {
    let mut e = Engine::new();
    let x = e.add_var();
    let y = e.add_var();
    assert!(e.new_ge(&v(x).add(&v(y)), &Lin::from_int(10), None).is_ok());
    assert!(e.new_le(&v(x), &Lin::from_int(3), None).is_ok());
    assert!(e.new_le(&v(y), &Lin::from_int(8), None).is_ok());
    assert!(e.check().is_ok());
    let sum = e.lin_val(&v(x).add(&v(y)));
    assert!(!sum.less_than(&whole(10)));
    assert!(!whole(3).less_than(&e.val(x)));
    assert!(!whole(8).less_than(&e.val(y)));
}

#[test]
fn check_explains_an_infeasible_system() {
    let mut e = Engine::new();
    let x = e.add_var();
    let y = e.add_var();
    let c0 = e.add_guard();
    let c1 = e.add_guard();
    let c2 = e.add_guard();
    assert!(e.new_ge(&v(x).add(&v(y)), &Lin::from_int(10), Some(c0)).is_ok());
    assert!(e.new_le(&v(x), &Lin::from_int(3), Some(c1)).is_ok());
    assert!(e.new_le(&v(y), &Lin::from_int(4), Some(c2)).is_ok());
    assert_eq!(e.lb(x), InfRational::negative_infinity());
    assert_eq!(e.ub(x), InfRational::positive_infinity());
    assert!(e.check().is_ok());
    assert!(e.assert_guard(c0).is_ok());
    assert!(e.assert_guard(c1).is_ok());
    assert!(e.assert_guard(c2).is_ok());
    assert_eq!(e.ub(y), whole(4));
    match e.check() {
        Err(PropagationError::Conflict(c)) => {
            assert!(c.contains(&c0));
            assert!(c.contains(&c1));
            assert!(c.contains(&c2));
        },
        r => panic!("expected a conflict, got {:?} with\n{}", r, e.to_text()),
    }
}

#[test]
fn values_that_no_longer_fit_give_overflow() {
    let mut e = Engine::new();
    let x = e.add_var();
    let y = e.add_var();
    let s = e.add_lin_var(v(x).add(&v(y)));
    assert!(e.set_lb(x, whole(i64::MAX), None).is_ok());
    assert_eq!(e.val(s), whole(i64::MAX));
    assert_eq!(e.set_lb(y, whole(i64::MAX), None), Err(PropagationError::Overflow));
    assert_eq!(e.lb(y), InfRational::negative_infinity());
    assert_eq!(e.val(y), InfRational::zero());
}

#[test]
fn a_new_row_takes_the_value_of_its_expression() {
    let mut e = Engine::new();
    let x = e.add_var();
    let y = e.add_var();
    assert!(e.set_lb(x, whole(2), None).is_ok());
    assert!(e.set_lb(y, whole(3), None).is_ok());
    let l = vc(x, 2).add(&vc(y, -1));
    let s = e.add_lin_var(l);
    assert_eq!(e.val(s), whole(1));
    assert_eq!(e.basic_row(s).unwrap().to_text(), "2*x0 - x1");
    assert!(e.basic_row(x).is_none());
}

#[test]
fn bounds_of_an_expression() {
    let mut e = Engine::new();
    let x = e.add_var();
    let y = e.add_var();
    assert!(e.new_ge(&v(x), &Lin::from_int(1), None).is_ok());
    assert!(e.new_le(&v(x), &Lin::from_int(4), None).is_ok());
    assert!(e.new_ge(&v(y), &Lin::from_int(2), None).is_ok());
    let l = v(x).sub(&v(y));
    assert_eq!(e.lin_lb(&l), InfRational::negative_infinity());
    assert_eq!(e.lin_ub(&l), whole(2));
    assert_eq!(e.lin_lb(&v(x).add(&v(y))), whole(3));
}

#[test]
fn strict_bound_uses_an_infinitesimal() {
    let mut e = Engine::new();
    let x = e.add_var();
    assert!(e.new_lt(&v(x), &Lin::from_int(3), true, None).is_ok());
    assert_eq!(e.ub(x), inf(Rational::from_int(3), Rational::from_int(-1)));
    assert_eq!(e.ub(x), whole(3).add(&inf_i(-1)));
    assert_eq!(e.ub(x).to_text(), "3 - 1ε");
}

#[test]
fn notifications_report_moves_of_watched_variables() {
    let mut e = Engine::new();
    let x = e.add_var();
    let y = e.add_var();
    e.set_listener(x);
    assert!(e.set_lb(y, whole(2), None).is_ok());
    assert!(e.take_notifications().is_empty());
    assert!(e.set_lb(x, whole(6), None).is_ok());
    let ns = e.take_notifications();
    assert_eq!(ns.len(), 1);
    assert_eq!(ns[0].var, x);
    assert_eq!(ns[0].val, whole(6));
    assert_eq!(ns[0].lb, whole(6));
    assert_eq!(ns[0].ub, InfRational::positive_infinity());
    assert!(e.take_notifications().is_empty());
}

#[test]
fn rational_text_forms() {
    assert_eq!(Rational::new(2, 4).to_text(), "1/2");
    assert_eq!(Rational::new(3, -6).to_text(), "-1/2");
    assert_eq!(Rational::from_int(-7).to_text(), "-7");
    assert_eq!(Rational::positive_infinity().to_text(), "+inf");
    assert_eq!(Rational::negative_infinity().to_text(), "-inf");
}

#[test]
fn rational_arithmetic_is_exact() {
    let a = Rational::new(1, 3);
    let b = Rational::new(1, 6);
    assert_eq!(a.add(&b), Rational::new(1, 2));
    assert_eq!(a.sub(&b), Rational::new(1, 6));
    assert_eq!(a.mul(&b), Rational::new(1, 18));
    assert_eq!(a.div(&b), Rational::from_int(2));
    assert_eq!(a.neg(), Rational::new(-1, 3));
    assert_eq!(a.checked_add(&Rational::from_int(i64::MAX)), None);
}

#[test]
fn constraint_text_forms() {
    assert_eq!(ConstraintId(3).to_text(), "c3");
    let lhs = vc(VarId(0), 2).add_rat(&Rational::from_int(1));
    let rhs = Lin::from_int(5);
    let c = Constraint::LEq { lhs: lhs.duplicate(), rhs: rhs.duplicate() };
    assert_eq!(c.to_text(), "2*x0 + 1 <= 5");
    let c = Constraint::Gt { lhs, rhs };
    assert_eq!(c.to_text(), "2*x0 + 1 > 5");
}

#[test]
fn engine_text_lists_values_bounds_and_rows() {
    let mut e = Engine::new();
    let x = e.add_var();
    assert!(e.set_lb(x, whole(1), None).is_ok());
    let _ = e.add_lin_var(vc(x, 3));
    assert_eq!(e.to_text(), "x0 = 1, [1, +inf]\nx1 = 3, [-inf, +inf]\nx1 = 3*x0\n");
}

#[test]
fn retracting_an_unasserted_guard_keeps_other_bounds() {
    let mut e = Engine::new();
    let x = e.add_var();
    let c0 = e.add_guard();
    let c1 = e.add_guard();
    assert!(e.set_ub(x, whole(4), Some(c0)).is_ok());
    e.retract(c1);
    assert_eq!(e.ub(x), whole(4));
    assert_eq!(e.guard_count(), 2);
    assert_eq!(e.var_count(), 1);
    assert_eq!(GuardId(1), c1);
}

#[test]
fn values_satisfy_the_rows_after_check() {
    let mut e = Engine::new();
    let x = e.add_var();
    let y = e.add_var();
    assert!(e.new_ge(&v(x).add(&v(y)), &Lin::from_int(10), None).is_ok());
    assert!(e.new_le(&vc(x, 2).sub(&v(y)), &Lin::from_int(4), None).is_ok());
    assert!(e.new_le(&v(x), &Lin::from_int(5), None).is_ok());
    assert!(e.check().is_ok());
    let mut rows = 0;
    for b in 0..e.var_count() {
        if let Some(row) = e.basic_row(VarId(b)) {
            let row = row.duplicate();
            assert_eq!(e.lin_val(&row), e.val(VarId(b)));
            rows += 1;
        }
    }
    assert_eq!(rows, 2);
    let sum = e.lin_val(&v(x).add(&v(y)));
    assert!(!sum.less_than(&whole(10)));
    let d = e.lin_val(&vc(x, 2).sub(&v(y)));
    assert!(!whole(4).less_than(&d));
    assert!(!whole(5).less_than(&e.val(x)));
}

#[test]
fn quick_start_bounds_hold_after_check() {
    let mut engine = Engine::new();
    let x = engine.add_var();
    assert!(engine.new_ge(&v(x), &Lin::from_int(5), None).is_ok());
    assert!(engine.new_le(&v(x), &Lin::from_int(10), None).is_ok());
    assert!(engine.check().is_ok());
    assert!(!engine.val(x).less_than(&whole(5)));
    assert!(!whole(10).less_than(&engine.val(x)));
}

#[test]
fn non_chronological_retraction() {
    let mut engine = Engine::new();
    let x = engine.add_var();
    let y = engine.add_var();
    let g1 = engine.add_guard();
    let g2 = engine.add_guard();
    assert!(engine.new_ge(&v(x), &Lin::from_int(5), Some(g1)).is_ok());
    assert!(engine.assert_guard(g1).is_ok());
    assert!(engine.new_le(&v(y), &Lin::from_int(10), Some(g2)).is_ok());
    assert!(engine.assert_guard(g2).is_ok());
    assert_eq!(engine.lb(x), whole(5));
    engine.retract(g1);
    assert_eq!(engine.lb(x), InfRational::negative_infinity());
    assert_eq!(engine.ub(y), whole(10));
}

#[test]
fn touching_bounds_overlap() {
    let mut e = Engine::new();
    let x = e.add_var();
    let y = e.add_var();
    assert!(e.new_eq(&v(x), &Lin::from_int(5), None).is_ok());
    assert!(e.new_eq(&v(y), &Lin::from_int(5), None).is_ok());
    assert!(e.overlap(x, y));
    assert!(e.new_le(&v(y), &Lin::from_int(4), None).is_err());
}

#[test]
fn retract_removes_only_the_guards_share() {
    let mut e = Engine::new();
    let x = e.add_var();
    let c0 = e.add_guard();
    let c1 = e.add_guard();
    assert!(e.new_le(&v(x), &Lin::from_int(10), Some(c0)).is_ok());
    assert!(e.new_le(&v(x), &Lin::from_int(10), Some(c1)).is_ok());
    assert!(e.assert_guard(c0).is_ok());
    assert!(e.assert_guard(c1).is_ok());
    e.retract(c0);
    assert_eq!(e.ub(x), whole(10));
    e.retract(c1);
    assert_eq!(e.ub(x), InfRational::positive_infinity());
}

#[test]
fn failed_equation_leaves_no_bound() {
    let mut e = Engine::new();
    let x = e.add_var();
    let c0 = e.add_guard();
    assert!(e.new_ge(&v(x), &Lin::from_int(5), Some(c0)).is_ok());
    assert!(e.assert_guard(c0).is_ok());
    match e.new_eq(&v(x), &Lin::from_int(3), None) {
        Err(PropagationError::Conflict(cs)) => assert!(cs.contains(&c0)),
        other => panic!("expected a conflict, got {:?}", other),
    }
    assert_eq!(e.ub(x), InfRational::positive_infinity());
    e.retract(c0);
    assert_eq!(e.lb(x), InfRational::negative_infinity());
}

#[test]
fn guard_with_a_pending_bound_still_records_a_looser_one() {
    let mut e = Engine::new();
    let x = e.add_var();
    let c0 = e.add_guard();
    assert!(e.new_ge(&v(x), &Lin::from_int(7), Some(c0)).is_ok());
    assert!(e.set_lb(x, whole(5), Some(c0)).is_ok());
    assert_eq!(e.lb(x), whole(5));
    assert_eq!(e.val(x), whole(5));
    e.retract(c0);
    assert_eq!(e.lb(x), InfRational::negative_infinity());
}

#[test]
fn bound_change_without_a_move_is_reported() {
    let mut e = Engine::new();
    let x = e.add_var();
    e.set_listener(x);
    assert!(e.set_ub(x, whole(10), None).is_ok());
    let ns = e.take_notifications();
    assert_eq!(ns.len(), 1);
    assert_eq!(ns[0].var, x);
    assert_eq!(ns[0].val, whole(0));
    assert_eq!(ns[0].ub, whole(10));
    assert!(e.set_ub(x, whole(12), None).is_ok());
    assert!(e.take_notifications().is_empty());
}

#[test]
fn infinite_bound_beyond_a_finite_one_is_a_conflict() {
    let mut e = Engine::new();
    let x = e.add_var();
    let c0 = e.add_guard();
    assert!(e.set_ub(x, whole(3), Some(c0)).is_ok());
    assert_eq!(
        e.set_lb(x, InfRational::positive_infinity(), None),
        Err(PropagationError::Conflict(vec![c0]))
    );
    assert!(e.set_lb(x, whole(1), Some(c0)).is_ok());
    assert_eq!(
        e.set_ub(x, InfRational::negative_infinity(), None),
        Err(PropagationError::Conflict(vec![c0]))
    );
    assert_eq!(e.lb(x), whole(1));
    assert_eq!(e.ub(x), whole(3));
}

#[test]
fn expression_over_a_basic_variable_is_reduced() {
    let mut e = Engine::new();
    let x = e.add_var();
    let y = e.add_var();
    assert!(e.set_lb(x, whole(2), None).is_ok());
    assert!(e.set_lb(y, whole(3), None).is_ok());
    let s = e.add_lin_var(v(x).add(&v(y)));
    assert_eq!(e.val(s), whole(5));
    let t = e.add_lin_var(v(s).add(&v(x)));
    assert_eq!(e.val(t), whole(7));
    assert!(e.new_le(&v(t), &Lin::from_int(6), None).is_ok());
    assert!(e.check().is_err());
}

#[test]
fn failed_assertion_leaves_no_bound_of_the_guard() {
    let mut e = Engine::new();
    let x = e.add_var();
    let c0 = e.add_guard();
    let c1 = e.add_guard();
    assert!(e.set_ub(x, whole(4), Some(c1)).is_ok());
    e.guard_lb(c0, x, whole(1));
    e.guard_ub(c0, x, whole(2));
    e.guard_lb(c0, x, whole(6));
    assert_eq!(e.assert_guard(c0), Err(PropagationError::Conflict(vec![c0, c1])));
    assert_eq!(e.lb(x), InfRational::negative_infinity());
    assert_eq!(e.ub(x), whole(4));
}

#[test]
fn retracting_a_bound_is_reported() {
    let mut e = Engine::new();
    let x = e.add_var();
    let y = e.add_var();
    let c0 = e.add_guard();
    assert!(e.set_ub(x, whole(8), Some(c0)).is_ok());
    assert!(e.set_ub(y, whole(9), Some(c0)).is_ok());
    e.set_listener(x);
    e.retract(c0);
    let ns = e.take_notifications();
    assert_eq!(ns.len(), 1);
    assert_eq!(ns[0].var, x);
    assert_eq!(ns[0].ub, InfRational::positive_infinity());
}

#[test]
fn defined_variable_keeps_its_expression_through_pivots() {
    let mut e = Engine::new();
    let x = e.add_var();
    let y = e.add_var();
    let s = e.add_lin_var(vc(x, 2).add(&v(y)));
    assert!(e.set_lb(s, whole(7), None).is_ok());
    assert!(e.set_ub(x, whole(1), None).is_ok());
    assert!(e.check().is_ok());
    let expr = e.lin_val(&vc(x, 2).add(&v(y)));
    assert_eq!(e.val(s), expr);
    assert!(!e.val(s).less_than(&whole(7)));
    assert!(!whole(1).less_than(&e.val(x)));
}

#[test]
fn failed_assert_keeps_the_other_guards_bound() {
    let mut e = Engine::new();
    let x = e.add_var();
    let c0 = e.add_guard();
    let c1 = e.add_guard();
    assert!(e.new_le(&v(x), &Lin::from_int(10), Some(c0)).is_ok());
    assert!(e.new_gt(&v(x), &Lin::from_int(15), true, Some(c1)).is_ok());
    assert!(e.assert_guard(c0).is_ok());
    match e.assert_guard(c1) {
        Err(PropagationError::Conflict(cs)) => {
            assert!(cs.contains(&c0));
            assert!(cs.contains(&c1));
        },
        other => panic!("expected a conflict, got {:?}", other),
    }
    assert_eq!(e.lb(x), InfRational::negative_infinity());
    assert_eq!(e.ub(x), whole(10));
}

#[test]
fn guard_asserted_again_after_a_failure() {
    let mut e = Engine::new();
    let x = e.add_var();
    let c0 = e.add_guard();
    let c1 = e.add_guard();
    assert!(e.new_ge(&v(x), &Lin::from_int(10), Some(c0)).is_ok());
    assert!(e.assert_guard(c0).is_ok());
    assert!(e.new_le(&v(x), &Lin::from_int(5), Some(c1)).is_ok());
    assert!(e.assert_guard(c1).is_err());
    assert_eq!(e.lb(x), whole(10));
    assert_eq!(e.ub(x), InfRational::positive_infinity());
    e.retract(c0);
    assert!(e.assert_guard(c1).is_ok());
    assert_eq!(e.ub(x), whole(5));
    assert!(e.check().is_ok());
}

#[test]
fn unguarded_bound_survives_a_retraction() {
    let mut e = Engine::new();
    let x = e.add_var();
    let c0 = e.add_guard();
    assert!(e.set_ub(x, whole(10), None).is_ok());
    assert!(e.new_le(&v(x), &Lin::from_int(10), Some(c0)).is_ok());
    assert!(e.assert_guard(c0).is_ok());
    e.retract(c0);
    assert_eq!(e.ub(x), whole(10));
}

#[test]
fn infinite_bound_without_a_finite_opposite_is_refused() {
    let mut e = Engine::new();
    let x = e.add_var();
    assert_eq!(e.set_lb(x, InfRational::positive_infinity(), None), Err(PropagationError::Overflow));
    assert_eq!(e.set_ub(x, InfRational::negative_infinity(), None), Err(PropagationError::Overflow));
    assert_eq!(e.lb(x), InfRational::negative_infinity());
    assert_eq!(e.ub(x), InfRational::positive_infinity());
    assert_eq!(e.val(x), whole(0));
}

#[test]
fn checked_definition_of_a_variable() {
    let mut e = Engine::new();
    let x = e.add_var();
    let y = e.add_var();
    assert!(e.set_lb(x, whole(1), None).is_ok());
    let s = match e.try_add_lin_var(v(x).add(&vc(y, 3))) {
        Some(s) => s,
        None => panic!("expected a new variable"),
    };
    assert_eq!(e.val(s), whole(1));
    let t = match e.try_add_lin_var(v(s).sub(&v(x))) {
        Some(t) => t,
        None => panic!("expected a new variable"),
    };
    assert_eq!(e.val(t), whole(0));
    assert_eq!(e.var_count(), 4);
}

#[test]
fn expression_bounds_enclose_its_value() {
    let mut e = Engine::new();
    let x = e.add_var();
    let y = e.add_var();
    assert!(e.new_ge(&v(x), &Lin::from_int(1), None).is_ok());
    assert!(e.new_le(&v(x), &Lin::from_int(4), None).is_ok());
    assert!(e.new_ge(&v(y), &Lin::from_int(2), None).is_ok());
    assert!(e.new_le(&v(y), &Lin::from_int(6), None).is_ok());
    assert_eq!(e.check(), Ok(()));
    let l = vc(x, 3).add(&vc(y, -2)).add(&Lin::from_int(5));
    let (lo, val, hi) = (e.lin_lb(&l), e.lin_val(&l), e.lin_ub(&l));
    assert_eq!(lo, whole(3 - 12 + 5));
    assert_eq!(hi, whole(12 - 4 + 5));
    assert!(!val.less_than(&lo));
    assert!(!hi.less_than(&val));
    let open = v(x).add(&v(y)).sub(&v(e.add_var()));
    assert_eq!(e.lin_lb(&open), InfRational::negative_infinity());
    assert!(e.lin_lb(&open).less_than(&e.lin_val(&open)));
}

#[test]
fn value_of_a_sum_is_the_sum_of_values() {
    let mut e = Engine::new();
    let x = e.add_var();
    let y = e.add_var();
    assert!(e.new_ge(&v(x), &Lin::from_int(2), None).is_ok());
    assert!(e.new_le(&v(y), &Lin::from_int(-1), None).is_ok());
    assert_eq!(e.check(), Ok(()));
    let a = vc(x, 3).add(&Lin::from_int(1));
    let b = vc(x, -1).add(&vc(y, 2)).sub(&Lin::from_int(3));
    let s = a.add(&b);
    assert_eq!(e.lin_val(&s), e.lin_val(&a).add(&e.lin_val(&b)));
    assert_eq!(e.lin_val(&s), whole(2 * 2 + 2 * -1 + 1 - 3));
}
