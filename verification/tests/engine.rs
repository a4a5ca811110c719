use linarith::{v, vc, Engine, InfRational, Lin, PropagationError, Rational, VarId};

#[test]
fn engine_creation_and_variables() {
    let mut e = Engine::new();
    let x = e.add_var();
    let y = e.add_var();
    assert_eq!(x, VarId(0));
    assert_eq!(y, VarId(1));
    assert_eq!(e.val(x), InfRational::zero());
    assert_eq!(e.lb(x), InfRational::negative_infinity());
    assert_eq!(e.ub(x), InfRational::positive_infinity());
}

#[test]
fn constant_le_satisfied() {
    let mut e = Engine::new();
    assert!(e.new_le(&Lin::from_int(5), &Lin::from_int(10), None).is_ok());
    assert!(e.check().is_ok());
}

#[test]
fn constant_le_unsat() {
    let mut e = Engine::new();
    assert!(e.new_le(&Lin::from_int(10), &Lin::from_int(5), None).is_err());
}

#[test]
fn constant_lt_strict_vs_nonstrict() {
    let mut e = Engine::new();
    assert!(e.new_lt(&Lin::from_int(0), &Lin::from_int(0), false, None).is_ok());
    assert!(e.new_lt(&Lin::from_int(0), &Lin::from_int(0), true, None).is_err());
    assert!(e.new_lt(&Lin::from_int(-1), &Lin::from_int(0), true, None).is_ok());
}

#[test]
fn constant_gt_ge() {
    let mut e = Engine::new();
    assert!(e.new_ge(&Lin::from_int(10), &Lin::from_int(5), None).is_ok());
    assert!(e.new_gt(&Lin::from_int(10), &Lin::from_int(5), false, None).is_ok());
    assert!(e.new_gt(&Lin::from_int(10), &Lin::from_int(5), true, None).is_ok());
    assert!(e.new_gt(&Lin::from_int(5), &Lin::from_int(10), true, None).is_err());
}

#[test]
fn constant_eq() {
    let mut e = Engine::new();
    assert!(e.new_eq(&Lin::from_int(7), &Lin::from_int(7), None).is_ok());
    assert!(e.new_eq(&Lin::from_int(7), &Lin::from_int(8), None).is_err());
}

#[test]
fn single_var_le_sets_ub() {
    let mut e = Engine::new();
    let x = e.add_var();
    assert!(e.new_le(&v(x), &Lin::from_int(10), None).is_ok());
    assert!(e.ub(x) <= InfRational::from(Rational::from(10)));
    assert!(e.check().is_ok());
}

#[test]
fn single_var_gt_sets_lb() {
    let mut e = Engine::new();
    let x = e.add_var();
    assert!(e.new_gt(&v(x), &Lin::from_int(5), true, None).is_ok());
    assert!(e.lb(x) >= InfRational::from(Rational::from(5)));
    assert!(e.check().is_ok());
}

#[test]
fn single_var_eq_sets_exact() {
    let mut e = Engine::new();
    let x = e.add_var();
    assert!(e.new_eq(&v(x), &Lin::from_int(42), None).is_ok());
    assert_eq!(e.lb(x), e.ub(x));
    assert_eq!(e.val(x), InfRational::from(Rational::from(42)));
}

#[test]
fn bound_conflict() {
    let mut e = Engine::new();
    let x = e.add_var();
    let c0 = e.add_guard();
    let c1 = e.add_guard();
    assert!(e.new_le(&v(x), &Lin::from_int(10), Some(c0)).is_ok());
    assert!(e.new_gt(&v(x), &Lin::from_int(15), true, Some(c1)).is_ok());
    assert!(e.assert_guard(c0).is_ok());
    let Err(PropagationError::Conflict(conflict)) = e.assert_guard(c1) else { panic!("expected conflict") };
    assert!(conflict.contains(&c0));
    assert!(conflict.contains(&c1));
}

#[test]
fn two_var_le_creates_slack() {
    let mut e = Engine::new();
    let x = e.add_var();
    let y = e.add_var();
    let lhs = vc(x, 1).add(&vc(y, 1));
    assert!(e.new_le(&lhs, &Lin::from_int(5), None).is_ok());
    assert!(e.check().is_ok());
    assert!(e.ub(VarId(e.var_count() - 1)) <= InfRational::from(Rational::from(5)));
}

#[test]
fn substitution_basic_var() {
    let mut e = Engine::new();
    let x = e.add_var();
    let y = e.add_var();
    assert!(e.new_eq(&v(x), &v(y).add(&Lin::from_int(3)), None).is_ok());
    assert!(e.new_lt(&v(y), &Lin::from_int(0), false, None).is_ok());
    assert!(e.check().is_ok());
}

#[test]
fn check_pivots_to_feasibility() {
    let mut e = Engine::new();
    let x = e.add_var();
    let y = e.add_var();
    assert!(e.new_eq(&v(y), &Lin::from_int(10).sub(&v(x)), None).is_ok());
    assert!(e.new_ge(&v(y), &Lin::from_int(12), None).is_ok());
    assert!(e.check().is_ok());
}

#[test]
fn unsat_after_failed_pivot() {
    let mut e = Engine::new();
    let x = e.add_var();
    assert!(e.new_le(&v(x), &Lin::from_int(0), None).is_ok());
    let Err(PropagationError::Conflict(conflict)) = e.new_gt(&v(x), &Lin::from_int(10), false, None) else {
        panic!("expected conflict")
    };
    assert!(conflict.is_empty());
}

#[test]
fn strict_adjustment() {
    let mut e = Engine::new();
    let x = e.add_var();
    assert!(e.new_lt(&v(x), &Lin::from_int(0), true, None).is_ok());
    assert!(e.check().is_ok());
}

#[test]
fn listener_called_on_update() {
    let mut engine = Engine::new();
    let a = engine.add_var();
    engine.set_listener(a);

    assert!(engine.new_eq(&v(a), &Lin::from_int(5), None).is_ok());
    assert!(engine.check().is_ok());

    let mut called = false;
    for n in engine.take_notifications() {
        assert_eq!(n.var, a);
        assert_eq!(n.val, InfRational::from(Rational::from(5)));
        called = true;
    }
    assert!(called);
}

#[test]
fn overlap_test() {
    let mut e = Engine::new();
    let x = e.add_var();
    let y = e.add_var();
    assert!(e.overlap(x, y));

    assert!(e.new_le(&v(x), &Lin::from_int(10), None).is_ok());
    assert!(e.new_ge(&v(y), &Lin::from_int(20), None).is_ok());
    assert!(!e.overlap(x, y));
}

#[test]
fn display_works() {
    let mut e = Engine::new();
    let _ = e.add_var();
    let s = e.to_text();
    assert!(!s.is_empty());
}

#[test]
fn redundant_constraint() {
    let mut e = Engine::new();
    let x = e.add_var();
    let c0 = e.add_guard();
    let c1 = e.add_guard();
    assert!(e.new_le(&v(x), &Lin::from_int(10), Some(c0)).is_ok());
    assert!(e.new_le(&v(x), &Lin::from_int(20), Some(c1)).is_ok());
    assert!(e.check().is_ok());
}

#[test]
fn shared_guard_retraction() {
    let mut e = Engine::new();
    let x = e.add_var();
    let c0 = e.add_guard();
    assert!(e.new_le(&v(x), &Lin::from_int(20), Some(c0)).is_ok());
    assert!(e.new_le(&v(x), &Lin::from_int(10), Some(c0)).is_ok());
    assert!(e.check().is_ok());
    e.retract(c0);
    assert_eq!(e.ub(x), InfRational::positive_infinity());
    assert_eq!(e.lb(x), InfRational::negative_infinity());
}

#[test]
fn chained_retraction() {
    let mut e = Engine::new();
    let x = e.add_var();
    let y = e.add_var();
    let z = e.add_var();

    let c0 = e.add_guard();
    let c1 = e.add_guard();

    // y >= x + 1
    assert!(e.new_ge(&v(y), &v(x).add(&Lin::from_int(1)), Some(c0)).is_ok());
    // z >= y + 1
    assert!(e.new_ge(&v(z), &v(y).add(&Lin::from_int(1)), Some(c1)).is_ok());
    assert!(e.check().is_ok());
    e.retract(c0);
    assert_eq!(e.lb(y), InfRational::negative_infinity());
    assert_eq!(e.lb(z), InfRational::negative_infinity());

    // x >= z + 1
    assert!(e.new_ge(&v(x), &v(z).add(&Lin::from_int(1)), None).is_ok());
    assert!(e.check().is_ok());
}

#[test]
fn conflict_explanation_generation() {
    let mut e = Engine::new();
    let x = e.add_var();
    let y = e.add_var();

    let c0 = e.add_guard();
    let c1 = e.add_guard();
    let c2 = e.add_guard();

    // x + y >= 1
    assert!(e.new_ge(&v(x).add(&v(y)), &Lin::from_int(1), Some(c0)).is_ok());
    assert!(e.assert_guard(c0).is_ok());
    // x >= 2
    assert!(e.new_ge(&v(x), &Lin::from_int(2), Some(c1)).is_ok());
    assert!(e.assert_guard(c1).is_ok());
    assert!(e.check().is_ok());

    // x + y <= 0
    assert!(e.new_le(&v(x).add(&v(y)), &Lin::from_int(0), Some(c2)).is_ok());
    assert!(e.assert_guard(c2).is_ok());
    let Err(PropagationError::Conflict(conflict)) = e.check() else { panic!("expected conflict") };
    assert!(conflict.contains(&c0));
    assert!(conflict.contains(&c2));
}

#[test]
fn complex_conflict_explanation_generation() {
    let mut e = Engine::new();
    let x = e.add_var();
    let y = e.add_var();
    let s1 = e.add_lin_var(vc(x, -1).add(&vc(y, 1))); // s1 = y - x
    let s2 = e.add_lin_var(vc(x, 1).add(&vc(y, 1))); // s2 = x + y

    let c0 = e.add_guard();
    assert!(e.new_le(&v(x), &Lin::from_int(-4), Some(c0)).is_ok());
    assert!(e.assert_guard(c0).is_ok());
    assert!(e.check().is_ok());
    let c1 = e.add_guard();
    assert!(e.new_ge(&v(x), &Lin::from_int(-8), Some(c1)).is_ok());
    assert!(e.assert_guard(c1).is_ok());
    assert!(e.check().is_ok());
    let c2 = e.add_guard();
    assert!(e.new_le(&v(s1), &Lin::from_int(1), Some(c2)).is_ok());
    assert!(e.assert_guard(c2).is_ok());
    assert!(e.check().is_ok());
    let c3 = e.add_guard();
    assert!(e.new_ge(&v(s2), &Lin::from_int(-3), Some(c3)).is_ok());
    assert!(e.assert_guard(c3).is_ok());
    let Err(PropagationError::Conflict(conflict)) = e.check() else { panic!("expected conflict") };
    assert!(conflict.contains(&c0));
    assert!(conflict.contains(&c2));
    assert!(conflict.contains(&c3));
}

#[test]
fn add_retract_readd() {
    let mut e = Engine::new();
    let x = e.add_var();
    let c0 = e.add_guard();
    assert!(e.new_ge(&v(x), &Lin::from_int(5), Some(c0)).is_ok());
    assert!(e.assert_guard(c0).is_ok());
    assert!(e.check().is_ok());
    assert!(e.lb(x) == InfRational::from(Rational::from(5)));
    assert!(e.ub(x) == InfRational::positive_infinity());
    assert!(e.val(x) >= InfRational::from(Rational::from(5)));

    e.retract(c0);
    assert!(e.check().is_ok());
    assert!(e.lb(x) == InfRational::negative_infinity());
    assert!(e.ub(x) == InfRational::positive_infinity());

    assert!(e.assert_guard(c0).is_ok());
    assert!(e.check().is_ok());
    assert!(e.lb(x) == InfRational::from(Rational::from(5)));
    assert!(e.ub(x) == InfRational::positive_infinity());
    assert!(e.val(x) >= InfRational::from(Rational::from(5)));
}

#[test]
fn tightening_bound() {
    let mut e = Engine::new();
    let x = e.add_var();
    let c0 = e.add_guard();
    let c1 = e.add_guard();
    assert!(e.new_le(&v(x), &Lin::from_int(20), Some(c0)).is_ok());
    assert!(e.assert_guard(c0).is_ok());
    assert!(e.new_le(&v(x), &Lin::from_int(10), Some(c1)).is_ok());
    assert!(e.assert_guard(c1).is_ok());
    assert!(e.ub(x) <= InfRational::from(Rational::from(10)));
}

#[test]
fn test_default_trait() {
    let e = Engine::default();
    assert_eq!(e.var_count(), 0);
    assert_eq!(e.guard_count(), 0);
}

#[test]
fn test_lin_lb_with_negative_coefficients() {
    let mut e = Engine::new();
    let x = e.add_var();
    let y = e.add_var();

    // x in [2, 5], y in [3, 7]
    assert!(e.new_ge(&v(x), &Lin::from_int(2), None).is_ok());
    assert!(e.new_le(&v(x), &Lin::from_int(5), None).is_ok());
    assert!(e.new_ge(&v(y), &Lin::from_int(3), None).is_ok());
    assert!(e.new_le(&v(y), &Lin::from_int(7), None).is_ok());

    // 10 - 2*x + 3*y: least 10 - 2*5 + 3*3 = 9
    let lin = Lin::from_int(10).add(&vc(x, -2)).add(&vc(y, 3));
    let lb = e.lin_lb(&lin);
    assert_eq!(lb, InfRational::from(Rational::from(9)));

    // greatest 10 - 2*2 + 3*7 = 27
    let ub = e.lin_ub(&lin);
    assert_eq!(ub, InfRational::from(Rational::from(27)));
}

#[test]
fn test_set_lb_tightening() {
    let mut e = Engine::new();
    let x = e.add_var();
    let c0 = e.add_guard();
    let c1 = e.add_guard();

    assert!(e.new_ge(&v(x), &Lin::from_int(5), Some(c0)).is_ok());
    assert!(e.assert_guard(c0).is_ok());
    assert_eq!(e.lb(x), InfRational::from(Rational::from(5)));

    assert!(e.set_lb(x, InfRational::from(Rational::from(7)), Some(c0)).is_ok());
    assert!(e.assert_guard(c0).is_ok());
    assert_eq!(e.lb(x), InfRational::from(Rational::from(7)));

    assert!(e.set_lb(x, InfRational::from(Rational::from(6)), Some(c1)).is_ok());
    assert!(e.assert_guard(c1).is_ok());
    assert_eq!(e.lb(x), InfRational::from(Rational::from(7)));
}

#[test]
fn test_set_lb_looser_does_not_leave_stale_bound_after_retract() {
    let mut e = Engine::new();
    let x = e.add_var();
    let c0 = e.add_guard();

    assert!(e.new_ge(&v(x), &Lin::from_int(5), Some(c0)).is_ok());
    assert!(e.assert_guard(c0).is_ok());
    assert_eq!(e.lb(x), InfRational::from(Rational::from(5)));

    assert!(e.set_lb(x, InfRational::from(Rational::from(7)), Some(c0)).is_ok());
    assert!(e.assert_guard(c0).is_ok());
    assert_eq!(e.lb(x), InfRational::from(Rational::from(7)));

    assert!(e.set_lb(x, InfRational::from(Rational::from(6)), Some(c0)).is_ok());
    assert!(e.assert_guard(c0).is_ok());
    assert_eq!(e.lb(x), InfRational::from(Rational::from(7)));

    e.retract(c0);
    assert_eq!(e.lb(x), InfRational::negative_infinity());
}

#[test]
fn test_set_ub_tightening() {
    let mut e = Engine::new();
    let x = e.add_var();
    let c0 = e.add_guard();
    let c1 = e.add_guard();

    assert!(e.new_le(&v(x), &Lin::from_int(10), Some(c0)).is_ok());
    assert!(e.assert_guard(c0).is_ok());
    assert_eq!(e.ub(x), InfRational::from(Rational::from(10)));

    assert!(e.set_ub(x, InfRational::from(Rational::from(8)), Some(c0)).is_ok());
    assert!(e.assert_guard(c0).is_ok());
    assert_eq!(e.ub(x), InfRational::from(Rational::from(8)));

    assert!(e.set_ub(x, InfRational::from(Rational::from(9)), Some(c1)).is_ok());
    assert!(e.assert_guard(c1).is_ok());
    assert_eq!(e.ub(x), InfRational::from(Rational::from(8)));
}

#[test]
fn test_set_ub_looser_does_not_leave_stale_bound_after_retract() {
    let mut e = Engine::new();
    let x = e.add_var();
    let c0 = e.add_guard();

    assert!(e.new_le(&v(x), &Lin::from_int(10), Some(c0)).is_ok());
    assert!(e.assert_guard(c0).is_ok());
    assert_eq!(e.ub(x), InfRational::from(Rational::from(10)));

    assert!(e.set_ub(x, InfRational::from(Rational::from(8)), Some(c0)).is_ok());
    assert!(e.assert_guard(c0).is_ok());
    assert_eq!(e.ub(x), InfRational::from(Rational::from(8)));

    assert!(e.set_ub(x, InfRational::from(Rational::from(9)), Some(c0)).is_ok());
    assert!(e.assert_guard(c0).is_ok());
    assert_eq!(e.ub(x), InfRational::from(Rational::from(8)));

    e.retract(c0);
    assert_eq!(e.ub(x), InfRational::positive_infinity());
}

#[test]
fn test_conflict_with_basic_variable() {
    let mut e = Engine::new();
    let x = e.add_var();
    let y = e.add_var();

    // y = x + 5
    assert!(e.new_eq(&v(y), &v(x).add(&Lin::from_int(5)), None).is_ok());

    let c0 = e.add_guard();
    let c1 = e.add_guard();

    // x <= 0
    assert!(e.new_le(&v(x), &Lin::from_int(0), Some(c0)).is_ok());
    assert!(e.assert_guard(c0).is_ok());

    // y >= 10, so x >= 5
    assert!(e.new_ge(&v(y), &Lin::from_int(10), Some(c1)).is_ok());
    assert!(e.assert_guard(c1).is_ok());
    assert!(e.check().is_err());
}

#[test]
fn test_assert_method() {
    let mut e = Engine::new();
    let x = e.add_var();
    let c0 = e.add_guard();

    e.guard_lb(c0, x, InfRational::from(Rational::from(5)));
    e.guard_ub(c0, x, InfRational::from(Rational::from(10)));

    assert!(e.assert_guard(c0).is_ok());
    assert_eq!(e.lb(x), InfRational::from(Rational::from(5)));
    assert_eq!(e.ub(x), InfRational::from(Rational::from(10)));
}

#[test]
fn test_assert_conflicting_constraint() {
    let mut e = Engine::new();
    let x = e.add_var();
    let c0 = e.add_guard();
    let c1 = e.add_guard();

    e.guard_lb(c0, x, InfRational::from(Rational::from(10)));
    assert!(e.assert_guard(c0).is_ok());

    e.guard_ub(c1, x, InfRational::from(Rational::from(5)));
    assert!(e.assert_guard(c1).is_err());

    assert_eq!(e.lb(x), InfRational::from(Rational::from(10)));
    assert_eq!(e.ub(x), InfRational::positive_infinity());
}

#[test]
fn test_pivot_upper_bound_violation() {
    let mut e = Engine::new();
    let x = e.add_var();
    let y = e.add_var();

    // y = 10 - x
    assert!(e.new_eq(&v(y), &Lin::from_int(10).sub(&v(x)), None).is_ok());

    // y <= 5
    assert!(e.new_le(&v(y), &Lin::from_int(5), None).is_ok());
    assert!(e.check().is_ok());

    assert!(e.val(y) <= InfRational::from(Rational::from(5)));
}

#[test]
fn test_multiple_lin_vars() {
    let mut e = Engine::new();
    let x = e.add_var();
    let y = e.add_var();

    let sum = e.add_lin_var(v(x).add(&v(y)));
    let diff = e.add_lin_var(v(x).sub(&v(y)));

    assert!(e.new_le(&v(sum), &Lin::from_int(10), None).is_ok());
    assert!(e.new_ge(&v(diff), &Lin::from_int(2), None).is_ok());
    assert!(e.check().is_ok());
}

#[test]
fn test_new_eq_with_zero_vars() {
    let mut e = Engine::new();
    assert!(e.new_eq(&Lin::from_int(5), &Lin::from_int(5), None).is_ok());
    assert!(e.new_eq(&Lin::from_int(5), &Lin::from_int(3), None).is_err());
}

#[test]
fn test_new_eq_with_one_var() {
    let mut e = Engine::new();
    let x = e.add_var();

    assert!(e.new_eq(&v(x), &Lin::from_int(5), None).is_ok());
    assert_eq!(e.val(x), InfRational::from(Rational::from(5)));
    assert_eq!(e.lb(x), InfRational::from(Rational::from(5)));
    assert_eq!(e.ub(x), InfRational::from(Rational::from(5)));
}

#[test]
fn test_new_eq_with_multiple_vars() {
    let mut e = Engine::new();
    let x = e.add_var();
    let y = e.add_var();

    assert!(e.new_eq(&v(x).add(&v(y)), &Lin::from_int(10), None).is_ok());
    assert!(e.var_count() > 2);
}

#[test]
fn test_new_ge() {
    let mut e = Engine::new();
    let x = e.add_var();
    assert!(e.new_ge(&v(x), &Lin::from_int(5), None).is_ok());
    assert_eq!(e.lb(x), InfRational::from(Rational::from(5)));
}

#[test]
fn test_new_gt() {
    let mut e = Engine::new();
    let x = e.add_var();
    assert!(e.new_gt(&v(x), &Lin::from_int(5), true, None).is_ok());
    assert!(e.lb(x) > InfRational::from(Rational::from(5)));
}

#[test]
fn test_get_conflict_when_no_conflict() {
    let mut e = Engine::new();
    let x = e.add_var();
    assert!(e.new_le(&v(x), &Lin::from_int(10), None).is_ok());
    assert!(e.check().is_ok());
}

#[test]
fn main() {
    let mut engine = Engine::new();
    let x = engine.add_var();
    let y = engine.add_var();

    let g1 = engine.add_guard();
    let g2 = engine.add_guard();

    engine.new_ge(&v(x), &Lin::from_int(5), Some(g1)).ok();
    engine.assert_guard(g1).ok();

    engine.new_le(&v(y), &Lin::from_int(10), Some(g2)).ok();
    engine.assert_guard(g2).ok();

    // Retract the first guard while the second stays asserted.
    engine.retract(g1);

    assert_eq!(engine.lb(x), InfRational::negative_infinity());
    assert_eq!(engine.ub(y), InfRational::from(Rational::from(10)));
}
