use linarith::{inf, inf_i, InfRational, Rational};

#[test]
fn test_new() {
    let r1 = Rational::new(1, 2);
    let r2 = Rational::new(3, 4);
    let ir = inf(r1, r2);
    assert_eq!(ir.rat, r1);
    assert_eq!(ir.inf, r2);
}

#[test]
fn test_equality() {
    let ir1 = inf(Rational::new(1, 2), Rational::new(3, 4));
    let ir2 = inf(Rational::new(2, 4), Rational::new(3, 4));
    assert_eq!(ir1, ir2);

    let ir3 = InfRational::from(Rational::new(1, 2));
    let ra = Rational::new(1, 2);
    assert_eq!(ir3, ra);

    let ir4 = InfRational::from(Rational::from(5));
    assert_eq!(ir4, 5);
}

#[test]
fn test_ord() {
    let ir1 = inf_i(1);
    let ir2 = InfRational::from(Rational::from(100));
    assert!(ir1 < ir2);

    let ir3 = inf_i(-1);
    assert!(ir3 < ir2);
    assert!(ir3 < ir1);

    let ir4 = inf(Rational::from(1), Rational::from(1));
    assert!(ir4 > ir1);
}

#[test]
fn test_ord_with_primitive_and_rational() {
    let pos_inf = inf_i(1);
    let neg_inf = inf_i(-1);
    let zero = 0;
    let rat_ten = Rational::from(10);

    assert!(pos_inf > zero);
    assert!(pos_inf < rat_ten);

    assert!(neg_inf < zero);
    assert!(neg_inf < rat_ten);
}

#[test]
fn test_arithmetic() {
    let a = inf(Rational::from(1), Rational::from(2));
    let b = inf(Rational::from(3), Rational::from(4));

    assert_eq!(a.add(&b), inf(Rational::from(4), Rational::from(6)));
    assert_eq!(b.sub(&a), inf(Rational::from(2), Rational::from(2)));

    let scalar = Rational::from(2);
    assert_eq!(a.mul_rat(&scalar), inf(Rational::from(2), Rational::from(4)));
    assert_eq!(a.div_rat(&scalar), inf(Rational::new(1, 2), Rational::from(1)));
}

#[test]
fn test_ordering() {
    let mut list = vec![
        inf(Rational::new(1, 2), Rational::zero()),
        inf(Rational::new(1, 2), Rational::new(1, 1)),
        inf(Rational::new(1, 2), Rational::new(-1, 1)),
        InfRational::zero(),
        InfRational::positive_infinity(),
        InfRational::negative_infinity(),
        inf(Rational::positive_infinity(), Rational::new(1, 1)),
    ];

    list.sort_by(|a, b| a.partial_cmp(b).unwrap());

    let expected = vec![
        InfRational::negative_infinity(),
        InfRational::zero(),
        inf(Rational::new(1, 2), Rational::new(-1, 1)),
        inf(Rational::new(1, 2), Rational::zero()),
        inf(Rational::new(1, 2), Rational::new(1, 1)),
        InfRational::positive_infinity(),
        inf(Rational::positive_infinity(), Rational::new(1, 1)),
    ];

    assert_eq!(list, expected);
}

#[test]
fn test_from_conversions() {
    let rat_val = Rational::new(3, 4);
    let ir = InfRational::from(rat_val);
    assert_eq!(ir.rat, rat_val);
    assert_eq!(ir.inf, Rational::zero());

    let ir2 = InfRational::from(42);
    assert_eq!(ir2.rat, Rational::from(42));
    assert_eq!(ir2.inf, Rational::zero());

    let ir3: InfRational = Rational::new(1, 2).into();
    assert_eq!(ir3.rat, Rational::new(1, 2));
    assert_eq!(ir3.inf, Rational::zero());

    let ir4: InfRational = 100.into();
    assert_eq!(ir4.rat, Rational::from(100));
    assert_eq!(ir4.inf, Rational::zero());
}

#[test]
fn test_partial_ord_rational() {
    let ir = inf(Rational::from(5), Rational::from(1));
    let rat_five = Rational::from(5);
    let rat_six = Rational::from(6);

    assert!(ir > rat_five);
    assert!(ir < rat_six);

    let ir_exact = InfRational::from(Rational::from(5));
    assert!(ir_exact == rat_five);
}

#[test]
fn test_partial_ord_i64() {
    let ir = inf(Rational::from(5), Rational::from(1));

    assert!(ir > 5);
    assert!(ir < 6);

    let ir_exact = InfRational::from(Rational::from(5));
    assert!(ir_exact == 5);

    let ir_neg = inf(Rational::from(5), Rational::from(-1));
    assert!(ir_neg < 5);
}

#[test]
fn test_add_variations() {
    let a = inf(Rational::from(1), Rational::from(2));
    let b = inf(Rational::from(3), Rational::from(4));

    let res1 = a.add(&b);
    assert_eq!(res1, inf(Rational::from(4), Rational::from(6)));

    let res2 = a.add(&b);
    assert_eq!(res2, inf(Rational::from(4), Rational::from(6)));

    let res3 = (&a).add(&b);
    assert_eq!(res3, inf(Rational::from(4), Rational::from(6)));
}

#[test]
fn test_sub_variations() {
    let a = inf(Rational::from(5), Rational::from(3));
    let b = inf(Rational::from(2), Rational::from(1));

    let res1 = a.sub(&b);
    assert_eq!(res1, inf(Rational::from(3), Rational::from(2)));

    let res2 = (&a).sub(&b);
    assert_eq!(res2, inf(Rational::from(3), Rational::from(2)));

    let res3 = (&a).sub(&b);
    assert_eq!(res3, inf(Rational::from(3), Rational::from(2)));
}

#[test]
fn test_scalar_add_variations() {
    let ir = inf(Rational::from(2), Rational::from(3));
    let rat_val = Rational::from(5);

    let res1 = ir.add_rat(&rat_val);
    assert_eq!(res1, inf(Rational::from(7), Rational::from(3)));

    let res2 = (&ir).add_rat(&rat_val);
    assert_eq!(res2, inf(Rational::from(7), Rational::from(3)));

    let res3 = ir.add_int(10);
    assert_eq!(res3, inf(Rational::from(12), Rational::from(3)));

    let res4 = (&ir).add_int(10);
    assert_eq!(res4, inf(Rational::from(12), Rational::from(3)));
}

#[test]
fn test_scalar_sub_variations() {
    let ir = inf(Rational::from(10), Rational::from(3));
    let rat_val = Rational::from(5);

    let res1 = ir.sub_rat(&rat_val);
    assert_eq!(res1, inf(Rational::from(5), Rational::from(3)));

    let res2 = (&ir).sub_rat(&rat_val);
    assert_eq!(res2, inf(Rational::from(5), Rational::from(3)));

    let res3 = ir.sub_int(3);
    assert_eq!(res3, inf(Rational::from(7), Rational::from(3)));

    let res4 = (&ir).sub_int(3);
    assert_eq!(res4, inf(Rational::from(7), Rational::from(3)));
}

#[test]
fn test_scalar_mul_variations() {
    let ir = inf(Rational::from(2), Rational::from(3));
    let rat_val = Rational::from(4);

    let res1 = ir.mul_rat(&rat_val);
    assert_eq!(res1, inf(Rational::from(8), Rational::from(12)));

    let res2 = (&ir).mul_rat(&rat_val);
    assert_eq!(res2, inf(Rational::from(8), Rational::from(12)));

    let res3 = ir.mul_int(5);
    assert_eq!(res3, inf(Rational::from(10), Rational::from(15)));

    let res4 = (&ir).mul_int(5);
    assert_eq!(res4, inf(Rational::from(10), Rational::from(15)));
}

#[test]
fn test_scalar_div_variations() {
    let ir = inf(Rational::from(8), Rational::from(12));
    let rat_val = Rational::from(4);

    let res1 = ir.div_rat(&rat_val);
    assert_eq!(res1, inf(Rational::from(2), Rational::from(3)));

    let res2 = (&ir).div_rat(&rat_val);
    assert_eq!(res2, inf(Rational::from(2), Rational::from(3)));

    let res3 = ir.div_int(2);
    assert_eq!(res3, inf(Rational::from(4), Rational::from(6)));

    let res4 = (&ir).div_int(2);
    assert_eq!(res4, inf(Rational::from(4), Rational::from(6)));
}

#[test]
fn test_reverse_ops() {
    let ir = inf(Rational::from(2), Rational::from(3));
    let rat_val = Rational::from(5);

    // 5 + (2 + 3ε)
    let res1 = ir.add_rat(&rat_val);
    assert_eq!(res1, inf(Rational::from(7), Rational::from(3)));

    let res2 = (&ir).add_rat(&rat_val);
    assert_eq!(res2, inf(Rational::from(7), Rational::from(3)));

    // 10 + (2 + 3ε)
    let res3 = ir.add_int(10);
    assert_eq!(res3, inf(Rational::from(12), Rational::from(3)));

    let res4 = (&ir).add_int(10);
    assert_eq!(res4, inf(Rational::from(12), Rational::from(3)));

    // 5 - (2 + 3ε) = 3 - 3ε
    let res5 = ir.rsub_rat(&rat_val);
    assert_eq!(res5, inf(Rational::from(3), Rational::from(-3)));

    let res6 = (&ir).rsub_rat(&rat_val);
    assert_eq!(res6, inf(Rational::from(3), Rational::from(-3)));

    // 10 - (2 + 3ε) = 8 - 3ε
    let res7 = ir.rsub_int(10);
    assert_eq!(res7, inf(Rational::from(8), Rational::from(-3)));

    let res8 = (&ir).rsub_int(10);
    assert_eq!(res8, inf(Rational::from(8), Rational::from(-3)));

    // 5 · (2 + 3ε)
    let res9 = ir.mul_rat(&rat_val);
    assert_eq!(res9, inf(Rational::from(10), Rational::from(15)));

    let res10 = (&ir).mul_rat(&rat_val);
    assert_eq!(res10, inf(Rational::from(10), Rational::from(15)));

    let res11 = ir.mul_rat(&rat_val);
    assert_eq!(res11, inf(Rational::from(10), Rational::from(15)));

    let res12 = (&ir).mul_rat(&rat_val);
    assert_eq!(res12, inf(Rational::from(10), Rational::from(15)));

    // 3 · (2 + 3ε)
    let res13 = ir.mul_int(3);
    assert_eq!(res13, inf(Rational::from(6), Rational::from(9)));

    let res14 = (&ir).mul_int(3);
    assert_eq!(res14, inf(Rational::from(6), Rational::from(9)));
}

#[test]
fn test_assign_ops() {
    let mut ir1 = inf(Rational::from(1), Rational::from(2));
    ir1 = ir1.add(&inf(Rational::from(3), Rational::from(4)));
    assert_eq!(ir1, inf(Rational::from(4), Rational::from(6)));

    let mut ir2 = inf(Rational::from(1), Rational::from(2));
    ir2 = ir2.add(&inf(Rational::from(3), Rational::from(4)));
    assert_eq!(ir2, inf(Rational::from(4), Rational::from(6)));

    let mut ir3 = inf(Rational::from(1), Rational::from(2));
    ir3 = ir3.add_rat(&Rational::from(5));
    assert_eq!(ir3, inf(Rational::from(6), Rational::from(2)));

    let mut ir4 = inf(Rational::from(1), Rational::from(2));
    ir4 = ir4.add_int(7);
    assert_eq!(ir4, inf(Rational::from(8), Rational::from(2)));

    let mut ir5 = inf(Rational::from(5), Rational::from(6));
    ir5 = ir5.sub(&inf(Rational::from(1), Rational::from(2)));
    assert_eq!(ir5, inf(Rational::from(4), Rational::from(4)));

    let mut ir6 = inf(Rational::from(5), Rational::from(6));
    ir6 = ir6.sub(&inf(Rational::from(1), Rational::from(2)));
    assert_eq!(ir6, inf(Rational::from(4), Rational::from(4)));

    let mut ir7 = inf(Rational::from(10), Rational::from(3));
    ir7 = ir7.sub_rat(&Rational::from(4));
    assert_eq!(ir7, inf(Rational::from(6), Rational::from(3)));

    let mut ir8 = inf(Rational::from(10), Rational::from(3));
    ir8 = ir8.sub_int(3);
    assert_eq!(ir8, inf(Rational::from(7), Rational::from(3)));

    let mut ir9 = inf(Rational::from(2), Rational::from(3));
    ir9 = ir9.mul_rat(&Rational::from(4));
    assert_eq!(ir9, inf(Rational::from(8), Rational::from(12)));

    let mut ir10 = inf(Rational::from(2), Rational::from(3));
    ir10 = ir10.mul_int(5);
    assert_eq!(ir10, inf(Rational::from(10), Rational::from(15)));

    let mut ir11 = inf(Rational::from(8), Rational::from(12));
    ir11 = ir11.div_rat(&Rational::from(4));
    assert_eq!(ir11, inf(Rational::from(2), Rational::from(3)));

    let mut ir12 = inf(Rational::from(8), Rational::from(12));
    ir12 = ir12.div_int(2);
    assert_eq!(ir12, inf(Rational::from(4), Rational::from(6)));
}

#[test]
fn test_mul_inf_rationals() {
    let mut ir = inf(Rational::from(2), Rational::from(3));
    ir = ir.mul(&inf(Rational::from(4), Rational::from(5)));
    assert_eq!(ir, inf(Rational::from(8), Rational::from(22)));
}

#[test]
fn test_div_inf_rationals() {
    let mut ir = inf(Rational::from(8), Rational::from(22));
    ir = ir.div(&inf(Rational::from(4), Rational::from(5)));
    assert_eq!(ir, inf(Rational::from(2), Rational::from(3)));
}

#[test]
fn test_neg_operator() {
    let ir = inf(Rational::from(5), Rational::from(3));
    let neg = ir.neg();
    assert_eq!(neg, inf(Rational::from(-5), Rational::from(-3)));
}

#[test]
fn test_display_variations() {
    let ir1 = InfRational::from(Rational::from(5));
    assert_eq!(ir1.to_text(), "5");

    let ir2 = inf(Rational::zero(), Rational::from(3));
    assert_eq!(ir2.to_text(), "3ε");

    let ir3 = inf(Rational::from(2), Rational::from(3));
    assert_eq!(ir3.to_text(), "2 + 3ε");

    let ir4 = inf(Rational::from(2), Rational::from(-3));
    assert_eq!(ir4.to_text(), "2 - 3ε");
}

#[test]
fn test_helper_functions() {
    let ir1 = InfRational::from(42);
    assert_eq!(ir1, InfRational::from(42));

    let ir2 = InfRational::from(Rational::new(3, 4));
    assert_eq!(ir2, InfRational::from(Rational::new(3, 4)));

    let ir3 = inf_i(5);
    assert_eq!(ir3.rat, Rational::zero());
    assert_eq!(ir3.inf, Rational::from(5));

    let ir4 = inf(Rational::from(1), Rational::from(2));
    assert_eq!(ir4.rat, Rational::from(1));
    assert_eq!(ir4.inf, Rational::from(2));
}

#[test]
fn product_divided_by_its_factor_gives_back_the_value() {
    let x = inf(Rational::new(3, 4), Rational::new(-2, 5));
    let y = inf(Rational::new(-7, 3), Rational::new(1, 2));
    let p = x.mul(&y);
    assert_eq!(p, inf(Rational::new(-7, 4), Rational::new(3, 8).add(&Rational::new(14, 15))));
    assert_eq!(p.div(&y), x);
}
