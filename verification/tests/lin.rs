use linarith::{Lin, Rational, VarId};

fn lin(terms: &[(usize, Rational)], k: Rational) -> Lin {
    Lin::new(terms.iter().map(|(v, c)| (VarId(*v), *c)).collect(), k)
}

#[test]
fn test_new_and_display() {
    let l = lin(&[(1, Rational::new(1, 2)), (2, Rational::new(-3, 4))], Rational::from(5));
    let s = l.to_text();
    assert!(s == "1/2*x1 - 3/4*x2 + 5" || s == "-3/4*x2 + 1/2*x1 + 5", "Unexpected display: {}", s);
}

#[test]
fn test_add_lin() {
    let lin1 = lin(&[(1, Rational::from(1))], Rational::from(2));
    let lin2 = lin(&[(1, Rational::from(2)), (2, Rational::from(3))], Rational::from(4));
    let sum = lin1.add(&lin2);
    let expected = lin(&[(1, Rational::from(3)), (2, Rational::from(3))], Rational::from(6));
    assert_eq!(sum, expected);
}

#[test]
fn test_add_rational() {
    let l = lin(&[(1, Rational::from(1))], Rational::from(2));
    let sum = l.add_rat(&Rational::from(3));
    let expected = lin(&[(1, Rational::from(1))], Rational::from(5));
    assert_eq!(sum, expected);
}

#[test]
fn test_sub_lin() {
    let lin1 = lin(&[(1, Rational::from(1))], Rational::from(2));
    let lin2 = lin(&[(1, Rational::from(2)), (2, Rational::from(3))], Rational::from(4));
    let diff = lin1.sub(&lin2);
    let expected = lin(&[(1, Rational::from(-1)), (2, Rational::from(-3))], Rational::from(-2));
    assert_eq!(diff, expected);
}

#[test]
fn test_sub_rational() {
    let l = lin(&[(1, Rational::from(1))], Rational::from(2));
    let diff = l.sub_rat(&Rational::from(3));
    let expected = lin(&[(1, Rational::from(1))], Rational::from(-1));
    assert_eq!(diff, expected);
}

#[test]
fn test_mul_rational() {
    let l = lin(&[(1, Rational::new(1, 2))], Rational::new(3, 4));
    let product = l.mul_rat(&Rational::from(2));
    let expected = lin(&[(1, Rational::from(1))], Rational::new(3, 2));
    assert_eq!(product, expected);
}

#[test]
fn test_div_rational() {
    let l = lin(&[(1, Rational::from(1))], Rational::new(3, 2));
    let quotient = l.div_rat(&Rational::from(2));
    let expected = lin(&[(1, Rational::new(1, 2))], Rational::new(3, 4));
    assert_eq!(quotient, expected);
}

#[test]
fn test_neg() {
    let l = lin(&[(1, Rational::new(1, 2))], Rational::new(-3, 4));
    let neg_lin = l.neg();
    let expected = lin(&[(1, Rational::new(-1, 2))], Rational::new(3, 4));
    assert_eq!(neg_lin, expected);
}

#[test]
fn test_substitute() {
    // 2*x1 + 3*x2 + 5
    let mut lin1 = lin(&[(1, Rational::from(2)), (2, Rational::from(3))], Rational::from(5));
    // x1 = 4*x3 + 1
    let lin_sub = lin(&[(3, Rational::from(4))], Rational::from(1));
    lin1.substitute(VarId(1), &lin_sub);
    // 3*x2 + 8*x3 + 7
    let expected = lin(&[(2, Rational::from(3)), (3, Rational::from(8))], Rational::from(7));
    assert_eq!(lin1, expected);
}

#[test]
fn test_substitute_combine() {
    // 2*x1 + 3*x2
    let mut lin1 = lin(&[(1, Rational::from(2)), (2, Rational::from(3))], Rational::zero());
    // x1 = x2 + 1
    let lin_sub = lin(&[(2, Rational::from(1))], Rational::from(1));
    lin1.substitute(VarId(1), &lin_sub);
    // 5*x2 + 2
    let expected = lin(&[(2, Rational::from(5))], Rational::from(2));
    assert_eq!(lin1, expected);
}

#[test]
fn test_substitute_merge_and_cancel() {
    // x + 2y
    let mut expr = lin(&[(1, Rational::from(1)), (2, Rational::from(2))], Rational::zero());
    // x = -2y + 10
    let sub = lin(&[(2, Rational::from(-2))], Rational::from(10));
    expr.substitute(VarId(1), &sub);
    // y cancels: 10
    assert!(expr.vars.is_empty());
    assert_eq!(expr.known_term, Rational::from(10));
}

#[test]
fn test_display_edge_cases() {
    let lin1 = lin(&[(1, Rational::from(-1))], Rational::zero());
    assert_eq!(lin1.to_text(), "-x1");

    let lin2 = lin(&[(1, Rational::from(2)), (2, Rational::from(-1))], Rational::zero());
    let s = lin2.to_text();
    assert!(s.contains("-x") || s.contains("- x"));

    let lin3 = lin(&[(1, Rational::from(-3))], Rational::zero());
    assert_eq!(lin3.to_text(), "-3*x1");

    let lin4 = lin(&[(1, Rational::from(1)), (2, Rational::from(3))], Rational::zero());
    let s = lin4.to_text();
    assert!(s.contains("+") || s.contains("x1") && s.contains("x2"));

    let lin_pos_one = lin(&[(1, Rational::from(2)), (2, Rational::from(1))], Rational::zero());
    let s = lin_pos_one.to_text();
    assert!(s.contains("+ x") || s.contains("+x"));

    let lin_neg = lin(&[(1, Rational::from(2)), (2, Rational::from(-5))], Rational::zero());
    let s = lin_neg.to_text();
    assert!(s.contains("- 5*x") || s.contains("-5*x"));

    let lin5 = lin(&[], Rational::from(5));
    assert_eq!(lin5.to_text(), "5");

    let lin6 = lin(&[(1, Rational::from(2))], Rational::from(3));
    let s = lin6.to_text();
    assert!(s.contains("+ 3"));

    let lin7 = lin(&[(1, Rational::from(2))], Rational::from(-3));
    let s = lin7.to_text();
    assert!(s.contains("- 3"));

    let lin8 = lin(&[(1, Rational::from(2))], Rational::zero());
    let s = lin8.to_text();
    assert!(!s.contains("+ 0") && !s.contains("- 0"));
}

#[test]
fn test_add_lin_variations() {
    let lin1 = lin(&[(1, Rational::from(1))], Rational::from(2));
    let lin2 = lin(&[(2, Rational::from(3))], Rational::from(4));

    let res1 = lin1.clone().add(&lin2.clone());
    assert_eq!(res1.get(VarId(1)), Some(Rational::from(1)));
    assert_eq!(res1.get(VarId(2)), Some(Rational::from(3)));
    assert_eq!(res1.known_term, Rational::from(6));

    let res2 = (&lin1).add(&lin2.clone());
    assert_eq!(res2.known_term, Rational::from(6));

    let res3 = lin1.clone().add(&lin2);
    assert_eq!(res3.known_term, Rational::from(6));

    let res4 = (&lin1).add(&lin2);
    assert_eq!(res4.known_term, Rational::from(6));
}

#[test]
fn test_add_rational_variations() {
    let l = lin(&[(1, Rational::from(1))], Rational::from(2));
    let rat_val = Rational::from(3);

    let res1 = l.clone().add_rat(&rat_val);
    assert_eq!(res1.known_term, Rational::from(5));

    let res2 = (&l).add_rat(&rat_val);
    assert_eq!(res2.known_term, Rational::from(5));

    let res3 = l.clone().add_rat(&rat_val);
    assert_eq!(res3.known_term, Rational::from(5));

    let res4 = (&l).add_rat(&rat_val);
    assert_eq!(res4.known_term, Rational::from(5));

    // rat + lin
    let res5 = l.clone().add_rat(&rat_val);
    assert_eq!(res5.known_term, Rational::from(5));

    let res6 = (&l).add_rat(&rat_val);
    assert_eq!(res6.known_term, Rational::from(5));

    let res7 = l.clone().add_rat(&rat_val);
    assert_eq!(res7.known_term, Rational::from(5));

    let res8 = (&l).add_rat(&rat_val);
    assert_eq!(res8.known_term, Rational::from(5));
}

#[test]
fn test_sub_lin_variations() {
    let lin1 = lin(&[(1, Rational::from(5))], Rational::from(10));
    let lin2 = lin(&[(1, Rational::from(2))], Rational::from(3));

    let res1 = lin1.clone().sub(&lin2.clone());
    assert_eq!(res1.get(VarId(1)), Some(Rational::from(3)));
    assert_eq!(res1.known_term, Rational::from(7));

    let res2 = (&lin1).sub(&lin2.clone());
    assert_eq!(res2.known_term, Rational::from(7));

    let res3 = lin1.clone().sub(&lin2);
    assert_eq!(res3.known_term, Rational::from(7));

    let res4 = (&lin1).sub(&lin2);
    assert_eq!(res4.known_term, Rational::from(7));
}

#[test]
fn test_sub_rational_variations() {
    let l = lin(&[(1, Rational::from(1))], Rational::from(10));
    let rat_val = Rational::from(3);

    let res1 = l.clone().sub_rat(&rat_val);
    assert_eq!(res1.known_term, Rational::from(7));

    let res2 = (&l).sub_rat(&rat_val);
    assert_eq!(res2.known_term, Rational::from(7));

    let res3 = l.clone().sub_rat(&rat_val);
    assert_eq!(res3.known_term, Rational::from(7));

    let res4 = (&l).sub_rat(&rat_val);
    assert_eq!(res4.known_term, Rational::from(7));

    // rat - lin: the coefficients are negated
    let res5 = l.clone().rsub_rat(&rat_val);
    assert_eq!(res5.get(VarId(1)), Some(Rational::from(-1)));
    assert_eq!(res5.known_term, Rational::from(-7));

    let res6 = (&l).rsub_rat(&rat_val);
    assert_eq!(res6.get(VarId(1)), Some(Rational::from(-1)));
    assert_eq!(res6.known_term, Rational::from(-7));

    let res7 = l.clone().rsub_rat(&rat_val);
    assert_eq!(res7.get(VarId(1)), Some(Rational::from(-1)));
    assert_eq!(res7.known_term, Rational::from(-7));

    let res8 = (&l).rsub_rat(&rat_val);
    assert_eq!(res8.get(VarId(1)), Some(Rational::from(-1)));
    assert_eq!(res8.known_term, Rational::from(-7));
}

#[test]
fn test_mul_rational_variations() {
    let l = lin(&[(1, Rational::from(2))], Rational::from(3));
    let rat_val = Rational::from(4);

    let res1 = l.clone().mul_rat(&rat_val);
    assert_eq!(res1.get(VarId(1)), Some(Rational::from(8)));
    assert_eq!(res1.known_term, Rational::from(12));

    let res2 = (&l).mul_rat(&rat_val);
    assert_eq!(res2.known_term, Rational::from(12));

    let res3 = l.clone().mul_rat(&rat_val);
    assert_eq!(res3.known_term, Rational::from(12));

    let res4 = (&l).mul_rat(&rat_val);
    assert_eq!(res4.known_term, Rational::from(12));
}

#[test]
fn test_div_rational_variations() {
    let l = lin(&[(1, Rational::from(8))], Rational::from(12));
    let rat_val = Rational::from(4);

    let res1 = l.clone().div_rat(&rat_val);
    assert_eq!(res1.get(VarId(1)), Some(Rational::from(2)));
    assert_eq!(res1.known_term, Rational::from(3));

    let res2 = (&l).div_rat(&rat_val);
    assert_eq!(res2.known_term, Rational::from(3));

    let res3 = l.clone().div_rat(&rat_val);
    assert_eq!(res3.known_term, Rational::from(3));

    let res4 = (&l).div_rat(&rat_val);
    assert_eq!(res4.known_term, Rational::from(3));
}

#[test]
fn test_add_assign_variations() {
    let mut lin1 = lin(&[(1, Rational::from(1))], Rational::from(2));
    lin1.add_assign(&lin(&[(2, Rational::from(3))], Rational::from(4)));
    assert_eq!(lin1.known_term, Rational::from(6));

    let mut lin2 = lin(&[(1, Rational::from(1))], Rational::from(2));
    lin2.add_assign(&lin(&[(2, Rational::from(3))], Rational::from(4)));
    assert_eq!(lin2.known_term, Rational::from(6));

    let mut lin3 = lin(&[(1, Rational::from(1))], Rational::from(2));
    lin3 = lin3.add_rat(&Rational::from(5));
    assert_eq!(lin3.known_term, Rational::from(7));

    let mut lin4 = lin(&[(1, Rational::from(1))], Rational::from(2));
    lin4 = lin4.add_rat(&Rational::from(5));
    assert_eq!(lin4.known_term, Rational::from(7));
}

#[test]
fn test_sub_assign_variations() {
    let mut lin1 = lin(&[(1, Rational::from(5))], Rational::from(10));
    lin1.sub_assign(&lin(&[(1, Rational::from(2))], Rational::from(3)));
    assert_eq!(lin1.get(VarId(1)), Some(Rational::from(3)));
    assert_eq!(lin1.known_term, Rational::from(7));

    let mut lin2 = lin(&[(1, Rational::from(5))], Rational::from(10));
    lin2.sub_assign(&lin(&[(1, Rational::from(2))], Rational::from(3)));
    assert_eq!(lin2.known_term, Rational::from(7));

    let mut lin3 = lin(&[(1, Rational::from(1))], Rational::from(10));
    lin3 = lin3.sub_rat(&Rational::from(3));
    assert_eq!(lin3.known_term, Rational::from(7));

    let mut lin4 = lin(&[(1, Rational::from(1))], Rational::from(10));
    lin4 = lin4.sub_rat(&Rational::from(3));
    assert_eq!(lin4.known_term, Rational::from(7));
}

#[test]
fn test_mul_assign_variations() {
    let mut lin1 = lin(&[(1, Rational::from(2))], Rational::from(3));
    lin1.mul_assign(&Rational::from(4));
    assert_eq!(lin1.get(VarId(1)), Some(Rational::from(8)));
    assert_eq!(lin1.known_term, Rational::from(12));

    let mut lin2 = lin(&[(1, Rational::from(2))], Rational::from(3));
    lin2.mul_assign(&Rational::from(4));
    assert_eq!(lin2.known_term, Rational::from(12));
}

#[test]
fn test_div_assign_variations() {
    let mut lin1 = lin(&[(1, Rational::from(8))], Rational::from(12));
    lin1.div_assign(&Rational::from(4));
    assert_eq!(lin1.get(VarId(1)), Some(Rational::from(2)));
    assert_eq!(lin1.known_term, Rational::from(3));

    let mut lin2 = lin(&[(1, Rational::from(8))], Rational::from(12));
    lin2.div_assign(&Rational::from(4));
    assert_eq!(lin2.known_term, Rational::from(3));
}
