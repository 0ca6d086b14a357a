use hextuner::eval::{eval, eval_reverse, parse};
use hextuner::rational::Rational;
use hextuner::token::{tokenize, ExprError, Ops, Tokens};

fn as_f64(r: &Rational) -> f64 {
    r.numer() as f64 / r.denom() as f64
}

fn same(r: &Rational, num: i128, den: i128) -> bool {
    r.numer() * den == num * r.denom()
}

#[test]
fn round_trip_example() {
    let v = eval("X/4-40", 128).unwrap();
    assert!(same(&v, -8, 1));
    let back = eval_reverse("X/4-40", v).unwrap();
    assert_eq!(back.round(), 128);
}

#[test]
fn round_trip_many_expressions() {
    let exprs = ["X*0.75-48", "(X-128)/2", "X/10", "100-X", "1000/(X+1)", "-X+5", "2*X+3", "X*0.0234375"];
    for e in exprs.iter() {
        for v in [0u32, 1, 7, 100, 255, 4000].iter() {
            let y = eval(e, *v).unwrap();
            let back = eval_reverse(e, y).unwrap();
            assert_eq!(back.round(), *v as i128, "expression {}", e);
        }
    }
}

#[test]
fn evaluates_with_precedence() {
    assert!(same(&eval("2+3*X", 4).unwrap(), 14, 1));
    assert!(same(&eval("(2+3)*X", 4).unwrap(), 20, 1));
    assert!(same(&eval("[X+2]*3", 1).unwrap(), 9, 1));
    assert!(same(&eval("10-2-3", 0).unwrap(), 5, 1));
    assert!(same(&eval("X/2/2", 8).unwrap(), 2, 1));
}

#[test]
fn evaluates_decimal_literals() {
    let v = eval("X*0.1", 25).unwrap();
    assert!(same(&v, 25, 10));
    assert!((as_f64(&v) - 2.5).abs() < 1e-12);
    assert!(same(&eval(".5*X", 3).unwrap(), 3, 2));
}

#[test]
fn leading_number_then_minus_subtracts() {
    assert!(same(&eval("3-X", 2).unwrap(), 1, 1));
    assert!(same(&eval("-3+X", 2).unwrap(), -1, 1));
}

#[test]
fn negated_variable() {
    assert!(same(&eval("-X", 5).unwrap(), -5, 1));
    assert!(same(&eval("4*-X", 5).unwrap(), -20, 1));
}

#[test]
fn variable_letter_case_insensitive() {
    assert!(same(&eval("x*2+X", 3).unwrap(), 9, 1));
    assert!(same(&eval("A*2", 3).unwrap(), 6, 1));
}

#[test]
fn multiple_letters_rejected() {
    assert_eq!(eval("X+Y", 1).unwrap_err(), ExprError::MultipleVariables);
}

#[test]
fn invert_multi_occurrence_fails() {
    let r = eval_reverse("X+X", Rational::from_int(10));
    assert_eq!(r.unwrap_err(), ExprError::MultipleOccurrences);
    let r = eval_reverse("X*2-X", Rational::from_int(10));
    assert_eq!(r.unwrap_err(), ExprError::MultipleOccurrences);
}

#[test]
fn invert_without_variable_fails() {
    assert_eq!(eval_reverse("4+5", Rational::from_int(1)).unwrap_err(), ExprError::NoVariable);
}

#[test]
fn invert_solves_each_side() {
    let r = eval_reverse("100-X", Rational::from_int(30)).unwrap();
    assert!(same(&r, 70, 1));
    let r = eval_reverse("100/X", Rational::from_int(4)).unwrap();
    assert!(same(&r, 25, 1));
    let r = eval_reverse("X/4-40", Rational::from_int(-8)).unwrap();
    assert!(same(&r, 128, 1));
}

#[test]
fn invert_by_zero_factor_fails() {
    assert_eq!(eval_reverse("X*0", Rational::from_int(3)).unwrap_err(), ExprError::DivisionByZero);
    assert_eq!(eval_reverse("100/X", Rational::from_int(0)).unwrap_err(), ExprError::DivisionByZero);
}

#[test]
fn division_by_zero_fails_forward() {
    assert_eq!(eval("X/0", 3).unwrap_err(), ExprError::DivisionByZero);
    assert_eq!(eval("1/X", 0).unwrap_err(), ExprError::DivisionByZero);
}

#[test]
fn unbalanced_brackets_fail() {
    assert_eq!(eval("(X+1", 1).unwrap_err(), ExprError::UnbalancedBrackets);
    assert_eq!(eval("X+1)", 1).unwrap_err(), ExprError::UnbalancedBrackets);
}

#[test]
fn unknown_token_fails() {
    assert_eq!(eval("X^2", 1).unwrap_err(), ExprError::UnexpectedChar('^'));
}

#[test]
fn malformed_expressions_fail() {
    assert_eq!(eval("X+", 1).unwrap_err(), ExprError::Malformed);
    assert_eq!(eval("", 1).unwrap_err(), ExprError::Malformed);
    assert_eq!(eval("1.2.3*X", 1).unwrap_err(), ExprError::BadNumber);
}

#[test]
fn overlong_literal_overflows() {
    let long = "1234567890123456789012345678901234567890*X";
    assert_eq!(eval(long, 1).unwrap_err(), ExprError::Overflow);
}

#[test]
fn tokens_carry_negation() {
    let t = tokenize("-X*(2-3)").unwrap();
    assert_eq!(t.len(), 7);
    assert_eq!(t[0], Tokens::Var('X', true));
    assert_eq!(t[1], Tokens::Op(Ops::Multiply));
    assert_eq!(t[2], Tokens::OpenBracket);
    assert_eq!(t[4], Tokens::Op(Ops::Subtract));
    assert_eq!(t[6], Tokens::CloseBracket);
}

#[test]
fn precedence_values() {
    assert_eq!(Ops::Add.precedence(), 2);
    assert_eq!(Ops::Subtract.precedence(), 2);
    assert_eq!(Ops::Multiply.precedence(), 3);
    assert_eq!(Ops::Divide.precedence(), 3);
    assert_eq!(Ops::OpenBracket.precedence(), 0);
}

#[test]
fn parse_builds_one_tree() {
    let t = parse("X*2+1").unwrap();
    assert!(t.has_var());
    assert!(!parse("2+1").unwrap().has_var());
}

#[test]
fn rational_rounding_halves_away_from_zero() {
    assert_eq!(Rational::new(5, 2).unwrap().round(), 3);
    assert_eq!(Rational::new(-5, 2).unwrap().round(), -3);
    assert_eq!(Rational::new(7, 3).unwrap().round(), 2);
    assert_eq!(Rational::new(-7, 3).unwrap().round(), -2);
    assert!(Rational::new(1, 0).is_none());
}
