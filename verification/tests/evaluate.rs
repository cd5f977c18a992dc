use rlox::ast::{Binary, BinaryOp, Expr, Expression, Literal, Ternary, Unary, UnaryOp};
use rlox::errors::{ArithmeticError, ConditionError, EvaluationError, UnaryConvertionError};
use rlox::number::ArithOp;

fn host(op: ArithOp, a: u32, b: u32) -> u32 {
    let (x, y) = (f32::from_bits(a), f32::from_bits(b));
    let r = match op {
        ArithOp::Add => x + y,
        ArithOp::Sub => x - y,
        ArithOp::Mul => x * y,
        ArithOp::Div => x / y,
    };
    r.to_bits()
}

fn num(x: f32) -> Expr {
    Expr::Literal(Literal::Number(x.to_bits()))
}

fn text(s: &str) -> Expr {
    Expr::Literal(Literal::String(s.to_string()))
}

fn boolean(b: bool) -> Expr {
    Expr::Literal(if b { Literal::True } else { Literal::False })
}

fn nil() -> Expr {
    Expr::Literal(Literal::Nil)
}

fn bin(left: Expr, op: BinaryOp, right: Expr) -> Expr {
    Expr::Binary(Box::new(Binary::new(left, op, right)))
}

fn unary(op: UnaryOp, right: Expr) -> Expr {
    Expr::Unary(Box::new(Unary::new(op, right)))
}

fn ternary(condition: Expr, success: Expr, failure: Expr) -> Expr {
    Expr::Ternary(Box::new(Ternary::new(condition, success, failure)))
}

fn eval(e: Expr) -> Result<Literal, EvaluationError> {
    e.eval(&host)
}

fn number_of(r: Result<Literal, EvaluationError>) -> f32 {
    match r {
        Ok(Literal::Number(bits)) => f32::from_bits(bits),
        other => panic!("not a number: {other:?}"),
    }
}

fn text_of(r: Result<Literal, EvaluationError>) -> String {
    match r {
        Ok(Literal::String(s)) => s,
        other => panic!("not a string: {other:?}"),
    }
}

#[test]
fn arithmetic_on_numbers() {
    assert_eq!(number_of(eval(bin(num(1.0), BinaryOp::Add, num(2.0)))), 3.0);
    assert_eq!(number_of(eval(bin(num(7.0), BinaryOp::Sub, num(10.0)))), -3.0);
    assert_eq!(number_of(eval(bin(num(6.0), BinaryOp::Mul, num(7.0)))), 42.0);
    assert_eq!(number_of(eval(bin(num(1.0), BinaryOp::Div, num(4.0)))), 0.25);
    assert_eq!(
        number_of(eval(bin(num(0.1), BinaryOp::Add, num(0.2)))),
        0.1f32 + 0.2f32
    );
}

#[test]
fn strings_join() {
    assert_eq!(text_of(eval(bin(text("ab"), BinaryOp::Add, text("cd")))), "abcd");
    assert_eq!(text_of(eval(bin(text(""), BinaryOp::Add, text("")))), "");
}

#[test]
fn string_times_number_repeats() {
    assert_eq!(text_of(eval(bin(text("ab"), BinaryOp::Mul, num(3.0)))), "ababab");
    assert_eq!(text_of(eval(bin(num(2.9), BinaryOp::Mul, text("x")))), "xx");
    assert_eq!(text_of(eval(bin(text("x"), BinaryOp::Mul, num(-1.0)))), "");
    assert_eq!(text_of(eval(bin(text("x"), BinaryOp::Mul, num(f32::NAN)))), "");
    assert_eq!(text_of(eval(bin(text("é"), BinaryOp::Mul, num(2.0)))), "éé");
}

#[test]
fn division_by_either_zero_fails() {
    let expected = Err(EvaluationError::ArithmeticError(ArithmeticError::ZeroDivision));
    assert_eq!(eval(bin(num(1.0), BinaryOp::Div, num(0.0))), expected);
    assert_eq!(eval(bin(num(1.0), BinaryOp::Div, num(-0.0))), expected);
}

#[test]
fn invalid_operand_types_fail() {
    let expected = Err(EvaluationError::ArithmeticError(
        ArithmeticError::InvalidOperandsTypes,
    ));
    assert_eq!(eval(bin(boolean(true), BinaryOp::Add, num(1.0))), expected);
    assert_eq!(eval(bin(text("a"), BinaryOp::Sub, text("b"))), expected);
    assert_eq!(eval(bin(text("a"), BinaryOp::Mul, text("b"))), expected);
    assert_eq!(eval(bin(nil(), BinaryOp::Div, num(1.0))), expected);
    assert_eq!(eval(bin(text("a"), BinaryOp::Add, num(1.0))), expected);
}

#[test]
fn unary_operators() {
    assert_eq!(number_of(eval(unary(UnaryOp::Negate, num(5.0)))), -5.0);
    assert_eq!(eval(unary(UnaryOp::Not, boolean(true))), Ok(Literal::False));
    assert_eq!(eval(unary(UnaryOp::Not, boolean(false))), Ok(Literal::True));
    let expected = Err(EvaluationError::UnaryConvertionError(
        UnaryConvertionError::InvalidRightHandType,
    ));
    assert_eq!(eval(unary(UnaryOp::Not, nil())), expected);
    assert_eq!(eval(unary(UnaryOp::Not, num(1.0))), expected);
    assert_eq!(eval(unary(UnaryOp::Negate, text("a"))), expected);
}

#[test]
fn ternary_selects_branch() {
    assert_eq!(number_of(eval(ternary(boolean(true), num(1.0), num(2.0)))), 1.0);
    assert_eq!(number_of(eval(ternary(boolean(false), num(1.0), num(2.0)))), 2.0);
    assert_eq!(
        eval(ternary(num(0.0), num(1.0), num(2.0))),
        Err(EvaluationError::ConditionError(ConditionError::InvalidCondition))
    );
    // the branch that is not selected is not evaluated
    assert_eq!(
        number_of(eval(ternary(
            boolean(true),
            num(1.0),
            bin(num(1.0), BinaryOp::Div, num(0.0))
        ))),
        1.0
    );
}

#[test]
fn grouping_is_transparent() {
    let inner = bin(num(2.0), BinaryOp::Mul, num(3.0));
    assert_eq!(number_of(eval(Expr::Grouping(Box::new(inner)))), 6.0);
}

#[test]
fn left_failure_comes_first() {
    let e = bin(
        bin(boolean(true), BinaryOp::Add, num(1.0)),
        BinaryOp::Add,
        bin(num(1.0), BinaryOp::Div, num(0.0)),
    );
    assert_eq!(
        eval(e),
        Err(EvaluationError::ArithmeticError(
            ArithmeticError::InvalidOperandsTypes
        ))
    );
}

#[derive(Debug, PartialEq, PartialOrd)]
enum Reference {
    Nil,
    True,
    False,
    Number(f32),
    String(String),
}

fn values() -> Vec<(Reference, fn() -> Expr)> {
    vec![
        (Reference::Nil, || nil()),
        (Reference::True, || boolean(true)),
        (Reference::False, || boolean(false)),
        (Reference::Number(1.0), || num(1.0)),
        (Reference::Number(-2.5), || num(-2.5)),
        (Reference::Number(0.0), || num(0.0)),
        (Reference::Number(-0.0), || num(-0.0)),
        (Reference::Number(f32::NAN), || num(f32::NAN)),
        (Reference::Number(f32::INFINITY), || num(f32::INFINITY)),
        (Reference::String("".to_string()), || text("")),
        (Reference::String("a".to_string()), || text("a")),
        (Reference::String("ab".to_string()), || text("ab")),
        (Reference::String("b".to_string()), || text("b")),
        (Reference::String("é".to_string()), || text("é")),
        (Reference::String("z".to_string()), || text("z")),
    ]
}

#[test]
fn comparisons_follow_the_derived_order() {
    for (x, make_x) in values() {
        for (y, make_y) in values() {
            let cases = [
                (BinaryOp::Equal, x == y),
                (BinaryOp::NotEqual, x != y),
                (BinaryOp::Less, x < y),
                (BinaryOp::LessOrEqual, x <= y),
                (BinaryOp::Greater, x > y),
                (BinaryOp::GreaterOrEqual, x >= y),
            ];
            for (op, expected) in cases {
                let got = eval(bin(make_x(), op, make_y()));
                let want = if expected { Literal::True } else { Literal::False };
                assert_eq!(got, Ok(want), "{x:?} {op:?} {y:?}");
            }
        }
    }
}

#[test]
fn literal_operators_follow_the_derived_order() {
    assert!(Literal::Nil < Literal::True);
    assert!(Literal::False < Literal::Number(0));
    assert!(Literal::Number(1.0f32.to_bits()) < Literal::String(String::new()));
    assert!(Literal::String("a".to_string()) < Literal::String("b".to_string()));
    assert!(Literal::Number(0.0f32.to_bits()) == Literal::Number((-0.0f32).to_bits()));
    assert!(Literal::Number(f32::NAN.to_bits()) != Literal::Number(f32::NAN.to_bits()));
}

#[test]
fn double_negations_give_value_back() {
    assert_eq!(
        eval(unary(UnaryOp::Not, unary(UnaryOp::Not, boolean(true)))),
        Ok(Literal::True)
    );
    assert_eq!(
        number_of(eval(unary(UnaryOp::Negate, unary(UnaryOp::Negate, num(4.5))))),
        4.5
    );
}

#[test]
fn comparison_converse_holds() {
    assert_eq!(
        eval(bin(num(1.0), BinaryOp::Less, num(2.0))),
        eval(bin(num(2.0), BinaryOp::Greater, num(1.0)))
    );
    assert_eq!(
        eval(bin(text("b"), BinaryOp::LessOrEqual, text("a"))),
        eval(bin(text("a"), BinaryOp::GreaterOrEqual, text("b")))
    );
}

#[test]
fn join_is_associative() {
    let left = eval(bin(bin(text("a"), BinaryOp::Add, text("b")), BinaryOp::Add, text("c")));
    let right = eval(bin(text("a"), BinaryOp::Add, bin(text("b"), BinaryOp::Add, text("c"))));
    assert_eq!(left, right);
    assert_eq!(text_of(left), "abc");
}

#[test]
fn expression_equals_itself_unless_nan() {
    assert_eq!(eval(bin(text("x"), BinaryOp::Equal, text("x"))), Ok(Literal::True));
    assert_eq!(eval(bin(num(f32::NAN), BinaryOp::Equal, num(f32::NAN))), Ok(Literal::False));
}

#[test]
fn equality_and_inequality_are_opposite() {
    assert_eq!(eval(bin(num(1.0), BinaryOp::Equal, num(2.0))), Ok(Literal::False));
    assert_eq!(eval(bin(num(1.0), BinaryOp::NotEqual, num(2.0))), Ok(Literal::True));
}

#[test]
fn empty_string_times_huge_count_is_empty() {
    assert_eq!(text_of(eval(bin(text(""), BinaryOp::Mul, num(1e30)))), "");
    assert_eq!(text_of(eval(bin(num(1e30), BinaryOp::Mul, text("")))), "");
}

#[test]
fn comparison_of_different_types_never_fails() {
    assert!(matches!(eval(bin(nil(), BinaryOp::Equal, boolean(false))), Ok(Literal::False)));
    assert!(matches!(eval(bin(nil(), BinaryOp::NotEqual, boolean(false))), Ok(Literal::True)));
    assert!(matches!(eval(bin(nil(), BinaryOp::Less, num(1.0))), Ok(Literal::True)));
    assert!(matches!(eval(bin(text("a"), BinaryOp::Greater, num(1.0))), Ok(Literal::True)));
}

#[test]
fn evaluation_is_repeatable() {
    let build = || {
        bin(
            bin(num(1.5), BinaryOp::Mul, num(4.0)),
            BinaryOp::Sub,
            ternary(bin(text("a"), BinaryOp::Less, text("b")), num(0.5), nil()),
        )
    };
    let first = number_of(eval(build()));
    let second = number_of(eval(build()));
    assert_eq!(first, 5.5);
    assert_eq!(first.to_bits(), second.to_bits());
}
