use rlox::ast::{Binary, BinaryOp, Expr, Expression, Literal, Ternary, Unary, UnaryOp};
use rlox::errors::{ConditionError, EvaluationError, ParsingError, TokenizeError};
use rlox::number::ArithOp;
use rlox::parser::{evaluate_tokens, Parser};
use rlox::tokenizer::{tokenize, Token, TokenType, Tokenizer};

fn number_bits(text: &str) -> Result<u32, std::num::ParseFloatError> {
    text.parse::<f32>().map(f32::to_bits)
}

fn host(op: ArithOp, a: u32, b: u32) -> u32 {
    let (x, y) = (f32::from_bits(a), f32::from_bits(b));
    let r = match op {
        ArithOp::Add => x + y,
        ArithOp::Sub => x - y,
        ArithOp::Mul => x * y,
        ArithOp::Div => x / y,
    };
    r.to_bits()
}

fn tokens_of(source: &str) -> Vec<Token> {
    let mut tokenizer = Tokenizer::new(source.as_bytes());
    let mut tokens = Vec::new();
    while let Some(token) = tokenizer.next_token(&number_bits) {
        tokens.push(token.unwrap());
    }
    tokens
}

fn parse(source: &str) -> Result<Expr, ParsingError> {
    Parser::new(tokens_of(source)).parse()
}

fn num(x: f32) -> Expr {
    Expr::Literal(Literal::Number(x.to_bits()))
}

fn bin(left: Expr, op: BinaryOp, right: Expr) -> Expr {
    Expr::Binary(Box::new(Binary::new(left, op, right)))
}

#[test]
fn single_literal_parses() {
    assert_eq!(parse("12"), Ok(num(12.0)));
    assert_eq!(parse("nil"), Ok(Expr::Literal(Literal::Nil)));
    assert_eq!(parse("true"), Ok(Expr::Literal(Literal::True)));
    assert_eq!(parse("false"), Ok(Expr::Literal(Literal::False)));
    assert_eq!(
        parse("\"hi\""),
        Ok(Expr::Literal(Literal::String("hi".to_string())))
    );
}

#[test]
fn grouping_parses() {
    assert_eq!(parse("(1)"), Ok(Expr::Grouping(Box::new(num(1.0)))));
    assert_eq!(
        parse("(1 * 2)"),
        Ok(Expr::Grouping(Box::new(bin(num(1.0), BinaryOp::Mul, num(2.0)))))
    );
}

#[test]
fn unterminated_paren_fails() {
    assert_eq!(parse("(1"), Err(ParsingError::UnterminatedParen));
}

#[test]
fn factors_group_to_the_left() {
    assert_eq!(
        parse("8 / 4 * 2"),
        Ok(bin(bin(num(8.0), BinaryOp::Div, num(4.0)), BinaryOp::Mul, num(2.0)))
    );
}

#[test]
fn comparisons_group_to_the_left() {
    assert_eq!(
        parse("1 < 2 >= 3"),
        Ok(bin(
            bin(num(1.0), BinaryOp::Less, num(2.0)),
            BinaryOp::GreaterOrEqual,
            num(3.0)
        ))
    );
    assert_eq!(parse("1 <= 2"), Ok(bin(num(1.0), BinaryOp::LessOrEqual, num(2.0))));
    assert_eq!(parse("1 > 2"), Ok(bin(num(1.0), BinaryOp::Greater, num(2.0))));
}

#[test]
fn sums_never_parse() {
    assert_eq!(parse("1 + 2"), Err(ParsingError::UnfinishedArithmeticExpression));
    assert_eq!(parse("1 - 2"), Err(ParsingError::UnfinishedArithmeticExpression));
    assert_eq!(parse("1 +"), Err(ParsingError::UnfinishedArithmeticExpression));
}

#[test]
fn equalities_never_parse() {
    assert_eq!(parse("1 == 1"), Err(ParsingError::UnfinishedEqualityExpression));
    assert_eq!(parse("1 != 2"), Err(ParsingError::UnfinishedEqualityExpression));
}

#[test]
fn unfinished_operators_fail() {
    assert_eq!(parse("2 *"), Err(ParsingError::UnfinishedArithmeticExpression));
    assert_eq!(parse("2 < "), Err(ParsingError::UnfinishedComparisonExpression));
    // a `<` on the last byte gives no token at all
    assert_eq!(parse("2 <"), Ok(num(2.0)));
}

#[test]
fn unary_operators_parse() {
    assert_eq!(
        parse("!true"),
        Ok(Expr::Unary(Box::new(Unary::new(
            UnaryOp::Not,
            Expr::Literal(Literal::True)
        ))))
    );
    assert_eq!(
        parse("--3"),
        Ok(Expr::Unary(Box::new(Unary::new(
            UnaryOp::Negate,
            Expr::Unary(Box::new(Unary::new(UnaryOp::Negate, num(3.0))))
        ))))
    );
}

#[test]
fn ternary_parses() {
    assert_eq!(
        parse("true ? 1 : 2"),
        Ok(Expr::Ternary(Box::new(Ternary::new(
            Expr::Literal(Literal::True),
            num(1.0),
            num(2.0)
        ))))
    );
    assert_eq!(parse("true ? 1"), Err(ParsingError::InvalidTernaryExpression));
    assert_eq!(parse("true ? : 2"), Err(ParsingError::InvalidTernaryExpression));
}

#[test]
fn unexpected_and_missing_tokens() {
    assert_eq!(parse("foo"), Err(ParsingError::UnexpectedToken));
    assert_eq!(parse(")"), Err(ParsingError::UnexpectedToken));
    assert_eq!(parse(""), Err(ParsingError::OutOfBounds));
    assert_eq!(parse("-"), Err(ParsingError::OutOfBounds));
}

#[test]
fn parse_then_evaluate() {
    let value = parse("(2 * 3) < 7").unwrap().eval(&host);
    assert_eq!(value, Ok(Literal::True));
    let value = parse("\"ab\" * 2").unwrap().eval(&host);
    assert_eq!(value, Ok(Literal::String("abab".to_string())));
    let value = parse("1 < 2 ? \"yes\" : \"no\"").unwrap().eval(&host);
    assert_eq!(
        value,
        Err(EvaluationError::ConditionError(ConditionError::InvalidCondition))
    );
}

#[test]
fn trailing_tokens_are_left_alone() {
    assert_eq!(parse("1 2"), Ok(num(1.0)));
    assert_eq!(parse("(1 2"), Ok(Expr::Grouping(Box::new(num(1.0)))));
}

#[test]
fn tokens_of_a_number_keep_their_lexeme() {
    let tokens = tokens_of("4.5");
    assert_eq!(tokens.len(), 1);
    assert_eq!(tokens[0].token_type, TokenType::Number(4.5f32.to_bits()));
    assert_eq!(tokens[0].lexeme, "4.5");
}

#[test]
fn evaluate_tokens_of_a_source() {
    let tokens = tokenize(b"(6 / 3) * \"ab\"", &number_bits).unwrap();
    assert_eq!(
        evaluate_tokens(tokens, &host),
        Ok(Some(Ok(Literal::String("abab".to_string()))))
    );
    assert_eq!(evaluate_tokens(Vec::new(), &host), Ok(None));
    let tokens = tokenize(b"1 + 1", &number_bits).unwrap();
    assert_eq!(
        evaluate_tokens(tokens, &host),
        Err(ParsingError::UnfinishedArithmeticExpression)
    );
}

#[test]
fn tokenize_stops_at_first_failure() {
    assert!(matches!(
        tokenize(b"1 # 2", &number_bits),
        Err(TokenizeError::UnexpectedCharacter)
    ));
    let tokens = tokenize(b"1 // two\n3", &number_bits).unwrap();
    assert_eq!(tokens.len(), 2);
    assert_eq!(tokens[1].token_type, TokenType::Number(3.0f32.to_bits()));
    assert!(tokenize(b"   ", &number_bits).unwrap().is_empty());
}
