use rlox::errors::{
    ArithmeticError, ConditionError, EvaluationError, ParsingError, TokenizeError,
    UnaryConvertionError,
};

#[test]
fn arithmetic_messages() {
    assert_eq!(
        ArithmeticError::InvalidOperandsTypes.message(),
        "invalid operands types provided to arithmetic expression"
    );
    assert_eq!(ArithmeticError::ZeroDivision.message(), "cannot divide by zero");
}

#[test]
fn evaluation_messages_carry_their_cause() {
    assert_eq!(
        EvaluationError::ArithmeticError(ArithmeticError::ZeroDivision).message(),
        "arithmetic evaluation failed: cannot divide by zero"
    );
    assert_eq!(
        EvaluationError::ConditionError(ConditionError::InvalidCondition).message(),
        "condition evaluation failed: invalid condition"
    );
    assert_eq!(
        EvaluationError::UnaryConvertionError(UnaryConvertionError::InvalidRightHandType)
            .message(),
        "unary convertion failed: invalid right hand type"
    );
}

#[test]
fn evaluation_errors_convert_from_causes() {
    assert_eq!(
        EvaluationError::from(ConditionError::InvalidCondition),
        EvaluationError::ConditionError(ConditionError::InvalidCondition)
    );
    assert_eq!(
        EvaluationError::from(ArithmeticError::ZeroDivision),
        EvaluationError::ArithmeticError(ArithmeticError::ZeroDivision)
    );
    assert_eq!(
        EvaluationError::from(UnaryConvertionError::InvalidRightHandType),
        EvaluationError::UnaryConvertionError(UnaryConvertionError::InvalidRightHandType)
    );
}

#[test]
fn tokenize_errors_convert_from_causes() {
    let utf8 = std::str::from_utf8(b"\xff").unwrap_err();
    let error = TokenizeError::from(utf8);
    assert_eq!(
        error.message(),
        format!("failed to convert datatype: failed to parse string: {utf8}")
    );
    let float = "x".parse::<f32>().unwrap_err();
    let error = TokenizeError::from(float.clone());
    assert_eq!(
        error.message(),
        format!("failed to convert datatype: failed to parse number: {float}")
    );
}

#[test]
fn parsing_messages() {
    let cases = [
        (ParsingError::OutOfBounds, "out of tokens vector bound"),
        (ParsingError::UnexpectedToken, "unexpected paren"),
        (ParsingError::UnterminatedParen, "unterminated paren"),
        (ParsingError::InvalidTernaryExpression, "invalid ternary expression"),
        (
            ParsingError::UnfinishedArithmeticExpression,
            "unfinished arithmetic expression",
        ),
        (
            ParsingError::UnfinishedComparisonExpression,
            "unfinished comparison expression",
        ),
        (
            ParsingError::UnfinishedEqualityExpression,
            "unfinished equality expression",
        ),
    ];
    for (error, text) in cases {
        assert_eq!(error.message(), text);
    }
}

#[test]
fn unary_and_condition_messages() {
    assert_eq!(
        UnaryConvertionError::InvalidRightHandType.message(),
        "invalid right hand type"
    );
    assert_eq!(ConditionError::InvalidCondition.message(), "invalid condition");
}
