//! Error types of the tokenizer, the parser and the evaluator, with the
//! messages that describe them.

use vstd::prelude::*;

verus! {

/// `std::str::Utf8Error`, carried by a failed conversion of a lexeme.
#[verifier::external_type_specification]
#[verifier::external_body]
pub struct ExUtf8Error(std::str::Utf8Error);

/// `std::num::ParseFloatError`, carried by a failed conversion of a number lexeme.
#[verifier::external_type_specification]
#[verifier::external_body]
pub struct ExParseFloatError(std::num::ParseFloatError);

/// Failure of the evaluation of an expression.
#[derive(Debug, Clone, Copy, PartialEq, Eq)]
pub enum EvaluationError {
    UnaryConvertionError(UnaryConvertionError),
    ArithmeticError(ArithmeticError),
    ConditionError(ConditionError),
}

/// Failure of a binary arithmetic operator.
#[derive(Debug, Clone, Copy, PartialEq, Eq)]
pub enum ArithmeticError {
    InvalidOperandsTypes,
    ZeroDivision,
}

/// Failure of a unary operator.
#[derive(Debug, Clone, Copy, PartialEq, Eq)]
pub enum UnaryConvertionError {
    InvalidRightHandType,
}

/// Failure of a condition (a ternary whose condition is not a boolean).
#[derive(Debug, Clone, Copy, PartialEq, Eq)]
pub enum ConditionError {
    InvalidCondition,
}

/// Failure of the parser.
#[derive(Debug, Clone, Copy, PartialEq, Eq)]
pub enum ParsingError {
    OutOfBounds,
    UnexpectedToken,
    UnterminatedParen,
    InvalidTernaryExpression,
    UnfinishedArithmeticExpression,
    UnfinishedComparisonExpression,
    UnfinishedEqualityExpression,
}

/// Failure to turn the bytes of a lexeme into a value.
#[derive(Debug)]
pub enum ConvertionError {
    StringParseError(std::str::Utf8Error),
    NumberParseError(std::num::ParseFloatError),
}

/// Failure of the tokenizer.
#[derive(Debug)]
pub enum TokenizeError {
    UnexpectedCharacter,
    UnterminatedString,
    ConvertionError(ConvertionError),
}

/// The std `Display` text of a `Utf8Error`, a function of the error alone.
pub uninterp spec fn utf8_error_display(error: std::str::Utf8Error) -> Seq<char>;

/// The std `Display` text of a `ParseFloatError`, a function of the error
/// alone.
pub uninterp spec fn parse_float_error_display(error: std::num::ParseFloatError) -> Seq<char>;

/// `<Utf8Error as Display>::fmt`, through `format!`. Claimed: the text is
/// `utf8_error_display` of the error; what that text is, std's documentation
/// does not say.
#[verifier::external_body]
fn utf8_error_text(error: &std::str::Utf8Error) -> (text: String)
    ensures
        text@ == utf8_error_display(*error),
{
    format!("{}", error)
}

/// `<ParseFloatError as Display>::fmt`, through `format!`. Claimed: the text
/// is `parse_float_error_display` of the error; what that text is, std's
/// documentation does not say.
#[verifier::external_body]
fn parse_float_error_text(error: &std::num::ParseFloatError) -> (text: String)
    ensures
        text@ == parse_float_error_display(*error),
{
    format!("{}", error)
}

/// The message of a conversion failure: what failed to convert, then std's
/// text of the cause.
pub open spec fn convertion_message(e: ConvertionError) -> Seq<char> {
    match e {
        ConvertionError::NumberParseError(inner) => "failed to parse number: "@
            + parse_float_error_display(inner),
        ConvertionError::StringParseError(inner) => "failed to parse string: "@
            + utf8_error_display(inner),
    }
}

/// The message of a tokenizer failure; a conversion failure carries the
/// message of its cause.
pub open spec fn tokenize_message(e: TokenizeError) -> Seq<char> {
    match e {
        TokenizeError::UnexpectedCharacter => "unexpected character"@,
        TokenizeError::UnterminatedString => "unterminated string"@,
        TokenizeError::ConvertionError(inner) => "failed to convert datatype: "@
            + convertion_message(inner),
    }
}

/// The message of a unary operator failure.
pub open spec fn unary_convertion_message(e: UnaryConvertionError) -> Seq<char> {
    match e {
        UnaryConvertionError::InvalidRightHandType => "invalid right hand type"@,
    }
}

/// The message of an arithmetic failure.
pub open spec fn arithmetic_message(e: ArithmeticError) -> Seq<char> {
    match e {
        ArithmeticError::InvalidOperandsTypes => "invalid operands types provided to arithmetic expression"@,
        ArithmeticError::ZeroDivision => "cannot divide by zero"@,
    }
}

/// The message of a condition failure.
pub open spec fn condition_message(e: ConditionError) -> Seq<char> {
    match e {
        ConditionError::InvalidCondition => "invalid condition"@,
    }
}

/// The message of an evaluation failure: a prefix naming the stage, then the
/// message of the inner failure.
pub open spec fn evaluation_message(e: EvaluationError) -> Seq<char> {
    match e {
        EvaluationError::ArithmeticError(inner) => "arithmetic evaluation failed: "@
            + arithmetic_message(inner),
        EvaluationError::ConditionError(inner) => "condition evaluation failed: "@
            + condition_message(inner),
        EvaluationError::UnaryConvertionError(inner) => "unary convertion failed: "@
            + unary_convertion_message(inner),
    }
}

/// The message of a parser failure.
pub open spec fn parsing_message(e: ParsingError) -> Seq<char> {
    match e {
        ParsingError::UnfinishedComparisonExpression => "unfinished comparison expression"@,
        ParsingError::UnfinishedEqualityExpression => "unfinished equality expression"@,
        ParsingError::UnfinishedArithmeticExpression => "unfinished arithmetic expression"@,
        ParsingError::UnterminatedParen => "unterminated paren"@,
        ParsingError::UnexpectedToken => "unexpected paren"@,
        ParsingError::OutOfBounds => "out of tokens vector bound"@,
        ParsingError::InvalidTernaryExpression => "invalid ternary expression"@,
    }
}

impl UnaryConvertionError {
    /// The text that describes this failure.
    pub fn message(&self) -> (text: String)
        ensures
            text@ == unary_convertion_message(*self),
    {
        match self {
            UnaryConvertionError::InvalidRightHandType => "invalid right hand type".to_owned(),
        }
    }
}

impl ArithmeticError {
    /// The text that describes this failure.
    pub fn message(&self) -> (text: String)
        ensures
            text@ == arithmetic_message(*self),
    {
        match self {
            ArithmeticError::InvalidOperandsTypes => {
                "invalid operands types provided to arithmetic expression".to_owned()
            },
            ArithmeticError::ZeroDivision => "cannot divide by zero".to_owned(),
        }
    }
}

impl ConditionError {
    /// The text that describes this failure.
    pub fn message(&self) -> (text: String)
        ensures
            text@ == condition_message(*self),
    {
        match self {
            ConditionError::InvalidCondition => "invalid condition".to_owned(),
        }
    }
}

impl EvaluationError {
    /// The text that describes this failure, with the text of its cause.
    pub fn message(&self) -> (text: String)
        ensures
            text@ == evaluation_message(*self),
    {
        match self {
            EvaluationError::ArithmeticError(error) => {
                let inner = error.message();
                "arithmetic evaluation failed: ".to_owned().concat(inner.as_str())
            },
            EvaluationError::ConditionError(error) => {
                let inner = error.message();
                "condition evaluation failed: ".to_owned().concat(inner.as_str())
            },
            EvaluationError::UnaryConvertionError(error) => {
                let inner = error.message();
                "unary convertion failed: ".to_owned().concat(inner.as_str())
            },
        }
    }
}

impl ParsingError {
    /// The text that describes this failure.
    pub fn message(&self) -> (text: String)
        ensures
            text@ == parsing_message(*self),
    {
        match self {
            ParsingError::UnfinishedComparisonExpression => {
                "unfinished comparison expression".to_owned()
            },
            ParsingError::UnfinishedEqualityExpression => "unfinished equality expression".to_owned(),
            ParsingError::UnfinishedArithmeticExpression => {
                "unfinished arithmetic expression".to_owned()
            },
            ParsingError::UnterminatedParen => "unterminated paren".to_owned(),
            ParsingError::UnexpectedToken => "unexpected paren".to_owned(),
            ParsingError::OutOfBounds => "out of tokens vector bound".to_owned(),
            ParsingError::InvalidTernaryExpression => "invalid ternary expression".to_owned(),
        }
    }
}

impl ConvertionError {
    /// The text that describes this failure: a prefix naming what failed to
    /// convert, then std's text of the inner error.
    pub fn message(&self) -> (text: String)
        ensures
            text@ == convertion_message(*self),
    {
        match self {
            ConvertionError::NumberParseError(error) => {
                let inner = parse_float_error_text(error);
                "failed to parse number: ".to_owned().concat(inner.as_str())
            },
            ConvertionError::StringParseError(error) => {
                let inner = utf8_error_text(error);
                "failed to parse string: ".to_owned().concat(inner.as_str())
            },
        }
    }
}

impl TokenizeError {
    /// The text that describes this failure; a conversion failure carries the
    /// text of its cause.
    pub fn message(&self) -> (text: String)
        ensures
            text@ == tokenize_message(*self),
    {
        match self {
            TokenizeError::UnexpectedCharacter => "unexpected character".to_owned(),
            TokenizeError::UnterminatedString => "unterminated string".to_owned(),
            TokenizeError::ConvertionError(error) => {
                let inner = error.message();
                "failed to convert datatype: ".to_owned().concat(inner.as_str())
            },
        }
    }
}

impl From<ConditionError> for EvaluationError {
    fn from(value: ConditionError) -> (error: Self) {
        EvaluationError::ConditionError(value)
    }
}

impl vstd::std_specs::convert::FromSpecImpl<ConditionError> for EvaluationError {
    open spec fn obeys_from_spec() -> bool {
        true
    }

    open spec fn from_spec(value: ConditionError) -> Self {
        EvaluationError::ConditionError(value)
    }
}

impl From<ArithmeticError> for EvaluationError {
    fn from(value: ArithmeticError) -> (error: Self) {
        EvaluationError::ArithmeticError(value)
    }
}

impl vstd::std_specs::convert::FromSpecImpl<ArithmeticError> for EvaluationError {
    open spec fn obeys_from_spec() -> bool {
        true
    }

    open spec fn from_spec(value: ArithmeticError) -> Self {
        EvaluationError::ArithmeticError(value)
    }
}

impl From<UnaryConvertionError> for EvaluationError {
    fn from(value: UnaryConvertionError) -> (error: Self) {
        EvaluationError::UnaryConvertionError(value)
    }
}

impl vstd::std_specs::convert::FromSpecImpl<UnaryConvertionError> for EvaluationError {
    open spec fn obeys_from_spec() -> bool {
        true
    }

    open spec fn from_spec(value: UnaryConvertionError) -> Self {
        EvaluationError::UnaryConvertionError(value)
    }
}

impl From<std::str::Utf8Error> for TokenizeError {
    fn from(value: std::str::Utf8Error) -> (error: Self) {
        TokenizeError::ConvertionError(ConvertionError::StringParseError(value))
    }
}

impl vstd::std_specs::convert::FromSpecImpl<std::str::Utf8Error> for TokenizeError {
    open spec fn obeys_from_spec() -> bool {
        true
    }

    open spec fn from_spec(value: std::str::Utf8Error) -> Self {
        TokenizeError::ConvertionError(ConvertionError::StringParseError(value))
    }
}

impl From<std::num::ParseFloatError> for TokenizeError {
    fn from(value: std::num::ParseFloatError) -> (error: Self) {
        TokenizeError::ConvertionError(ConvertionError::NumberParseError(value))
    }
}

impl vstd::std_specs::convert::FromSpecImpl<std::num::ParseFloatError> for TokenizeError {
    open spec fn obeys_from_spec() -> bool {
        true
    }

    open spec fn from_spec(value: std::num::ParseFloatError) -> Self {
        TokenizeError::ConvertionError(ConvertionError::NumberParseError(value))
    }
}

} // verus!
