//! The parser: a recursive descent over tokens that builds an expression.
//!
//! Each rule leaves the position on the last token it used, and looks at
//! the token after it to decide whether to go on.

use vstd::prelude::*;
use crate::ast::{
    Binary,
    BinaryOp,
    Expr,
    ExprTree,
    Expression,
    Literal,
    evaluates_to,
    literal_result,
    LiteralValue,
    Ternary,
    Unary,
    UnaryOp,
    lemma_grouping_tree,
    lemma_literal_tree,
};
use crate::errors::{EvaluationError, ParsingError};
use crate::number::ArithOp;
use crate::tokenizer::{Token, TokenType};

verus! {

broadcast use {lemma_literal_tree, lemma_grouping_tree};

/// What a rule gives: the tree or the failure, and how many places the
/// position moved.
pub type Parsed = (Result<ExprTree, ParsingError>, nat);

/// The tokens left from `p` on; none past the end.
pub open spec fn remaining(t: Seq<Token>, p: nat) -> nat {
    if p <= t.len() {
        (t.len() - p) as nat
    } else {
        0
    }
}

/// The kind of the token at `i`.
pub open spec fn kind_at(t: Seq<Token>, i: nat) -> TokenType {
    t[i as int].token_type
}

/// The value of a literal token.
pub open spec fn literal_value(k: TokenType) -> Option<LiteralValue> {
    match k {
        TokenType::Number(bits) => Some(LiteralValue::Number(bits)),
        TokenType::String(s) => Some(LiteralValue::Text(s@)),
        TokenType::Nil => Some(LiteralValue::Nil),
        TokenType::False => Some(LiteralValue::False),
        TokenType::True => Some(LiteralValue::True),
        _ => None,
    }
}

/// A literal, or a parenthesized expression whose closing token is taken on
/// trust.
pub open spec fn primary_spec(t: Seq<Token>, p: nat) -> Parsed
    decreases remaining(t, p), 0nat,
{
    if p >= t.len() {
        (Err(ParsingError::OutOfBounds), 0)
    } else if literal_value(kind_at(t, p)) is Some {
        (Ok(ExprTree::Literal(literal_value(kind_at(t, p)).unwrap())), 0)
    } else if kind_at(t, p) is LeftParen {
        let (inner, a) = equality_spec(t, p + 1);
        match inner {
            Err(e) => (Err(e), 1 + a),
            Ok(e) => if p + 1 + a + 1 >= t.len() {
                (Err(ParsingError::UnterminatedParen), 2 + a)
            } else {
                (Ok(ExprTree::Grouping(Box::new(e))), 2 + a)
            },
        }
    } else {
        (Err(ParsingError::UnexpectedToken), 0)
    }
}

/// A primary, and where a `?` follows it, a primary for each outcome; the
/// token between the two outcomes is skipped unseen.
pub open spec fn ternary_spec(t: Seq<Token>, p: nat) -> Parsed
    decreases remaining(t, p), 1nat,
{
    let (condition, a) = primary_spec(t, p);
    match condition {
        Err(e) => (Err(e), a),
        Ok(c) => {
            let q = p + a;
            if q + 1 < t.len() && kind_at(t, q + 1) is Question {
                let (success, a2) = primary_spec(t, q + 2);
                let (failure, a3) = primary_spec(t, q + 2 + a2 + 2);
                let moved = a + 2 + a2 + 2 + a3;
                match (success, failure) {
                    (Ok(s), Ok(f)) => (
                        Ok(ExprTree::Ternary(Box::new(c), Box::new(s), Box::new(f))),
                        moved,
                    ),
                    _ => (Err(ParsingError::InvalidTernaryExpression), moved),
                }
            } else {
                (Ok(c), a)
            }
        },
    }
}

/// Any number of `!` and `-` before a ternary.
pub open spec fn unary_spec(t: Seq<Token>, p: nat) -> Parsed
    decreases remaining(t, p), 2nat,
{
    if p >= t.len() {
        (Err(ParsingError::OutOfBounds), 0)
    } else if kind_at(t, p) is Bang || kind_at(t, p) is Minus {
        let op = if kind_at(t, p) is Bang {
            UnaryOp::Not
        } else {
            UnaryOp::Negate
        };
        let (right, a) = unary_spec(t, p + 1);
        match right {
            Err(e) => (Err(e), 1 + a),
            Ok(r) => (Ok(ExprTree::Unary(op, Box::new(r))), 1 + a),
        }
    } else {
        ternary_spec(t, p)
    }
}

/// The operator of a factor, at `i`.
pub open spec fn factor_op(t: Seq<Token>, i: nat) -> Option<BinaryOp> {
    if i < t.len() && kind_at(t, i) is Star {
        Some(BinaryOp::Mul)
    } else if i < t.len() && kind_at(t, i) is Slash {
        Some(BinaryOp::Div)
    } else {
        None
    }
}

/// The operator of a term, at `i`.
pub open spec fn term_op(t: Seq<Token>, i: nat) -> Option<BinaryOp> {
    if i < t.len() && kind_at(t, i) is Plus {
        Some(BinaryOp::Add)
    } else if i < t.len() && kind_at(t, i) is Minus {
        Some(BinaryOp::Sub)
    } else {
        None
    }
}

/// The operator of a comparison, at `i`.
pub open spec fn comparison_op(t: Seq<Token>, i: nat) -> Option<BinaryOp> {
    if i < t.len() && kind_at(t, i) is LessEqual {
        Some(BinaryOp::LessOrEqual)
    } else if i < t.len() && kind_at(t, i) is Less {
        Some(BinaryOp::Less)
    } else if i < t.len() && kind_at(t, i) is Greater {
        Some(BinaryOp::Greater)
    } else if i < t.len() && kind_at(t, i) is GreaterEqual {
        Some(BinaryOp::GreaterOrEqual)
    } else {
        None
    }
}

/// The operator of an equality, at `i`.
pub open spec fn equality_op(t: Seq<Token>, i: nat) -> Option<BinaryOp> {
    if i < t.len() && kind_at(t, i) is EqualEqual {
        Some(BinaryOp::Equal)
    } else if i < t.len() && kind_at(t, i) is BangEqual {
        Some(BinaryOp::NotEqual)
    } else {
        None
    }
}

/// After a left operand that ends at `q`: `*` or `/` and another unary, as
/// long as they follow, grouped to the left.
pub open spec fn factor_rest(t: Seq<Token>, q: nat, left: ExprTree) -> Parsed
    decreases remaining(t, q), 3nat,
{
    match factor_op(t, q + 1) {
        None => (Ok(left), 0),
        Some(op) => if q + 2 >= t.len() {
            (Err(ParsingError::UnfinishedArithmeticExpression), 0)
        } else {
            let (right, a) = unary_spec(t, q + 2);
            match right {
                Err(e) => (Err(e), 2 + a),
                Ok(r) => {
                    let (rest, a2) = factor_rest(
                        t,
                        q + 2 + a,
                        ExprTree::Binary(Box::new(left), op, Box::new(r)),
                    );
                    (rest, 2 + a + a2)
                },
            }
        },
    }
}

pub open spec fn factor_spec(t: Seq<Token>, p: nat) -> Parsed
    decreases remaining(t, p), 4nat,
{
    let (left, a) = unary_spec(t, p);
    match left {
        Err(e) => (Err(e), a),
        Ok(l) => {
            let (rest, a2) = factor_rest(t, p + a, l);
            (rest, a + a2)
        },
    }
}

/// After a left operand that ends at `q`: a `+` or `-` and another factor
/// make an unfinished arithmetic expression; the sum is never built.
pub open spec fn term_rest(t: Seq<Token>, q: nat, left: ExprTree) -> Parsed
    decreases remaining(t, q), 5nat,
{
    match term_op(t, q + 1) {
        None => (Ok(left), 0),
        Some(_) => if q + 2 >= t.len() {
            (Err(ParsingError::UnfinishedArithmeticExpression), 0)
        } else {
            let (right, a) = factor_spec(t, q + 2);
            match right {
                Err(e) => (Err(e), 2 + a),
                Ok(_) => (Err(ParsingError::UnfinishedArithmeticExpression), 2 + a),
            }
        },
    }
}

pub open spec fn term_spec(t: Seq<Token>, p: nat) -> Parsed
    decreases remaining(t, p), 6nat,
{
    let (left, a) = factor_spec(t, p);
    match left {
        Err(e) => (Err(e), a),
        Ok(l) => {
            let (rest, a2) = term_rest(t, p + a, l);
            (rest, a + a2)
        },
    }
}

/// After a left operand that ends at `q`: a comparison operator and another
/// term, as long as they follow, grouped to the left.
pub open spec fn comparison_rest(t: Seq<Token>, q: nat, left: ExprTree) -> Parsed
    decreases remaining(t, q), 7nat,
{
    match comparison_op(t, q + 1) {
        None => (Ok(left), 0),
        Some(op) => if q + 2 >= t.len() {
            (Err(ParsingError::UnfinishedComparisonExpression), 0)
        } else {
            let (right, a) = term_spec(t, q + 2);
            match right {
                Err(e) => (Err(e), 2 + a),
                Ok(r) => {
                    let (rest, a2) = comparison_rest(
                        t,
                        q + 2 + a,
                        ExprTree::Binary(Box::new(left), op, Box::new(r)),
                    );
                    (rest, 2 + a + a2)
                },
            }
        },
    }
}

pub open spec fn comparison_spec(t: Seq<Token>, p: nat) -> Parsed
    decreases remaining(t, p), 8nat,
{
    let (left, a) = term_spec(t, p);
    match left {
        Err(e) => (Err(e), a),
        Ok(l) => {
            let (rest, a2) = comparison_rest(t, p + a, l);
            (rest, a + a2)
        },
    }
}

/// After a left operand that ends at `q`: `==` or `!=` and another
/// comparison make an unfinished equality expression; the equality is never
/// built.
pub open spec fn equality_rest(t: Seq<Token>, q: nat, left: ExprTree) -> Parsed
    decreases remaining(t, q), 9nat,
{
    match equality_op(t, q + 1) {
        None => (Ok(left), 0),
        Some(_) => if q + 2 >= t.len() {
            (Err(ParsingError::UnfinishedEqualityExpression), 0)
        } else {
            let (right, a) = comparison_spec(t, q + 2);
            match right {
                Err(e) => (Err(e), 2 + a),
                Ok(_) => (Err(ParsingError::UnfinishedEqualityExpression), 2 + a),
            }
        },
    }
}

pub open spec fn equality_spec(t: Seq<Token>, p: nat) -> Parsed
    decreases remaining(t, p), 10nat,
{
    let (left, a) = comparison_spec(t, p);
    match left {
        Err(e) => (Err(e), a),
        Ok(l) => {
            let (rest, a2) = equality_rest(t, p + a, l);
            (rest, a + a2)
        },
    }
}

/// The tree of a parse result.
pub open spec fn tree_result(r: Result<Expr, ParsingError>) -> Result<ExprTree, ParsingError> {
    match r {
        Ok(e) => Ok(e@),
        Err(x) => Err(x),
    }
}

/// Builds an expression from tokens.
pub struct Parser {
    tokens: Vec<Token>,
    pos: usize,
}

/// A rule run from `before` to `after` gave `expr` as `parsed` says, left
/// the tokens alone, and moved the position within bounds: never more than
/// twice the tokens left past the end, and not at all from past the end. A
/// parsed expression ends on a token.
pub open spec fn follows(
    before: Parser,
    after: Parser,
    expr: Result<Expr, ParsingError>,
    parsed: Parsed,
) -> bool {
    let n = before.tokens().len();
    let p = before.position();
    &&& after.wf()
    &&& after.tokens() == before.tokens()
    &&& tree_result(expr) == parsed.0
    &&& after.position() == p + parsed.1
    &&& (p <= n ==> after.position() + 2 * p <= 3 * n)
    &&& (p > n ==> after.position() == p)
    &&& (expr is Ok ==> after.position() < n)
}

impl Parser {
    /// The tokens being parsed.
    pub closed spec fn tokens(&self) -> Seq<Token> {
        self.tokens@
    }

    /// The index of the current token.
    pub closed spec fn position(&self) -> nat {
        self.pos as nat
    }

    /// The token count leaves room for positions up to three times it; the
    /// position is within that room.
    pub open spec fn wf(&self) -> bool {
        &&& 4 * self.tokens().len() < usize::MAX
        &&& self.position() <= 3 * self.tokens().len() + 2
    }

    /// A parser at the first of the tokens.
    pub fn new(tokens: Vec<Token>) -> (parser: Self)
        requires
            4 * tokens@.len() < usize::MAX,
        ensures
            parser.wf(),
            parser.tokens() == tokens@,
            parser.position() == 0,
    {
        Parser { tokens, pos: 0 }
    }

    /// The token `offset` places after the current one.
    fn peek(&self, offset: usize) -> (token: Result<&Token, ParsingError>)
        requires
            self.wf(),
            self.position() + offset <= usize::MAX,
        ensures
            self.position() + offset < self.tokens().len() ==> token == Ok::<
                &Token,
                ParsingError,
            >(&self.tokens()[self.position() + offset]),
            self.position() + offset >= self.tokens().len() ==> token == Err::<
                &Token,
                ParsingError,
            >(ParsingError::OutOfBounds),
    {
        if self.pos + offset < self.tokens.len() {
            Ok(&self.tokens[self.pos + offset])
        } else {
            Err(ParsingError::OutOfBounds)
        }
    }
}

/// The value of a literal token.
fn literal_of(token: &Token) -> (literal: Option<Literal>)
    ensures
        match literal {
            Some(l) => literal_value(token.token_type) == Some(l@),
            None => literal_value(token.token_type) is None,
        },
{
    match &token.token_type {
        TokenType::Number(number) => Some(Literal::Number(*number)),
        TokenType::String(string) => Some(Literal::String(string.clone())),
        TokenType::Nil => Some(Literal::Nil),
        TokenType::False => Some(Literal::False),
        TokenType::True => Some(Literal::True),
        _ => None,
    }
}

impl Parser {
    /// A literal, or an expression in parentheses.
    #[verifier::rlimit(50)]
    fn primary(&mut self) -> (expr: Result<Expr, ParsingError>)
        requires
            old(self).wf(),
        ensures
            follows(*old(self), *final(self), expr, primary_spec(old(self).tokens(), old(self).position())),
        decreases remaining(old(self).tokens(), old(self).position()), 0nat,
    {
        let token = match self.peek(0) {
            Ok(token) => token,
            Err(error) => {
                return Err(error);
            },
        };
        let literal = literal_of(token);
        let opens = matches!(token.token_type, TokenType::LeftParen);
        match literal {
            Some(literal) => Ok(Expr::Literal(literal)),
            None => {
                if !opens {
                    return Err(ParsingError::UnexpectedToken);
                }
                self.pos += 1;
                let expr = match self.equality() {
                    Ok(expr) => expr,
                    Err(error) => {
                        return Err(error);
                    },
                };
                self.pos += 1;
                match self.peek(0) {
                    Ok(_) => {},
                    Err(_) => {
                        return Err(ParsingError::UnterminatedParen);
                    },
                }
                Ok(Expr::Grouping(Box::new(expr)))
            },
        }
    }

    /// A primary, followed by `?` and a primary for each outcome.
    #[verifier::rlimit(50)]
    fn ternary(&mut self) -> (expr: Result<Expr, ParsingError>)
        requires
            old(self).wf(),
        ensures
            follows(*old(self), *final(self), expr, ternary_spec(old(self).tokens(), old(self).position())),
        decreases remaining(old(self).tokens(), old(self).position()), 1nat,
    {
        let condition = match self.primary() {
            Ok(condition) => condition,
            Err(error) => {
                return Err(error);
            },
        };
        let asks = match self.peek(1) {
            Ok(token) => matches!(token.token_type, TokenType::Question),
            Err(_) => false,
        };
        if asks {
            self.pos += 2;
            let success = self.primary();
            self.pos += 2;
            let failure = self.primary();
            match (success, failure) {
                (Ok(success), Ok(failure)) => Ok(
                    Expr::Ternary(Box::new(Ternary::new(condition, success, failure))),
                ),
                _ => Err(ParsingError::InvalidTernaryExpression),
            }
        } else {
            Ok(condition)
        }
    }

    /// `!` or `-` before a unary, or a ternary.
    fn unary(&mut self) -> (expr: Result<Expr, ParsingError>)
        requires
            old(self).wf(),
        ensures
            follows(*old(self), *final(self), expr, unary_spec(old(self).tokens(), old(self).position())),
        decreases remaining(old(self).tokens(), old(self).position()), 2nat,
    {
        let op = match self.peek(0) {
            Ok(token) => match &token.token_type {
                TokenType::Bang => UnaryOp::Not,
                TokenType::Minus => UnaryOp::Negate,
                _ => {
                    return self.ternary();
                },
            },
            Err(error) => {
                return Err(error);
            },
        };
        self.pos += 1;
        let right = match self.unary() {
            Ok(right) => right,
            Err(error) => {
                return Err(error);
            },
        };
        Ok(Expr::Unary(Box::new(Unary::new(op, right))))
    }

    /// Unaries joined by `*` and `/`, grouped to the left.
    fn factor(&mut self) -> (expr: Result<Expr, ParsingError>)
        requires
            old(self).wf(),
        ensures
            follows(*old(self), *final(self), expr, factor_spec(old(self).tokens(), old(self).position())),
        decreases remaining(old(self).tokens(), old(self).position()), 4nat,
    {
        let ghost t = self.tokens();
        let ghost p0 = self.position();
        let ghost target = factor_spec(t, p0);
        let mut left = match self.unary() {
            Ok(left) => left,
            Err(error) => {
                return Err(error);
            },
        };
        loop
            invariant
                self.wf(),
                self.tokens() == t,
                t == old(self).tokens(),
                p0 == old(self).position(),
                target == factor_spec(t, p0),
                p0 <= self.position() < t.len(),
                factor_rest(t, self.position(), left@).0 == target.0,
                self.position() + factor_rest(t, self.position(), left@).1 == p0 + target.1,
            ensures
                self.wf(),
                self.tokens() == t,
                p0 <= self.position() < t.len(),
                factor_op(t, self.position() + 1) is None,
                factor_rest(t, self.position(), left@).0 == target.0,
                self.position() + factor_rest(t, self.position(), left@).1 == p0 + target.1,
            decreases remaining(t, self.position()),
        {
            let op = match self.peek(1) {
                Ok(token) => match &token.token_type {
                    TokenType::Star => BinaryOp::Mul,
                    TokenType::Slash => BinaryOp::Div,
                    _ => {
                        break;
                    },
                },
                Err(_) => {
                    break;
                },
            };
            match self.peek(2) {
                Ok(_) => {},
                Err(_) => {
                    return Err(ParsingError::UnfinishedArithmeticExpression);
                },
            }
            self.pos += 2;
            let right = match self.unary() {
                Ok(right) => right,
                Err(error) => {
                    return Err(error);
                },
            };
            left = Expr::Binary(Box::new(Binary::new(left, op, right)));
        }
        Ok(left)
    }

    /// A factor; a `+` or `-` after it, with the factor that follows, makes
    /// an unfinished arithmetic expression.
    fn term(&mut self) -> (expr: Result<Expr, ParsingError>)
        requires
            old(self).wf(),
        ensures
            follows(*old(self), *final(self), expr, term_spec(old(self).tokens(), old(self).position())),
        decreases remaining(old(self).tokens(), old(self).position()), 6nat,
    {
        let left = match self.factor() {
            Ok(left) => left,
            Err(error) => {
                return Err(error);
            },
        };
        let is_term = match self.peek(1) {
            Ok(token) => matches!(token.token_type, TokenType::Plus | TokenType::Minus),
            Err(_) => false,
        };
        if !is_term {
            return Ok(left);
        }
        match self.peek(2) {
            Ok(_) => {},
            Err(_) => {
                return Err(ParsingError::UnfinishedArithmeticExpression);
            },
        }
        self.pos += 2;
        match self.factor() {
            Ok(_) => Err(ParsingError::UnfinishedArithmeticExpression),
            Err(error) => Err(error),
        }
    }

    /// Terms joined by comparison operators, grouped to the left.
    fn comparison(&mut self) -> (expr: Result<Expr, ParsingError>)
        requires
            old(self).wf(),
        ensures
            follows(*old(self), *final(self), expr, comparison_spec(old(self).tokens(), old(self).position())),
        decreases remaining(old(self).tokens(), old(self).position()), 8nat,
    {
        let ghost t = self.tokens();
        let ghost p0 = self.position();
        let ghost target = comparison_spec(t, p0);
        let mut left = match self.term() {
            Ok(left) => left,
            Err(error) => {
                return Err(error);
            },
        };
        loop
            invariant
                self.wf(),
                self.tokens() == t,
                t == old(self).tokens(),
                p0 == old(self).position(),
                target == comparison_spec(t, p0),
                p0 <= self.position() < t.len(),
                comparison_rest(t, self.position(), left@).0 == target.0,
                self.position() + comparison_rest(t, self.position(), left@).1 == p0 + target.1,
            ensures
                self.wf(),
                self.tokens() == t,
                p0 <= self.position() < t.len(),
                comparison_op(t, self.position() + 1) is None,
                comparison_rest(t, self.position(), left@).0 == target.0,
                self.position() + comparison_rest(t, self.position(), left@).1 == p0 + target.1,
            decreases remaining(t, self.position()),
        {
            let op = match self.peek(1) {
                Ok(token) => match &token.token_type {
                    TokenType::LessEqual => BinaryOp::LessOrEqual,
                    TokenType::Less => BinaryOp::Less,
                    TokenType::Greater => BinaryOp::Greater,
                    TokenType::GreaterEqual => BinaryOp::GreaterOrEqual,
                    _ => {
                        break;
                    },
                },
                Err(_) => {
                    break;
                },
            };
            match self.peek(2) {
                Ok(_) => {},
                Err(_) => {
                    return Err(ParsingError::UnfinishedComparisonExpression);
                },
            }
            self.pos += 2;
            let right = match self.term() {
                Ok(right) => right,
                Err(error) => {
                    return Err(error);
                },
            };
            left = Expr::Binary(Box::new(Binary::new(left, op, right)));
        }
        Ok(left)
    }

    /// A comparison; `==` or `!=` after it, with the comparison that
    /// follows, makes an unfinished equality expression.
    fn equality(&mut self) -> (expr: Result<Expr, ParsingError>)
        requires
            old(self).wf(),
        ensures
            follows(*old(self), *final(self), expr, equality_spec(old(self).tokens(), old(self).position())),
        decreases remaining(old(self).tokens(), old(self).position()), 10nat,
    {
        let left = match self.comparison() {
            Ok(left) => left,
            Err(error) => {
                return Err(error);
            },
        };
        let is_equality = match self.peek(1) {
            Ok(token) => matches!(token.token_type, TokenType::EqualEqual | TokenType::BangEqual),
            Err(_) => false,
        };
        if !is_equality {
            return Ok(left);
        }
        match self.peek(2) {
            Ok(_) => {},
            Err(_) => {
                return Err(ParsingError::UnfinishedEqualityExpression);
            },
        }
        self.pos += 2;
        match self.comparison() {
            Ok(_) => Err(ParsingError::UnfinishedEqualityExpression),
            Err(error) => Err(error),
        }
    }

    /// The expression that starts at the current token.
    pub fn parse(&mut self) -> (expr: Result<Expr, ParsingError>)
        requires
            old(self).wf(),
        ensures
            follows(*old(self), *final(self), expr, equality_spec(old(self).tokens(), old(self).position())),
    {
        self.equality()
    }
}

/// A lone literal token parses to that literal, and the position stays on
/// it.
pub proof fn law_single_literal(t: Seq<Token>)
    requires
        t.len() == 1,
        literal_value(kind_at(t, 0)) is Some,
    ensures
        equality_spec(t, 0) == (
        Ok::<ExprTree, ParsingError>(ExprTree::Literal(literal_value(kind_at(t, 0)).unwrap())),
        0nat,
    ),
{
}

/// A literal token in parentheses parses to a grouping of that literal;
/// the position ends on the closing token.
pub proof fn law_grouped_literal(t: Seq<Token>)
    requires
        t.len() == 3,
        kind_at(t, 0) is LeftParen,
        literal_value(kind_at(t, 1)) is Some,
        kind_at(t, 2) is RightParen,
    ensures
        equality_spec(t, 0) == (
        Ok::<ExprTree, ParsingError>(
            ExprTree::Grouping(
                Box::new(ExprTree::Literal(literal_value(kind_at(t, 1)).unwrap())),
            ),
        ),
        2nat,
    ),
{
    assert(equality_spec(t, 1) == (
    Ok::<ExprTree, ParsingError>(ExprTree::Literal(literal_value(kind_at(t, 1)).unwrap())),
    0nat,
    ));
}

/// A term whose first factor is followed by `+` or `-` never parses: with
/// the factor after the operator it is an unfinished arithmetic expression,
/// and without it too.
pub proof fn law_sum_never_parses(t: Seq<Token>, p: nat)
    requires
        factor_spec(t, p).0 is Ok,
        term_op(t, p + factor_spec(t, p).1 + 1) is Some,
    ensures
        term_spec(t, p).0 is Err,
        factor_spec(t, p + factor_spec(t, p).1 + 2).0 is Ok ==> term_spec(t, p).0 == Err::<
            ExprTree,
            ParsingError,
        >(ParsingError::UnfinishedArithmeticExpression),
{
}

/// An equality whose first comparison is followed by `==` or `!=` never
/// parses.
pub proof fn law_equality_never_parses(t: Seq<Token>, p: nat)
    requires
        comparison_spec(t, p).0 is Ok,
        equality_op(t, p + comparison_spec(t, p).1 + 1) is Some,
    ensures
        equality_spec(t, p).0 is Err,
        comparison_spec(t, p + comparison_spec(t, p).1 + 2).0 is Ok ==> equality_spec(t, p).0
            == Err::<ExprTree, ParsingError>(ParsingError::UnfinishedEqualityExpression),
{
}

/// The unary operator that a token stands for before an operand: `!`
/// negates a boolean, `-` a number.
pub open spec fn prefix_op(k: TokenType) -> Option<UnaryOp> {
    match k {
        TokenType::Bang => Some(UnaryOp::Not),
        TokenType::Minus => Some(UnaryOp::Negate),
        _ => None,
    }
}

/// `e` under the unary operators `ops`, the first one outermost.
pub open spec fn under_prefixes(ops: Seq<UnaryOp>, e: ExprTree) -> ExprTree
    decreases ops.len(),
{
    if ops.len() == 0 {
        e
    } else {
        ExprTree::Unary(ops[0], Box::new(under_prefixes(ops.drop_first(), e)))
    }
}

/// The unary operators that the `n` tokens from `p` stand for.
pub open spec fn prefixes_at(t: Seq<Token>, p: nat, n: nat) -> Seq<UnaryOp> {
    Seq::new(n, |i: int| prefix_op(kind_at(t, (p + i) as nat)).unwrap())
}

/// The literal tree of the literal token at `i`.
pub open spec fn literal_at(t: Seq<Token>, i: nat) -> ExprTree {
    ExprTree::Literal(literal_value(kind_at(t, i)).unwrap())
}

/// A prefix operator applies to what unary parsing gives from the next
/// token, whichever of `!` and `-` it is, so prefix operators stack.
pub proof fn law_prefix_operand_is_unary(t: Seq<Token>, p: nat)
    requires
        p < t.len(),
        prefix_op(kind_at(t, p)) is Some,
        unary_spec(t, p + 1).0 is Ok,
    ensures
        unary_spec(t, p) == (
            Ok::<ExprTree, ParsingError>(
                ExprTree::Unary(
                    prefix_op(kind_at(t, p)).unwrap(),
                    Box::new(unary_spec(t, p + 1).0->Ok_0),
                ),
            ),
            1 + unary_spec(t, p + 1).1,
        ),
{
}

/// A run of `n` tokens `!` and `-` before a literal that no `?` follows
/// parses to the literal under those operators, in their order, and the
/// position ends on the literal.
pub proof fn law_prefix_run(t: Seq<Token>, p: nat, n: nat)
    requires
        p + n < t.len(),
        forall|i: int| 0 <= i < n ==> #[trigger] prefix_op(kind_at(t, (p + i) as nat)) is Some,
        literal_value(kind_at(t, p + n)) is Some,
        p + n + 1 < t.len() ==> !(kind_at(t, p + n + 1) is Question),
    ensures
        unary_spec(t, p) == (
            Ok::<ExprTree, ParsingError>(under_prefixes(prefixes_at(t, p, n), literal_at(t, p + n))),
            n,
        ),
    decreases n,
{
    let lit = literal_at(t, p + n);
    if n == 0 {
        assert(prefixes_at(t, p, n) =~= Seq::<UnaryOp>::empty());
        assert(unary_spec(t, p) == ternary_spec(t, p));
        assert(primary_spec(t, p) == (Ok::<ExprTree, ParsingError>(lit), 0nat));
    } else {
        assert forall|i: int| 0 <= i < n - 1 implies #[trigger] prefix_op(
            kind_at(t, (p + 1 + i) as nat),
        ) is Some by {
            assert(prefix_op(kind_at(t, (p + (i + 1)) as nat)) is Some);
        }
        law_prefix_run(t, p + 1, (n - 1) as nat);
        assert(prefix_op(kind_at(t, (p + 0) as nat)) is Some);
        let ops = prefixes_at(t, p, n);
        assert(ops.drop_first() =~= prefixes_at(t, p + 1, (n - 1) as nat));
        assert((p + 1 + (n - 1)) as nat == p + n);
        assert(ops[0] == prefix_op(kind_at(t, p)).unwrap());
        assert(under_prefixes(ops, lit) == ExprTree::Unary(
            ops[0],
            Box::new(under_prefixes(ops.drop_first(), lit)),
        ));
    }
}

/// `a * ...` and `a / ...`, where a run of `!` and `-` and a literal make
/// the rest of the tokens, parse to the product or quotient of `a` and the
/// literal under those operators: the right operand of `*` and `/` is a
/// unary expression.
pub proof fn law_factor_operand_is_unary(t: Seq<Token>, n: nat)
    requires
        t.len() == n + 3,
        literal_value(kind_at(t, 0)) is Some,
        factor_op(t, 1) is Some,
        forall|i: int| 0 <= i < n ==> #[trigger] prefix_op(kind_at(t, (2 + i) as nat)) is Some,
        literal_value(kind_at(t, n + 2)) is Some,
    ensures
        equality_spec(t, 0) == (
            Ok::<ExprTree, ParsingError>(
                ExprTree::Binary(
                    Box::new(literal_at(t, 0)),
                    factor_op(t, 1).unwrap(),
                    Box::new(under_prefixes(prefixes_at(t, 2, n), literal_at(t, n + 2))),
                ),
            ),
            n + 2,
        ),
{
    law_prefix_run(t, 0, 0);
    law_prefix_run(t, 2, n);
    let r = under_prefixes(prefixes_at(t, 2, n), literal_at(t, n + 2));
    let b = ExprTree::Binary(Box::new(literal_at(t, 0)), factor_op(t, 1).unwrap(), Box::new(r));
    assert(factor_rest(t, n + 2, b) == (Ok::<ExprTree, ParsingError>(b), 0nat));
    assert(factor_rest(t, 0, literal_at(t, 0)) == (Ok::<ExprTree, ParsingError>(b), n + 2));
    assert(factor_spec(t, 0) == (Ok::<ExprTree, ParsingError>(b), n + 2));
    assert(term_spec(t, 0) == (Ok::<ExprTree, ParsingError>(b), n + 2));
    assert(comparison_spec(t, 0) == (Ok::<ExprTree, ParsingError>(b), n + 2));
}

/// In `c ? (e) : f`, where the tokens after `(` parse to `e` over `k` more
/// places, the failure branch is read two places after the `)` that closes
/// the success branch, however long that branch is: the ternary is `c`,
/// the grouping of `e`, and `f`, and it ends on `f`.
pub proof fn law_ternary_after_grouped_branch(t: Seq<Token>, k: nat, e: ExprTree)
    requires
        t.len() > k + 6,
        literal_value(kind_at(t, 0)) is Some,
        kind_at(t, 1) is Question,
        kind_at(t, 2) is LeftParen,
        equality_spec(t, 3) == (Ok::<ExprTree, ParsingError>(e), k),
        literal_value(kind_at(t, k + 6)) is Some,
    ensures
        ternary_spec(t, 0) == (
            Ok::<ExprTree, ParsingError>(
                ExprTree::Ternary(
                    Box::new(literal_at(t, 0)),
                    Box::new(ExprTree::Grouping(Box::new(e))),
                    Box::new(literal_at(t, k + 6)),
                ),
            ),
            k + 6,
        ),
        t.len() == k + 7 ==> equality_spec(t, 0) == ternary_spec(t, 0),
{
    lemma_grouped_primary(t, 2, k, e);
    let tree = ExprTree::Ternary(
        Box::new(literal_at(t, 0)),
        Box::new(ExprTree::Grouping(Box::new(e))),
        Box::new(literal_at(t, k + 6)),
    );
    assert(primary_spec(t, 0) == (Ok::<ExprTree, ParsingError>(literal_at(t, 0)), 0nat));
    assert(primary_spec(t, k + 6) == (Ok::<ExprTree, ParsingError>(literal_at(t, k + 6)), 0nat));
    assert(ternary_spec(t, 0) == (Ok::<ExprTree, ParsingError>(tree), k + 6));
    if t.len() == k + 7 {
        lemma_whole_ternary(t, k, tree);
    }
}

/// A parenthesized expression whose inside parses to `e` over `k` places,
/// with a token to close it, is the grouping of `e`, ending `k + 2` places
/// on.
proof fn lemma_grouped_primary(t: Seq<Token>, p: nat, k: nat, e: ExprTree)
    requires
        p + k + 2 < t.len(),
        kind_at(t, p) is LeftParen,
        equality_spec(t, p + 1) == (Ok::<ExprTree, ParsingError>(e), k),
    ensures
        primary_spec(t, p) == (Ok::<ExprTree, ParsingError>(ExprTree::Grouping(Box::new(e))), k + 2),
{
}

/// A ternary that ends on the last token is the whole expression.
proof fn lemma_whole_ternary(t: Seq<Token>, k: nat, tree: ExprTree)
    requires
        t.len() == k + 7,
        literal_value(kind_at(t, 0)) is Some,
        ternary_spec(t, 0) == (Ok::<ExprTree, ParsingError>(tree), k + 6),
    ensures
        equality_spec(t, 0) == ternary_spec(t, 0),
{
    assert(unary_spec(t, 0) == ternary_spec(t, 0));
    assert(factor_spec(t, 0) == ternary_spec(t, 0));
    assert(term_spec(t, 0) == ternary_spec(t, 0));
    assert(comparison_spec(t, 0) == ternary_spec(t, 0));
}

/// The value of the expression that a source's tokens spell: none where
/// there are no tokens; the parse failure, or the outcome of the evaluation
/// of the expression parsed from the first token.
pub fn evaluate_tokens<F: Fn(ArithOp, u32, u32) -> u32>(tokens: Vec<Token>, arith: &F) -> (value:
    Result<Option<Result<Literal, EvaluationError>>, ParsingError>)
    requires
        4 * tokens@.len() < usize::MAX,
        forall|op: ArithOp, a: u32, b: u32| call_requires(*arith, (op, a, b)),
    ensures
        tokens@.len() == 0 ==> value == Ok::<
            Option<Result<Literal, EvaluationError>>,
            ParsingError,
        >(None),
        tokens@.len() > 0 ==> match equality_spec(tokens@, 0).0 {
            Err(e) => value == Err::<Option<Result<Literal, EvaluationError>>, ParsingError>(e),
            Ok(tree) => value matches Ok(Some(outcome)) && evaluates_to(
                tree,
                *arith,
                literal_result(outcome),
            ),
        },
{
    if tokens.len() == 0 {
        return Ok(None);
    }
    let mut parser = Parser::new(tokens);
    match parser.parse() {
        Ok(expression) => Ok(Some(expression.eval(arith))),
        Err(error) => Err(error),
    }
}

} // verus!
