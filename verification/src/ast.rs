//! Expressions, the values they evaluate to, and their evaluation.

use vstd::prelude::*;
use vstd::utf8::encode_utf8;
use crate::errors::{ArithmeticError, ConditionError, EvaluationError, UnaryConvertionError};
use crate::number::{
    ArithOp,
    Order,
    flipped,
    is_nan,
    law_order_flips,
    compare_numbers,
    compare_numbers_spec,
    is_zero,
    is_zero_number,
    negate,
    negated,
    numbers_equal,
    numbers_equal_spec,
    repeat_count,
    repeat_count_spec,
};
use std::cmp::Ordering;
use vstd::std_specs::cmp::{PartialEqSpecImpl, PartialOrdSpecImpl};

verus! {

/// A value of the language: nil, a boolean, a number (held as the bit
/// pattern of its single precision value) or a string.
#[derive(Debug)]
pub enum Literal {
    Nil,
    True,
    False,
    Number(u32),
    String(String),
}

/// What a value is, with the text of a string.
pub enum LiteralValue {
    Nil,
    True,
    False,
    Number(u32),
    Text(Seq<char>),
}

impl View for Literal {
    type V = LiteralValue;

    open spec fn view(&self) -> LiteralValue {
        match self {
            Literal::Nil => LiteralValue::Nil,
            Literal::True => LiteralValue::True,
            Literal::False => LiteralValue::False,
            Literal::Number(n) => LiteralValue::Number(*n),
            Literal::String(s) => LiteralValue::Text(s@),
        }
    }
}

/// The place of a variant in the declaration, by which values of different
/// variants are ordered.
pub open spec fn variant_rank(v: LiteralValue) -> int {
    match v {
        LiteralValue::Nil => 0,
        LiteralValue::True => 1,
        LiteralValue::False => 2,
        LiteralValue::Number(_) => 3,
        LiteralValue::Text(_) => 4,
    }
}

/// The lexicographic order of two byte strings.
pub open spec fn bytes_order(x: Seq<u8>, y: Seq<u8>) -> Order
    decreases x.len(),
{
    if x.len() == 0 && y.len() == 0 {
        Order::Equal
    } else if x.len() == 0 {
        Order::Less
    } else if y.len() == 0 {
        Order::Greater
    } else if x[0] < y[0] {
        Order::Less
    } else if x[0] > y[0] {
        Order::Greater
    } else {
        bytes_order(x.drop_first(), y.drop_first())
    }
}

/// Equality of values: same variant, and equal numbers or texts.
pub open spec fn literal_equal(a: LiteralValue, b: LiteralValue) -> bool {
    match (a, b) {
        (LiteralValue::Nil, LiteralValue::Nil) => true,
        (LiteralValue::True, LiteralValue::True) => true,
        (LiteralValue::False, LiteralValue::False) => true,
        (LiteralValue::Number(x), LiteralValue::Number(y)) => numbers_equal_spec(x, y),
        (LiteralValue::Text(x), LiteralValue::Text(y)) => x == y,
        _ => false,
    }
}

/// The order of values: by variant first; numbers by value (none with a
/// NaN), texts by their UTF-8 bytes.
pub open spec fn literal_order(a: LiteralValue, b: LiteralValue) -> Option<Order> {
    if variant_rank(a) < variant_rank(b) {
        Some(Order::Less)
    } else if variant_rank(a) > variant_rank(b) {
        Some(Order::Greater)
    } else {
        match (a, b) {
            (LiteralValue::Number(x), LiteralValue::Number(y)) => compare_numbers_spec(x, y),
            (LiteralValue::Text(x), LiteralValue::Text(y)) => Some(
                bytes_order(encode_utf8(x), encode_utf8(y)),
            ),
            _ => Some(Order::Equal),
        }
    }
}

/// A text repeated `n` times.
pub open spec fn repeated(s: Seq<char>, n: nat) -> Seq<char>
    decreases n,
{
    if n == 0 {
        Seq::empty()
    } else {
        repeated(s, (n - 1) as nat) + s
    }
}

/// `z` is a result that the host closure may give for `op` on the numbers
/// `x` and `y`.
pub open spec fn host_gives<F: Fn(ArithOp, u32, u32) -> u32>(
    f: F,
    op: ArithOp,
    x: u32,
    y: u32,
    z: u32,
) -> bool {
    call_ensures(f, (op, x, y), z)
}

/// The sum of two values, where `z` is the host's sum of two numbers:
/// numbers add, texts join.
pub open spec fn add_spec(a: LiteralValue, b: LiteralValue, z: u32) -> Result<
    LiteralValue,
    ArithmeticError,
> {
    match (a, b) {
        (LiteralValue::Number(_), LiteralValue::Number(_)) => Ok(LiteralValue::Number(z)),
        (LiteralValue::Text(x), LiteralValue::Text(y)) => Ok(LiteralValue::Text(x + y)),
        _ => Err(ArithmeticError::InvalidOperandsTypes),
    }
}

/// The difference of two numbers, where `z` is the host's difference.
pub open spec fn sub_spec(a: LiteralValue, b: LiteralValue, z: u32) -> Result<
    LiteralValue,
    ArithmeticError,
> {
    match (a, b) {
        (LiteralValue::Number(_), LiteralValue::Number(_)) => Ok(LiteralValue::Number(z)),
        _ => Err(ArithmeticError::InvalidOperandsTypes),
    }
}

/// The product of two values, where `z` is the host's product of two
/// numbers: numbers multiply, and a text with a number on either side is
/// repeated as many times as the number counts.
pub open spec fn mul_spec(a: LiteralValue, b: LiteralValue, z: u32) -> Result<
    LiteralValue,
    ArithmeticError,
> {
    match (a, b) {
        (LiteralValue::Number(_), LiteralValue::Number(_)) => Ok(LiteralValue::Number(z)),
        (LiteralValue::Text(s), LiteralValue::Number(n)) => Ok(
            LiteralValue::Text(repeated(s, repeat_count_spec(n))),
        ),
        (LiteralValue::Number(n), LiteralValue::Text(s)) => Ok(
            LiteralValue::Text(repeated(s, repeat_count_spec(n))),
        ),
        _ => Err(ArithmeticError::InvalidOperandsTypes),
    }
}

/// The quotient of two numbers, where `z` is the host's quotient; division
/// by either zero is an error.
pub open spec fn div_spec(a: LiteralValue, b: LiteralValue, z: u32) -> Result<
    LiteralValue,
    ArithmeticError,
> {
    match (a, b) {
        (LiteralValue::Number(_), LiteralValue::Number(y)) => if is_zero_number(y) {
            Err(ArithmeticError::ZeroDivision)
        } else {
            Ok(LiteralValue::Number(z))
        },
        _ => Err(ArithmeticError::InvalidOperandsTypes),
    }
}

/// An arithmetic operator applied to two values, where `z` is the host's
/// result on two numbers.
pub open spec fn arith_spec(op: ArithOp, a: LiteralValue, b: LiteralValue, z: u32) -> Result<
    LiteralValue,
    ArithmeticError,
> {
    match op {
        ArithOp::Add => add_spec(a, b, z),
        ArithOp::Sub => sub_spec(a, b, z),
        ArithOp::Mul => mul_spec(a, b, z),
        ArithOp::Div => div_spec(a, b, z),
    }
}

/// Whether the host is handed the numbers of two values for `op`: both
/// values are numbers, and no division by zero.
pub open spec fn host_called(op: ArithOp, a: LiteralValue, b: LiteralValue) -> bool {
    &&& a is Number
    &&& b is Number
    &&& !(op == ArithOp::Div && is_zero_number(b->Number_0))
}

/// `r` is an outcome of `op` on two values with the host closure `f`: where
/// the host is handed two numbers, `r` is built from one result it may give
/// for them; elsewhere `r` needs no host and is fixed.
pub open spec fn arith_outcome<F: Fn(ArithOp, u32, u32) -> u32>(
    f: F,
    op: ArithOp,
    a: LiteralValue,
    b: LiteralValue,
    r: Result<LiteralValue, ArithmeticError>,
) -> bool {
    if host_called(op, a, b) {
        exists|z: u32|
            #[trigger] host_gives(f, op, a->Number_0, b->Number_0, z) && r == arith_spec(
                op,
                a,
                b,
                z,
            )
    } else {
        r == arith_spec(op, a, b, 0)
    }
}

/// The negation of a number.
pub open spec fn neg_spec(a: LiteralValue) -> Result<LiteralValue, UnaryConvertionError> {
    match a {
        LiteralValue::Number(x) => Ok(LiteralValue::Number(negated(x))),
        _ => Err(UnaryConvertionError::InvalidRightHandType),
    }
}

/// The negation of a boolean.
pub open spec fn not_spec(a: LiteralValue) -> Result<LiteralValue, UnaryConvertionError> {
    match a {
        LiteralValue::True => Ok(LiteralValue::False),
        LiteralValue::False => Ok(LiteralValue::True),
        _ => Err(UnaryConvertionError::InvalidRightHandType),
    }
}

/// The value of a result, with the text of a string.
pub open spec fn literal_result<E>(r: Result<Literal, E>) -> Result<LiteralValue, E> {
    match r {
        Ok(l) => Ok(l@),
        Err(e) => Err(e),
    }
}

/// Where two byte strings agree at `i`, their suffixes from `i` are ordered
/// as their suffixes from `i + 1`.
proof fn lemma_bytes_order_skip(x: Seq<u8>, y: Seq<u8>, i: int)
    requires
        0 <= i < x.len(),
        i < y.len(),
        x[i] == y[i],
    ensures
        bytes_order(x.skip(i), y.skip(i)) == bytes_order(x.skip(i + 1), y.skip(i + 1)),
{
    assert(x.skip(i).drop_first() =~= x.skip(i + 1));
    assert(y.skip(i).drop_first() =~= y.skip(i + 1));
}

/// The order of two byte strings.
fn order_bytes(x: &[u8], y: &[u8]) -> (order: Order)
    ensures
        order == bytes_order(x@, y@),
{
    let mut i: usize = 0;
    assert(x@.skip(0) =~= x@);
    assert(y@.skip(0) =~= y@);
    while i < x.len() && i < y.len()
        invariant
            0 <= i <= x@.len(),
            i <= y@.len(),
            bytes_order(x@, y@) == bytes_order(x@.skip(i as int), y@.skip(i as int)),
        decreases x@.len() - i,
    {
        if x[i] < y[i] {
            return Order::Less;
        }
        if x[i] > y[i] {
            return Order::Greater;
        }
        proof {
            lemma_bytes_order_skip(x@, y@, i as int);
        }
        i += 1;
    }
    if i == x.len() && i == y.len() {
        Order::Equal
    } else if i == x.len() {
        Order::Less
    } else {
        Order::Greater
    }
}

impl Literal {
    /// Equality of values, as `==` compares them.
    pub fn equals(&self, other: &Literal) -> (equal: bool)
        ensures
            equal == literal_equal(self@, other@),
    {
        match (self, other) {
            (Literal::Nil, Literal::Nil) => true,
            (Literal::True, Literal::True) => true,
            (Literal::False, Literal::False) => true,
            (Literal::Number(x), Literal::Number(y)) => numbers_equal(*x, *y),
            (Literal::String(x), Literal::String(y)) => x.eq(y),
            _ => false,
        }
    }

    /// The place of the variant in the declaration.
    fn rank(&self) -> (rank: u8)
        ensures
            rank == variant_rank(self@),
    {
        match self {
            Literal::Nil => 0,
            Literal::True => 1,
            Literal::False => 2,
            Literal::Number(_) => 3,
            Literal::String(_) => 4,
        }
    }

    /// The order of values, as `<` and its kin compare them.
    pub fn order(&self, other: &Literal) -> (order: Option<Order>)
        ensures
            order == literal_order(self@, other@),
    {
        let a = self.rank();
        let b = other.rank();
        if a < b {
            return Some(Order::Less);
        }
        if a > b {
            return Some(Order::Greater);
        }
        match (self, other) {
            (Literal::Number(x), Literal::Number(y)) => compare_numbers(*x, *y),
            (Literal::String(x), Literal::String(y)) => Some(
                order_bytes(x.as_str().as_bytes(), y.as_str().as_bytes()),
            ),
            _ => Some(Order::Equal),
        }
    }

    /// The sum of two values: numbers add (by the host), strings join.
    pub fn add<F: Fn(ArithOp, u32, u32) -> u32>(self, rhs: Literal, arith: &F) -> (sum: Result<
        Literal,
        ArithmeticError,
    >)
        requires
            forall|op: ArithOp, a: u32, b: u32| call_requires(*arith, (op, a, b)),
        ensures
            arith_outcome(*arith, ArithOp::Add, self@, rhs@, literal_result(sum)),
    {
        let ghost a = self@;
        let ghost b = rhs@;
        match (self, rhs) {
            (Literal::Number(first), Literal::Number(second)) => {
                let x = arith(ArithOp::Add, first, second);
                let result = Ok(Literal::Number(x));
                assert(host_gives(*arith, ArithOp::Add, a->Number_0, b->Number_0, x)
                    && literal_result(result) == arith_spec(ArithOp::Add, a, b, x));
                result
            },
            (Literal::String(first), Literal::String(second)) => {
                Ok(Literal::String(first.concat(second.as_str())))
            },
            _ => Err(ArithmeticError::InvalidOperandsTypes),
        }
    }

    /// The difference of two numbers, by the host.
    pub fn sub<F: Fn(ArithOp, u32, u32) -> u32>(self, rhs: Literal, arith: &F) -> (difference:
        Result<Literal, ArithmeticError>)
        requires
            forall|op: ArithOp, a: u32, b: u32| call_requires(*arith, (op, a, b)),
        ensures
            arith_outcome(*arith, ArithOp::Sub, self@, rhs@, literal_result(difference)),
    {
        let ghost a = self@;
        let ghost b = rhs@;
        match (self, rhs) {
            (Literal::Number(first), Literal::Number(second)) => {
                let x = arith(ArithOp::Sub, first, second);
                let result = Ok(Literal::Number(x));
                assert(host_gives(*arith, ArithOp::Sub, a->Number_0, b->Number_0, x)
                    && literal_result(result) == arith_spec(ArithOp::Sub, a, b, x));
                result
            },
            _ => Err(ArithmeticError::InvalidOperandsTypes),
        }
    }

    /// The product of two values: numbers multiply (by the host), and a
    /// string with a number is repeated.
    pub fn mul<F: Fn(ArithOp, u32, u32) -> u32>(self, rhs: Literal, arith: &F) -> (product:
        Result<Literal, ArithmeticError>)
        requires
            forall|op: ArithOp, a: u32, b: u32| call_requires(*arith, (op, a, b)),
        ensures
            arith_outcome(*arith, ArithOp::Mul, self@, rhs@, literal_result(product)),
    {
        let ghost a = self@;
        let ghost b = rhs@;
        match (self, rhs) {
            (Literal::Number(first), Literal::Number(second)) => {
                let x = arith(ArithOp::Mul, first, second);
                let result = Ok(Literal::Number(x));
                assert(host_gives(*arith, ArithOp::Mul, a->Number_0, b->Number_0, x)
                    && literal_result(result) == arith_spec(ArithOp::Mul, a, b, x));
                result
            },
            (Literal::String(first), Literal::Number(second)) => {
                Ok(Literal::String(repeat_text(&first, repeat_count(second))))
            },
            (Literal::Number(second), Literal::String(first)) => {
                Ok(Literal::String(repeat_text(&first, repeat_count(second))))
            },
            _ => Err(ArithmeticError::InvalidOperandsTypes),
        }
    }

    /// The quotient of two numbers, by the host; dividing by zero is an
    /// error.
    pub fn div<F: Fn(ArithOp, u32, u32) -> u32>(self, rhs: Literal, arith: &F) -> (quotient:
        Result<Literal, ArithmeticError>)
        requires
            forall|op: ArithOp, a: u32, b: u32| call_requires(*arith, (op, a, b)),
        ensures
            arith_outcome(*arith, ArithOp::Div, self@, rhs@, literal_result(quotient)),
    {
        let ghost a = self@;
        let ghost b = rhs@;
        match (self, rhs) {
            (Literal::Number(first), Literal::Number(second)) => {
                if is_zero(second) {
                    return Err(ArithmeticError::ZeroDivision);
                }
                let x = arith(ArithOp::Div, first, second);
                let result = Ok(Literal::Number(x));
                assert(host_gives(*arith, ArithOp::Div, a->Number_0, b->Number_0, x)
                    && literal_result(result) == arith_spec(ArithOp::Div, a, b, x));
                result
            },
            _ => Err(ArithmeticError::InvalidOperandsTypes),
        }
    }

    /// The negation of a number.
    pub fn neg(self) -> (negation: Result<Literal, UnaryConvertionError>)
        ensures
            literal_result(negation) == neg_spec(self@),
    {
        match self {
            Literal::Number(number) => Ok(Literal::Number(negate(number))),
            _ => Err(UnaryConvertionError::InvalidRightHandType),
        }
    }

    /// The negation of a boolean.
    pub fn not(self) -> (negation: Result<Literal, UnaryConvertionError>)
        ensures
            literal_result(negation) == not_spec(self@),
    {
        match self {
            Literal::True => Ok(Literal::False),
            Literal::False => Ok(Literal::True),
            _ => Err(UnaryConvertionError::InvalidRightHandType),
        }
    }
}

/// The empty text repeated is empty.
proof fn lemma_repeated_empty(s: Seq<char>, n: nat)
    requires
        s.len() == 0,
    ensures
        repeated(s, n) == s,
    decreases n,
{
    if n > 0 {
        lemma_repeated_empty(s, (n - 1) as nat);
        assert(repeated(s, n) =~= s);
    }
}

/// A string repeated `count` times.
fn repeat_text(text: &String, count: usize) -> (result: String)
    ensures
        result@ == repeated(text@, count as nat),
{
    if text.as_str().is_empty() {
        proof {
            lemma_repeated_empty(text@, count as nat);
        }
        return String::new();
    }
    let mut result = String::new();
    let mut i: usize = 0;
    while i < count
        invariant
            0 <= i <= count,
            result@ == repeated(text@, i as nat),
        decreases count - i,
    {
        result.append(text.as_str());
        i += 1;
    }
    result
}

/// The standard ordering that an `Order` stands for.
pub open spec fn ordering_of(order: Option<Order>) -> Option<Ordering> {
    match order {
        Some(Order::Less) => Some(Ordering::Less),
        Some(Order::Equal) => Some(Ordering::Equal),
        Some(Order::Greater) => Some(Ordering::Greater),
        None => None,
    }
}

fn to_ordering(order: Option<Order>) -> (ordering: Option<Ordering>)
    ensures
        ordering == ordering_of(order),
{
    match order {
        Some(Order::Less) => Some(Ordering::Less),
        Some(Order::Equal) => Some(Ordering::Equal),
        Some(Order::Greater) => Some(Ordering::Greater),
        None => None,
    }
}

impl PartialEq for Literal {
    fn eq(&self, other: &Literal) -> (equal: bool) {
        self.equals(other)
    }
}

impl PartialEqSpecImpl for Literal {
    open spec fn obeys_eq_spec() -> bool {
        true
    }

    open spec fn eq_spec(&self, other: &Literal) -> bool {
        literal_equal(self@, other@)
    }
}

impl PartialOrd for Literal {
    fn partial_cmp(&self, other: &Literal) -> (ordering: Option<Ordering>) {
        to_ordering(self.order(other))
    }
}

impl PartialOrdSpecImpl for Literal {
    open spec fn obeys_partial_cmp_spec() -> bool {
        true
    }

    open spec fn partial_cmp_spec(&self, other: &Literal) -> Option<Ordering> {
        ordering_of(literal_order(self@, other@))
    }
}

/// The unary operators.
#[derive(Debug, Clone, Copy, PartialEq, Eq, Structural)]
pub enum UnaryOp {
    Negate,
    Not,
}

/// The binary operators.
#[derive(Debug, Clone, Copy, PartialEq, Eq, Structural)]
pub enum BinaryOp {
    Add,
    Sub,
    Div,
    Mul,
    LessOrEqual,
    GreaterOrEqual,
    Less,
    Greater,
    Equal,
    NotEqual,
}

/// An expression.
#[derive(Debug, PartialEq)]
pub enum Expr {
    Binary(Box<Binary>),
    Unary(Box<Unary>),
    Literal(Literal),
    Grouping(Box<Expr>),
    Ternary(Box<Ternary>),
}

/// A unary operator applied to an operand.
#[derive(Debug, PartialEq)]
pub struct Unary {
    op: UnaryOp,
    right: Expr,
}

/// A binary operator applied to two operands.
#[derive(Debug, PartialEq)]
pub struct Binary {
    right: Expr,
    op: BinaryOp,
    left: Expr,
}

/// A condition with the expressions for its two outcomes.
#[derive(Debug, PartialEq)]
pub struct Ternary {
    condition: Expr,
    success: Expr,
    failure: Expr,
}

impl Ternary {
    pub fn new(condition: Expr, success: Expr, failure: Expr) -> (ternary: Self)
        ensures
            Expr::Ternary(Box::new(ternary))@ == ExprTree::Ternary(
                Box::new(condition@),
                Box::new(success@),
                Box::new(failure@),
            ),
    {
        Ternary { condition, success, failure }
    }
}

impl Binary {
    pub fn new(left: Expr, op: BinaryOp, right: Expr) -> (binary: Self)
        ensures
            Expr::Binary(Box::new(binary))@ == ExprTree::Binary(
                Box::new(left@),
                op,
                Box::new(right@),
            ),
    {
        Binary { left, op, right }
    }
}

impl Unary {
    pub fn new(op: UnaryOp, right: Expr) -> (unary: Self)
        ensures
            Expr::Unary(Box::new(unary))@ == ExprTree::Unary(op, Box::new(right@)),
    {
        Unary { op, right }
    }
}

/// The tree of an expression, with the values of its literals.
pub enum ExprTree {
    Binary(Box<ExprTree>, BinaryOp, Box<ExprTree>),
    Unary(UnaryOp, Box<ExprTree>),
    Literal(LiteralValue),
    Grouping(Box<ExprTree>),
    Ternary(Box<ExprTree>, Box<ExprTree>, Box<ExprTree>),
}

/// The tree of an expression.
pub closed spec fn tree_of(e: Expr) -> ExprTree
    decreases e,
{
    match e {
        Expr::Binary(b) => ExprTree::Binary(
            Box::new(tree_of(b.left)),
            b.op,
            Box::new(tree_of(b.right)),
        ),
        Expr::Unary(u) => ExprTree::Unary(u.op, Box::new(tree_of(u.right))),
        Expr::Literal(l) => ExprTree::Literal(l@),
        Expr::Grouping(g) => ExprTree::Grouping(Box::new(tree_of(*g))),
        Expr::Ternary(t) => ExprTree::Ternary(
            Box::new(tree_of(t.condition)),
            Box::new(tree_of(t.success)),
            Box::new(tree_of(t.failure)),
        ),
    }
}

/// The tree of a literal expression is the literal's value.
pub broadcast proof fn lemma_literal_tree(l: Literal)
    ensures
        #[trigger] tree_of(Expr::Literal(l)) == ExprTree::Literal(l@),
{
}

/// The tree of a grouping is a grouping of the inner tree.
pub broadcast proof fn lemma_grouping_tree(e: Expr)
    ensures
        #[trigger] tree_of(Expr::Grouping(Box::new(e))) == ExprTree::Grouping(Box::new(tree_of(e))),
{
}

impl View for Expr {
    type V = ExprTree;

    open spec fn view(&self) -> ExprTree {
        tree_of(*self)
    }
}

/// A boolean value.
pub open spec fn boolean(b: bool) -> LiteralValue {
    if b {
        LiteralValue::True
    } else {
        LiteralValue::False
    }
}

/// The value of a comparison of two values.
pub open spec fn comparison_spec(op: BinaryOp, a: LiteralValue, b: LiteralValue) -> bool {
    match op {
        BinaryOp::Equal => literal_equal(a, b),
        BinaryOp::NotEqual => !literal_equal(a, b),
        BinaryOp::GreaterOrEqual => literal_order(a, b) == Some(Order::Greater) || literal_order(
            a,
            b,
        ) == Some(Order::Equal),
        BinaryOp::LessOrEqual => literal_order(a, b) == Some(Order::Less) || literal_order(a, b)
            == Some(Order::Equal),
        BinaryOp::Greater => literal_order(a, b) == Some(Order::Greater),
        _ => literal_order(a, b) == Some(Order::Less),
    }
}

/// An arithmetic failure as an evaluation failure.
pub open spec fn arithmetic_failure(
    r: Result<LiteralValue, ArithmeticError>,
) -> Result<LiteralValue, EvaluationError> {
    match r {
        Ok(v) => Ok(v),
        Err(e) => Err(EvaluationError::ArithmeticError(e)),
    }
}

/// The arithmetic operator that a binary operator stands for, if any.
pub open spec fn arith_op_of(op: BinaryOp) -> Option<ArithOp> {
    match op {
        BinaryOp::Add => Some(ArithOp::Add),
        BinaryOp::Sub => Some(ArithOp::Sub),
        BinaryOp::Mul => Some(ArithOp::Mul),
        BinaryOp::Div => Some(ArithOp::Div),
        _ => None,
    }
}

/// `r` is an outcome of a binary operator on two values with the host
/// closure `f`: arithmetic as `arith_outcome` says, its failure carried as an
/// evaluation failure; a comparison gives its boolean and never fails.
pub open spec fn binary_outcome<F: Fn(ArithOp, u32, u32) -> u32>(
    f: F,
    op: BinaryOp,
    a: LiteralValue,
    b: LiteralValue,
    r: Result<LiteralValue, EvaluationError>,
) -> bool {
    match arith_op_of(op) {
        Some(aop) => exists|v: Result<LiteralValue, ArithmeticError>|
            #[trigger] arith_outcome(f, aop, a, b, v) && r == arithmetic_failure(v),
        None => r == Ok::<LiteralValue, EvaluationError>(boolean(comparison_spec(op, a, b))),
    }
}

/// A unary operator applied to a value.
pub open spec fn unary_spec(op: UnaryOp, a: LiteralValue) -> Result<LiteralValue, EvaluationError> {
    let r = match op {
        UnaryOp::Not => not_spec(a),
        UnaryOp::Negate => neg_spec(a),
    };
    match r {
        Ok(v) => Ok(v),
        Err(e) => Err(EvaluationError::UnaryConvertionError(e)),
    }
}

/// The outcomes of the parts of an evaluation: for an operator, the
/// evaluation of its first operand and that operand's outcome, then the
/// evaluation of the second operand or of the branch taken, and its outcome.
pub enum Trace {
    Leaf,
    Step(
        Box<Trace>,
        Result<LiteralValue, EvaluationError>,
        Box<Trace>,
        Result<LiteralValue, EvaluationError>,
    ),
}

/// `t` is an evaluation of `e` with the host closure `f` for the arithmetic
/// of numbers, and `r` its outcome. Operands are evaluated left to right,
/// and the first failure is the outcome. A ternary evaluates its condition,
/// then the branch it selects; a condition that is not a boolean is a
/// failure.
pub open spec fn traces<F: Fn(ArithOp, u32, u32) -> u32>(
    e: ExprTree,
    f: F,
    t: Trace,
    r: Result<LiteralValue, EvaluationError>,
) -> bool
    decreases e,
{
    match e {
        ExprTree::Literal(l) => r == Ok::<LiteralValue, EvaluationError>(l),
        ExprTree::Grouping(inner) => traces(*inner, f, t, r),
        ExprTree::Unary(op, right) => match t {
            Trace::Step(first, x, _, _) => traces(*right, f, *first, x) && match x {
                Ok(v) => r == unary_spec(op, v),
                Err(err) => r == Err::<LiteralValue, EvaluationError>(err),
            },
            Trace::Leaf => false,
        },
        ExprTree::Binary(left, op, right) => match t {
            Trace::Step(first, x, second, y) => traces(*left, f, *first, x) && match x {
                Ok(a) => traces(*right, f, *second, y) && match y {
                    Ok(b) => binary_outcome(f, op, a, b, r),
                    Err(err) => r == Err::<LiteralValue, EvaluationError>(err),
                },
                Err(err) => r == Err::<LiteralValue, EvaluationError>(err),
            },
            Trace::Leaf => false,
        },
        ExprTree::Ternary(condition, success, failure) => match t {
            Trace::Step(first, x, second, _) => traces(*condition, f, *first, x) && match x {
                Ok(LiteralValue::True) => traces(*success, f, *second, r),
                Ok(LiteralValue::False) => traces(*failure, f, *second, r),
                Ok(_) => r == Err::<LiteralValue, EvaluationError>(
                    EvaluationError::ConditionError(ConditionError::InvalidCondition),
                ),
                Err(err) => r == Err::<LiteralValue, EvaluationError>(err),
            },
            Trace::Leaf => false,
        },
    }
}

/// `r` is an outcome of the evaluation of `e` with the host closure `f`;
/// only the host's results may differ between two evaluations.
pub open spec fn evaluates_to<F: Fn(ArithOp, u32, u32) -> u32>(
    e: ExprTree,
    f: F,
    r: Result<LiteralValue, EvaluationError>,
) -> bool {
    exists|t: Trace| #[trigger] traces(e, f, t, r)
}

/// `e` has the one outcome `r` with the host closure `f`.
pub open spec fn evaluates_only_to<F: Fn(ArithOp, u32, u32) -> u32>(
    e: ExprTree,
    f: F,
    r: Result<LiteralValue, EvaluationError>,
) -> bool {
    &&& evaluates_to(e, f, r)
    &&& forall|s: Result<LiteralValue, EvaluationError>| #[trigger] evaluates_to(e, f, s) ==> s == r
}

/// Evaluation of expressions, with the arithmetic of numbers done by a host
/// closure.
pub trait Expression: Sized {
    fn eval<F: Fn(ArithOp, u32, u32) -> u32>(self, arith: &F) -> Result<Literal, EvaluationError>
        requires
            forall|op: ArithOp, a: u32, b: u32| call_requires(*arith, (op, a, b)),
    ;
}

impl Expression for Expr {
    /// The value of the expression: one of its outcomes with the host closure
    /// for the arithmetic of numbers.
    fn eval<F: Fn(ArithOp, u32, u32) -> u32>(self, arith: &F) -> (value: Result<
        Literal,
        EvaluationError,
    >)
        ensures
            evaluates_to(self@, *arith, literal_result(value)),
        decreases self,
    {
        match self {
            Expr::Binary(binary) => {
                let Binary { right, op, left } = *binary;
                let ghost left_tree = left@;
                let ghost right_tree = right@;
                let left = match left.eval(arith) {
                    Ok(value) => value,
                    Err(error) => {
                        proof {
                            lemma_binary_left_fails(left_tree, op, right_tree, *arith, error);
                        }
                        return Err(error);
                    },
                };
                let ghost a = left@;
                let right = match right.eval(arith) {
                    Ok(value) => value,
                    Err(error) => {
                        proof {
                            lemma_binary_right_fails(left_tree, op, right_tree, *arith, a, error);
                        }
                        return Err(error);
                    },
                };
                let ghost b = right@;
                let result = match op {
                    BinaryOp::Add => left.add(right, arith),
                    BinaryOp::Mul => left.mul(right, arith),
                    BinaryOp::Div => left.div(right, arith),
                    BinaryOp::Sub => left.sub(right, arith),
                    _ => {
                        let result = match op {
                            BinaryOp::Equal => left == right,
                            BinaryOp::NotEqual => left != right,
                            BinaryOp::GreaterOrEqual => left >= right,
                            BinaryOp::LessOrEqual => left <= right,
                            BinaryOp::Greater => left > right,
                            _ => left < right,
                        };
                        if result {
                            Ok(Literal::True)
                        } else {
                            Ok(Literal::False)
                        }
                    },
                };
                let value = match result {
                    Ok(value) => Ok(value),
                    Err(error) => Err(EvaluationError::from(error)),
                };
                proof {
                    if let Some(aop) = arith_op_of(op) {
                        assert(arith_outcome(*arith, aop, a, b, literal_result(result)));
                    }
                    assert(binary_outcome(*arith, op, a, b, literal_result(value)));
                    lemma_binary_of_values(
                        left_tree,
                        op,
                        right_tree,
                        *arith,
                        a,
                        b,
                        literal_result(value),
                    );
                }
                value
            },
            Expr::Unary(unary) => {
                let Unary { op, right } = *unary;
                let ghost right_tree = right@;
                let operand = right.eval(arith);
                proof {
                    lemma_unary_step(op, right_tree, *arith, literal_result(operand));
                }
                let right = match operand {
                    Ok(value) => value,
                    Err(error) => {
                        return Err(error);
                    },
                };
                let result = match op {
                    UnaryOp::Not => right.not(),
                    UnaryOp::Negate => right.neg(),
                };
                match result {
                    Ok(value) => Ok(value),
                    Err(error) => Err(EvaluationError::from(error)),
                }
            },
            Expr::Grouping(grouping) => {
                let ghost inner_tree = (*grouping)@;
                let value = (*grouping).eval(arith);
                proof {
                    lemma_grouping_step(inner_tree, *arith, literal_result(value));
                }
                value
            },
            Expr::Literal(literal) => {
                let ghost v = literal@;
                proof {
                    assert(traces(ExprTree::Literal(v), *arith, Trace::Leaf, outcome(v)));
                }
                Ok(literal)
            },
            Expr::Ternary(ternary) => {
                let Ternary { condition, success, failure } = *ternary;
                let ghost condition_tree = condition@;
                let ghost success_tree = success@;
                let ghost failure_tree = failure@;
                let decided = condition.eval(arith);
                let ghost x = literal_result(decided);
                let op = match decided {
                    Ok(Literal::False) => false,
                    Ok(Literal::True) => true,
                    Ok(_) => {
                        let value = Err(EvaluationError::from(ConditionError::InvalidCondition));
                        proof {
                            lemma_ternary_step(
                                condition_tree,
                                success_tree,
                                failure_tree,
                                *arith,
                                x,
                                literal_result(value),
                            );
                        }
                        return value;
                    },
                    Err(error) => {
                        proof {
                            lemma_ternary_step(
                                condition_tree,
                                success_tree,
                                failure_tree,
                                *arith,
                                x,
                                Err(error),
                            );
                        }
                        return Err(error);
                    },
                };
                let value = if op {
                    success.eval(arith)
                } else {
                    failure.eval(arith)
                };
                proof {
                    lemma_ternary_step(
                        condition_tree,
                        success_tree,
                        failure_tree,
                        *arith,
                        x,
                        literal_result(value),
                    );
                }
                value
            },
        }
    }
}

/// Comparing byte strings the other way round flips the order.
pub proof fn lemma_bytes_order_flips(x: Seq<u8>, y: Seq<u8>)
    ensures
        Some(bytes_order(x, y)) == flipped(Some(bytes_order(y, x))),
    decreases x.len(),
{
    if x.len() > 0 && y.len() > 0 && x[0] == y[0] {
        lemma_bytes_order_flips(x.drop_first(), y.drop_first());
    }
}

/// Comparing values the other way round flips the order.
pub proof fn lemma_literal_order_flips(a: LiteralValue, b: LiteralValue)
    ensures
        literal_order(a, b) == flipped(literal_order(b, a)),
{
    match (a, b) {
        (LiteralValue::Number(x), LiteralValue::Number(y)) => law_order_flips(x, y),
        (LiteralValue::Text(x), LiteralValue::Text(y)) => lemma_bytes_order_flips(
            encode_utf8(x),
            encode_utf8(y),
        ),
        _ => {},
    }
}

/// A value as the outcome of an evaluation.
pub open spec fn outcome(v: LiteralValue) -> Result<LiteralValue, EvaluationError> {
    Ok(v)
}

/// A binary expression whose operands have the outcomes `Ok(a)` and `Ok(b)`
/// has every outcome of its operator on `a` and `b`.
proof fn lemma_binary_of_values<F: Fn(ArithOp, u32, u32) -> u32>(
    l: ExprTree,
    op: BinaryOp,
    rt: ExprTree,
    f: F,
    a: LiteralValue,
    b: LiteralValue,
    r: Result<LiteralValue, EvaluationError>,
)
    requires
        evaluates_to(l, f, outcome(a)),
        evaluates_to(rt, f, outcome(b)),
        binary_outcome(f, op, a, b, r),
    ensures
        evaluates_to(ExprTree::Binary(Box::new(l), op, Box::new(rt)), f, r),
{
    let tl = choose|t: Trace| traces(l, f, t, outcome(a));
    let tr = choose|t: Trace| traces(rt, f, t, outcome(b));
    let t = Trace::Step(Box::new(tl), outcome(a), Box::new(tr), outcome(b));
    assert(traces(ExprTree::Binary(Box::new(l), op, Box::new(rt)), f, t, r));
}

/// A failure of the left operand is an outcome of a binary expression.
proof fn lemma_binary_left_fails<F: Fn(ArithOp, u32, u32) -> u32>(
    l: ExprTree,
    op: BinaryOp,
    rt: ExprTree,
    f: F,
    err: EvaluationError,
)
    requires
        evaluates_to(l, f, Err(err)),
    ensures
        evaluates_to(ExprTree::Binary(Box::new(l), op, Box::new(rt)), f, Err(err)),
{
    let x = Err::<LiteralValue, EvaluationError>(err);
    let tl = choose|t: Trace| traces(l, f, t, x);
    let t = Trace::Step(Box::new(tl), x, Box::new(Trace::Leaf), x);
    assert(traces(ExprTree::Binary(Box::new(l), op, Box::new(rt)), f, t, x));
}

/// A failure of the right operand, after a value of the left one, is an
/// outcome of a binary expression.
proof fn lemma_binary_right_fails<F: Fn(ArithOp, u32, u32) -> u32>(
    l: ExprTree,
    op: BinaryOp,
    rt: ExprTree,
    f: F,
    a: LiteralValue,
    err: EvaluationError,
)
    requires
        evaluates_to(l, f, outcome(a)),
        evaluates_to(rt, f, Err(err)),
    ensures
        evaluates_to(ExprTree::Binary(Box::new(l), op, Box::new(rt)), f, Err(err)),
{
    let y = Err::<LiteralValue, EvaluationError>(err);
    let tl = choose|t: Trace| traces(l, f, t, outcome(a));
    let tr = choose|t: Trace| traces(rt, f, t, y);
    let t = Trace::Step(Box::new(tl), outcome(a), Box::new(tr), y);
    assert(traces(ExprTree::Binary(Box::new(l), op, Box::new(rt)), f, t, y));
}

/// A unary expression has the outcome of its operator on each value of its
/// operand, and each failure of the operand.
proof fn lemma_unary_step<F: Fn(ArithOp, u32, u32) -> u32>(
    op: UnaryOp,
    e: ExprTree,
    f: F,
    x: Result<LiteralValue, EvaluationError>,
)
    requires
        evaluates_to(e, f, x),
    ensures
        evaluates_to(
            ExprTree::Unary(op, Box::new(e)),
            f,
            match x {
                Ok(v) => unary_spec(op, v),
                Err(err) => Err(err),
            },
        ),
{
    let r = match x {
        Ok(v) => unary_spec(op, v),
        Err(err) => Err(err),
    };
    let te = choose|t: Trace| traces(e, f, t, x);
    let t = Trace::Step(Box::new(te), x, Box::new(Trace::Leaf), x);
    assert(traces(ExprTree::Unary(op, Box::new(e)), f, t, r));
}

/// Parentheses keep each outcome.
proof fn lemma_grouping_step<F: Fn(ArithOp, u32, u32) -> u32>(
    e: ExprTree,
    f: F,
    r: Result<LiteralValue, EvaluationError>,
)
    ensures
        evaluates_to(ExprTree::Grouping(Box::new(e)), f, r) <==> evaluates_to(e, f, r),
{
    if evaluates_to(e, f, r) {
        let t = choose|t: Trace| traces(e, f, t, r);
        assert(traces(ExprTree::Grouping(Box::new(e)), f, t, r));
    }
    if evaluates_to(ExprTree::Grouping(Box::new(e)), f, r) {
        let t = choose|t: Trace| traces(ExprTree::Grouping(Box::new(e)), f, t, r);
        assert(traces(e, f, t, r));
    }
}

/// A ternary has the outcomes of the branch that an outcome of its
/// condition selects, and the failure that a condition which is not a
/// boolean gives.
proof fn lemma_ternary_step<F: Fn(ArithOp, u32, u32) -> u32>(
    c: ExprTree,
    s: ExprTree,
    fl: ExprTree,
    f: F,
    x: Result<LiteralValue, EvaluationError>,
    r: Result<LiteralValue, EvaluationError>,
)
    requires
        evaluates_to(c, f, x),
        match x {
            Ok(LiteralValue::True) => evaluates_to(s, f, r),
            Ok(LiteralValue::False) => evaluates_to(fl, f, r),
            Ok(_) => r == Err::<LiteralValue, EvaluationError>(
                EvaluationError::ConditionError(ConditionError::InvalidCondition),
            ),
            Err(err) => r == Err::<LiteralValue, EvaluationError>(err),
        },
    ensures
        evaluates_to(ExprTree::Ternary(Box::new(c), Box::new(s), Box::new(fl)), f, r),
{
    let tc = choose|t: Trace| traces(c, f, t, x);
    let tb = if x == outcome(LiteralValue::True) {
        choose|t: Trace| traces(s, f, t, r)
    } else if x == outcome(LiteralValue::False) {
        choose|t: Trace| traces(fl, f, t, r)
    } else {
        Trace::Leaf
    };
    let t = Trace::Step(Box::new(tc), x, Box::new(tb), r);
    assert(traces(ExprTree::Ternary(Box::new(c), Box::new(s), Box::new(fl)), f, t, r));
}

/// Where each operand has one outcome, a value, a binary expression has no
/// outcome but those of its operator on the two values.
proof fn lemma_binary_inverts<F: Fn(ArithOp, u32, u32) -> u32>(
    l: ExprTree,
    op: BinaryOp,
    rt: ExprTree,
    f: F,
    a: LiteralValue,
    b: LiteralValue,
    r: Result<LiteralValue, EvaluationError>,
)
    requires
        evaluates_only_to(l, f, outcome(a)),
        evaluates_only_to(rt, f, outcome(b)),
        evaluates_to(ExprTree::Binary(Box::new(l), op, Box::new(rt)), f, r),
    ensures
        binary_outcome(f, op, a, b, r),
{
    let t = choose|t: Trace| traces(ExprTree::Binary(Box::new(l), op, Box::new(rt)), f, t, r);
    assert(traces(l, f, *t->Step_0, t->Step_1));
    assert(evaluates_to(l, f, t->Step_1));
    assert(traces(rt, f, *t->Step_2, t->Step_3));
    assert(evaluates_to(rt, f, t->Step_3));
}

/// Where each operand has one outcome, a value, and the operator has one
/// outcome on them, the binary expression has that one outcome.
proof fn lemma_binary_only<F: Fn(ArithOp, u32, u32) -> u32>(
    l: ExprTree,
    op: BinaryOp,
    rt: ExprTree,
    f: F,
    a: LiteralValue,
    b: LiteralValue,
    r: Result<LiteralValue, EvaluationError>,
)
    requires
        evaluates_only_to(l, f, outcome(a)),
        evaluates_only_to(rt, f, outcome(b)),
        binary_outcome(f, op, a, b, r),
        forall|s: Result<LiteralValue, EvaluationError>| #[trigger]
            binary_outcome(f, op, a, b, s) ==> s == r,
    ensures
        evaluates_only_to(ExprTree::Binary(Box::new(l), op, Box::new(rt)), f, r),
{
    lemma_binary_of_values(l, op, rt, f, a, b, r);
    assert forall|s: Result<LiteralValue, EvaluationError>|
        #[trigger] evaluates_to(ExprTree::Binary(Box::new(l), op, Box::new(rt)), f, s) implies s
        == r by {
        lemma_binary_inverts(l, op, rt, f, a, b, s);
    }
}

/// A unary expression whose operand has the outcome `Ok(v)` has the outcome
/// of its operator on `v`; where that is the operand's one outcome, it has
/// no other.
proof fn lemma_unary_of_value<F: Fn(ArithOp, u32, u32) -> u32>(
    op: UnaryOp,
    e: ExprTree,
    f: F,
    v: LiteralValue,
)
    requires
        evaluates_to(e, f, outcome(v)),
    ensures
        evaluates_to(ExprTree::Unary(op, Box::new(e)), f, unary_spec(op, v)),
        evaluates_only_to(e, f, outcome(v)) ==> evaluates_only_to(
            ExprTree::Unary(op, Box::new(e)),
            f,
            unary_spec(op, v),
        ),
{
    lemma_unary_step(op, e, f, outcome(v));
    if evaluates_only_to(e, f, outcome(v)) {
        assert forall|s: Result<LiteralValue, EvaluationError>|
            #[trigger] evaluates_to(ExprTree::Unary(op, Box::new(e)), f, s) implies s
            == unary_spec(op, v) by {
            let t = choose|t: Trace| traces(ExprTree::Unary(op, Box::new(e)), f, t, s);
            assert(traces(e, f, *t->Step_0, t->Step_1));
            assert(evaluates_to(e, f, t->Step_1));
        }
    }
}

/// With a host closure that gives at most one result for each operator and
/// pair of numbers, two evaluations of an expression have one outcome.
proof fn lemma_traces_agree<F: Fn(ArithOp, u32, u32) -> u32>(
    e: ExprTree,
    f: F,
    t: Trace,
    u: Trace,
    r: Result<LiteralValue, EvaluationError>,
    s: Result<LiteralValue, EvaluationError>,
)
    requires
        forall|op: ArithOp, x: u32, y: u32, z: u32, w: u32|
            #[trigger] host_gives(f, op, x, y, z) && #[trigger] host_gives(f, op, x, y, w) ==> z
                == w,
        traces(e, f, t, r),
        traces(e, f, u, s),
    ensures
        r == s,
    decreases e,
{
    match e {
        ExprTree::Literal(_) => {},
        ExprTree::Grouping(inner) => {
            lemma_traces_agree(*inner, f, t, u, r, s);
        },
        ExprTree::Unary(op, right) => {
            lemma_traces_agree(*right, f, *t->Step_0, *u->Step_0, t->Step_1, u->Step_1);
        },
        ExprTree::Binary(left, op, right) => {
            lemma_traces_agree(*left, f, *t->Step_0, *u->Step_0, t->Step_1, u->Step_1);
            if let Ok(a) = t->Step_1 {
                lemma_traces_agree(*right, f, *t->Step_2, *u->Step_2, t->Step_3, u->Step_3);
                if let Ok(b) = t->Step_3 {
                    if let Some(aop) = arith_op_of(op) {
                        let v = choose|v: Result<LiteralValue, ArithmeticError>|
                            #[trigger] arith_outcome(f, aop, a, b, v) && r == arithmetic_failure(v);
                        let w = choose|v: Result<LiteralValue, ArithmeticError>|
                            #[trigger] arith_outcome(f, aop, a, b, v) && s == arithmetic_failure(v);
                        if host_called(aop, a, b) {
                            let p = a->Number_0;
                            let q = b->Number_0;
                            let z = choose|z: u32|
                                #[trigger] host_gives(f, aop, p, q, z) && v == arith_spec(aop, a, b, z);
                            let z2 = choose|z: u32|
                                #[trigger] host_gives(f, aop, p, q, z) && w == arith_spec(aop, a, b, z);
                            assert(z == z2);
                        }
                    }
                }
            }
        },
        ExprTree::Ternary(condition, success, failure) => {
            lemma_traces_agree(*condition, f, *t->Step_0, *u->Step_0, t->Step_1, u->Step_1);
            if t->Step_1 == outcome(LiteralValue::True) {
                lemma_traces_agree(*success, f, *t->Step_2, *u->Step_2, r, s);
            } else if t->Step_1 == outcome(LiteralValue::False) {
                lemma_traces_agree(*failure, f, *t->Step_2, *u->Step_2, r, s);
            }
        },
    }
}

/// With a host closure that gives at most one result for each operator and
/// pair of numbers, every expression has at most one outcome.
pub proof fn law_one_outcome<F: Fn(ArithOp, u32, u32) -> u32>(
    e: ExprTree,
    f: F,
    r: Result<LiteralValue, EvaluationError>,
    s: Result<LiteralValue, EvaluationError>,
)
    requires
        forall|op: ArithOp, x: u32, y: u32, z: u32, w: u32|
            #[trigger] host_gives(f, op, x, y, z) && #[trigger] host_gives(f, op, x, y, w) ==> z
                == w,
        evaluates_to(e, f, r),
        evaluates_to(e, f, s),
    ensures
        r == s,
{
    let t = choose|t: Trace| traces(e, f, t, r);
    let u = choose|t: Trace| traces(e, f, t, s);
    lemma_traces_agree(e, f, t, u, r, s);
}

/// A literal has one outcome: its value.
pub proof fn law_literal_evaluates_to_itself<F: Fn(ArithOp, u32, u32) -> u32>(
    v: LiteralValue,
    f: F,
)
    ensures
        evaluates_only_to(ExprTree::Literal(v), f, outcome(v)),
{
    assert(traces(ExprTree::Literal(v), f, Trace::Leaf, outcome(v)));
    assert forall|s: Result<LiteralValue, EvaluationError>|
        #[trigger] evaluates_to(ExprTree::Literal(v), f, s) implies s == outcome(v) by {
        let t = choose|t: Trace| traces(ExprTree::Literal(v), f, t, s);
    }
}

/// Parentheses do not change the outcomes of an expression.
pub proof fn law_grouping_transparent<F: Fn(ArithOp, u32, u32) -> u32>(e: ExprTree, f: F)
    ensures
        forall|r: Result<LiteralValue, EvaluationError>|
            #[trigger] evaluates_to(ExprTree::Grouping(Box::new(e)), f, r) <==> evaluates_to(
                e,
                f,
                r,
            ),
{
    assert forall|r: Result<LiteralValue, EvaluationError>|
        #[trigger] evaluates_to(ExprTree::Grouping(Box::new(e)), f, r) <==> evaluates_to(
            e,
            f,
            r,
        ) by {
        lemma_grouping_step(e, f, r);
    }
}

/// A binary expression whose operands have the values `a` and `b` has every
/// outcome of its operator on `a` and `b`; where each operand has only that
/// outcome, it has no other.
pub proof fn law_binary_of_values<F: Fn(ArithOp, u32, u32) -> u32>(
    l: ExprTree,
    op: BinaryOp,
    rt: ExprTree,
    f: F,
    a: LiteralValue,
    b: LiteralValue,
)
    requires
        evaluates_to(l, f, outcome(a)),
        evaluates_to(rt, f, outcome(b)),
    ensures
        forall|r: Result<LiteralValue, EvaluationError>|
            #[trigger] binary_outcome(f, op, a, b, r) ==> evaluates_to(
                ExprTree::Binary(Box::new(l), op, Box::new(rt)),
                f,
                r,
            ),
        evaluates_only_to(l, f, outcome(a)) && evaluates_only_to(rt, f, outcome(b)) ==> forall|
            r: Result<LiteralValue, EvaluationError>,
        |
            #[trigger] evaluates_to(ExprTree::Binary(Box::new(l), op, Box::new(rt)), f, r)
                ==> binary_outcome(f, op, a, b, r),
{
    assert forall|r: Result<LiteralValue, EvaluationError>|
        #[trigger] binary_outcome(f, op, a, b, r) implies evaluates_to(
        ExprTree::Binary(Box::new(l), op, Box::new(rt)),
        f,
        r,
    ) by {
        lemma_binary_of_values(l, op, rt, f, a, b, r);
    }
    if evaluates_only_to(l, f, outcome(a)) && evaluates_only_to(rt, f, outcome(b)) {
        assert forall|r: Result<LiteralValue, EvaluationError>|
            #[trigger] evaluates_to(
                ExprTree::Binary(Box::new(l), op, Box::new(rt)),
                f,
                r,
            ) implies binary_outcome(f, op, a, b, r) by {
            lemma_binary_inverts(l, op, rt, f, a, b, r);
        }
    }
}

/// A comparison of two values, whatever their types, has one outcome, its
/// boolean, and never fails.
pub proof fn law_comparison_never_fails<F: Fn(ArithOp, u32, u32) -> u32>(
    op: BinaryOp,
    a: LiteralValue,
    b: LiteralValue,
    f: F,
)
    requires
        arith_op_of(op) is None,
    ensures
        binary_outcome(f, op, a, b, outcome(boolean(comparison_spec(op, a, b)))),
        forall|r: Result<LiteralValue, EvaluationError>|
            #[trigger] binary_outcome(f, op, a, b, r) ==> r == outcome(
                boolean(comparison_spec(op, a, b)),
            ),
{
}

/// Negating a boolean twice gives it back.
pub proof fn law_double_not<F: Fn(ArithOp, u32, u32) -> u32>(
    e: ExprTree,
    f: F,
    v: LiteralValue,
)
    requires
        v == LiteralValue::True || v == LiteralValue::False,
        evaluates_to(e, f, outcome(v)),
    ensures
        evaluates_to(
            ExprTree::Unary(UnaryOp::Not, Box::new(ExprTree::Unary(UnaryOp::Not, Box::new(e)))),
            f,
            outcome(v),
        ),
        evaluates_only_to(e, f, outcome(v)) ==> evaluates_only_to(
            ExprTree::Unary(UnaryOp::Not, Box::new(ExprTree::Unary(UnaryOp::Not, Box::new(e)))),
            f,
            outcome(v),
        ),
{
    let w = unary_spec(UnaryOp::Not, v)->Ok_0;
    lemma_unary_of_value(UnaryOp::Not, e, f, v);
    lemma_unary_of_value(UnaryOp::Not, ExprTree::Unary(UnaryOp::Not, Box::new(e)), f, w);
}

/// Negating a number twice gives it back.
pub proof fn law_double_negation<F: Fn(ArithOp, u32, u32) -> u32>(e: ExprTree, f: F, x: u32)
    requires
        evaluates_to(e, f, outcome(LiteralValue::Number(x))),
    ensures
        evaluates_to(
            ExprTree::Unary(
                UnaryOp::Negate,
                Box::new(ExprTree::Unary(UnaryOp::Negate, Box::new(e))),
            ),
            f,
            outcome(LiteralValue::Number(x)),
        ),
        evaluates_only_to(e, f, outcome(LiteralValue::Number(x))) ==> evaluates_only_to(
            ExprTree::Unary(
                UnaryOp::Negate,
                Box::new(ExprTree::Unary(UnaryOp::Negate, Box::new(e))),
            ),
            f,
            outcome(LiteralValue::Number(x)),
        ),
{
    crate::number::law_negation_involutive(x);
    let w = LiteralValue::Number(negated(x));
    lemma_unary_of_value(UnaryOp::Negate, e, f, LiteralValue::Number(x));
    lemma_unary_of_value(UnaryOp::Negate, ExprTree::Unary(UnaryOp::Negate, Box::new(e)), f, w);
}

/// Where each operand has one outcome, a value, `a < b` has the outcomes of
/// `b > a`, and `a <= b` those of `b >= a`.
pub proof fn law_comparison_converse<F: Fn(ArithOp, u32, u32) -> u32>(
    a: ExprTree,
    b: ExprTree,
    f: F,
    x: LiteralValue,
    y: LiteralValue,
)
    requires
        evaluates_only_to(a, f, outcome(x)),
        evaluates_only_to(b, f, outcome(y)),
    ensures
        forall|r: Result<LiteralValue, EvaluationError>|
            #[trigger] evaluates_to(ExprTree::Binary(Box::new(a), BinaryOp::Less, Box::new(b)), f, r)
                <==> evaluates_to(
                ExprTree::Binary(Box::new(b), BinaryOp::Greater, Box::new(a)),
                f,
                r,
            ),
        forall|r: Result<LiteralValue, EvaluationError>|
            #[trigger] evaluates_to(
                ExprTree::Binary(Box::new(a), BinaryOp::LessOrEqual, Box::new(b)),
                f,
                r,
            ) <==> evaluates_to(
                ExprTree::Binary(Box::new(b), BinaryOp::GreaterOrEqual, Box::new(a)),
                f,
                r,
            ),
{
    lemma_literal_order_flips(x, y);
    assert(comparison_spec(BinaryOp::Less, x, y) == comparison_spec(BinaryOp::Greater, y, x));
    assert(comparison_spec(BinaryOp::LessOrEqual, x, y) == comparison_spec(
        BinaryOp::GreaterOrEqual,
        y,
        x,
    ));
    law_binary_of_values(a, BinaryOp::Less, b, f, x, y);
    law_binary_of_values(b, BinaryOp::Greater, a, f, y, x);
    law_binary_of_values(a, BinaryOp::LessOrEqual, b, f, x, y);
    law_binary_of_values(b, BinaryOp::GreaterOrEqual, a, f, y, x);
    assert forall|r: Result<LiteralValue, EvaluationError>|
        #[trigger] evaluates_to(ExprTree::Binary(Box::new(a), BinaryOp::Less, Box::new(b)), f, r)
            <==> evaluates_to(
            ExprTree::Binary(Box::new(b), BinaryOp::Greater, Box::new(a)),
            f,
            r,
        ) by {
        assert(binary_outcome(f, BinaryOp::Less, x, y, r) <==> binary_outcome(
            f,
            BinaryOp::Greater,
            y,
            x,
            r,
        ));
    }
    assert forall|r: Result<LiteralValue, EvaluationError>|
        #[trigger] evaluates_to(
            ExprTree::Binary(Box::new(a), BinaryOp::LessOrEqual, Box::new(b)),
            f,
            r,
        ) <==> evaluates_to(
            ExprTree::Binary(Box::new(b), BinaryOp::GreaterOrEqual, Box::new(a)),
            f,
            r,
        ) by {
        assert(binary_outcome(f, BinaryOp::LessOrEqual, x, y, r) <==> binary_outcome(
            f,
            BinaryOp::GreaterOrEqual,
            y,
            x,
            r,
        ));
    }
}

/// Where both operands have a value, `==` and `!=` give opposite booleans.
pub proof fn law_equal_opposes_not_equal<F: Fn(ArithOp, u32, u32) -> u32>(
    a: ExprTree,
    b: ExprTree,
    f: F,
    x: LiteralValue,
    y: LiteralValue,
)
    requires
        evaluates_to(a, f, outcome(x)),
        evaluates_to(b, f, outcome(y)),
    ensures
        evaluates_to(
            ExprTree::Binary(Box::new(a), BinaryOp::Equal, Box::new(b)),
            f,
            outcome(boolean(literal_equal(x, y))),
        ),
        evaluates_to(
            ExprTree::Binary(Box::new(a), BinaryOp::NotEqual, Box::new(b)),
            f,
            outcome(boolean(!literal_equal(x, y))),
        ),
{
    law_binary_of_values(a, BinaryOp::Equal, b, f, x, y);
    law_binary_of_values(a, BinaryOp::NotEqual, b, f, x, y);
    assert(binary_outcome(f, BinaryOp::Equal, x, y, outcome(boolean(literal_equal(x, y)))));
    assert(binary_outcome(f, BinaryOp::NotEqual, x, y, outcome(boolean(!literal_equal(x, y)))));
}

/// An expression with one outcome, a value that is not a NaN, is equal to
/// itself.
pub proof fn law_expression_equals_itself<F: Fn(ArithOp, u32, u32) -> u32>(
    e: ExprTree,
    f: F,
    v: LiteralValue,
)
    requires
        evaluates_only_to(e, f, outcome(v)),
        !(v matches LiteralValue::Number(x) && is_nan(x)),
    ensures
        evaluates_only_to(
            ExprTree::Binary(Box::new(e), BinaryOp::Equal, Box::new(e)),
            f,
            outcome(LiteralValue::True),
        ),
{
    if let LiteralValue::Number(x) = v {
        crate::number::law_equality_reflexive(x);
    }
    lemma_binary_only(e, BinaryOp::Equal, e, f, v, v, outcome(LiteralValue::True));
}

/// Joining texts is associative: where `a`, `b` and `c` have one outcome
/// each, a text, `(a + b) + c` and `a + (b + c)` have one outcome, the
/// three texts joined.
pub proof fn law_join_associative<F: Fn(ArithOp, u32, u32) -> u32>(
    a: ExprTree,
    b: ExprTree,
    c: ExprTree,
    f: F,
    x: Seq<char>,
    y: Seq<char>,
    z: Seq<char>,
)
    requires
        evaluates_only_to(a, f, outcome(LiteralValue::Text(x))),
        evaluates_only_to(b, f, outcome(LiteralValue::Text(y))),
        evaluates_only_to(c, f, outcome(LiteralValue::Text(z))),
    ensures
        evaluates_only_to(
            ExprTree::Binary(
                Box::new(ExprTree::Binary(Box::new(a), BinaryOp::Add, Box::new(b))),
                BinaryOp::Add,
                Box::new(c),
            ),
            f,
            outcome(LiteralValue::Text(x + y + z)),
        ),
        evaluates_only_to(
            ExprTree::Binary(
                Box::new(a),
                BinaryOp::Add,
                Box::new(ExprTree::Binary(Box::new(b), BinaryOp::Add, Box::new(c))),
            ),
            f,
            outcome(LiteralValue::Text(x + y + z)),
        ),
{
    assert(x + y + z =~= x + (y + z));
    let ab = ExprTree::Binary(Box::new(a), BinaryOp::Add, Box::new(b));
    let bc = ExprTree::Binary(Box::new(b), BinaryOp::Add, Box::new(c));
    lemma_join_only(a, b, f, x, y);
    lemma_join_only(b, c, f, y, z);
    lemma_join_only(ab, c, f, x + y, z);
    lemma_join_only(a, bc, f, x, y + z);
}

/// Where `a` and `b` have one outcome each, a text, `a + b` has one outcome,
/// the texts joined.
proof fn lemma_join_only<F: Fn(ArithOp, u32, u32) -> u32>(
    a: ExprTree,
    b: ExprTree,
    f: F,
    x: Seq<char>,
    y: Seq<char>,
)
    requires
        evaluates_only_to(a, f, outcome(LiteralValue::Text(x))),
        evaluates_only_to(b, f, outcome(LiteralValue::Text(y))),
    ensures
        evaluates_only_to(
            ExprTree::Binary(Box::new(a), BinaryOp::Add, Box::new(b)),
            f,
            outcome(LiteralValue::Text(x + y)),
        ),
{
    let tx = LiteralValue::Text(x);
    let ty = LiteralValue::Text(y);
    let r = outcome(LiteralValue::Text(x + y));
    assert(arith_outcome(f, ArithOp::Add, tx, ty, Ok(LiteralValue::Text(x + y))));
    assert(binary_outcome(f, BinaryOp::Add, tx, ty, r));
    lemma_binary_only(a, BinaryOp::Add, b, f, tx, ty, r);
}

/// A text and a number repeat the text the same way on either side of `*`:
/// where each has one outcome, both products have one outcome, the text
/// repeated as many times as the number counts.
pub proof fn law_repeat_either_side<F: Fn(ArithOp, u32, u32) -> u32>(
    a: ExprTree,
    b: ExprTree,
    f: F,
    s: Seq<char>,
    n: u32,
)
    requires
        evaluates_only_to(a, f, outcome(LiteralValue::Text(s))),
        evaluates_only_to(b, f, outcome(LiteralValue::Number(n))),
    ensures
        evaluates_only_to(
            ExprTree::Binary(Box::new(a), BinaryOp::Mul, Box::new(b)),
            f,
            outcome(LiteralValue::Text(repeated(s, repeat_count_spec(n)))),
        ),
        evaluates_only_to(
            ExprTree::Binary(Box::new(b), BinaryOp::Mul, Box::new(a)),
            f,
            outcome(LiteralValue::Text(repeated(s, repeat_count_spec(n)))),
        ),
{
    let t = LiteralValue::Text(s);
    let m = LiteralValue::Number(n);
    let v = LiteralValue::Text(repeated(s, repeat_count_spec(n)));
    assert(arith_outcome(f, ArithOp::Mul, t, m, Ok(v)));
    assert(arith_outcome(f, ArithOp::Mul, m, t, Ok(v)));
    assert(binary_outcome(f, BinaryOp::Mul, t, m, outcome(v)));
    assert(binary_outcome(f, BinaryOp::Mul, m, t, outcome(v)));
    lemma_binary_only(a, BinaryOp::Mul, b, f, t, m, outcome(v));
    lemma_binary_only(b, BinaryOp::Mul, a, f, m, t, outcome(v));
}

/// Dividing a number by either zero is a division failure, and nothing else.
pub proof fn law_division_by_zero<F: Fn(ArithOp, u32, u32) -> u32>(
    a: ExprTree,
    b: ExprTree,
    f: F,
    x: u32,
    z: u32,
)
    requires
        evaluates_only_to(a, f, outcome(LiteralValue::Number(x))),
        evaluates_only_to(b, f, outcome(LiteralValue::Number(z))),
        is_zero_number(z),
    ensures
        evaluates_only_to(
            ExprTree::Binary(Box::new(a), BinaryOp::Div, Box::new(b)),
            f,
            Err(EvaluationError::ArithmeticError(ArithmeticError::ZeroDivision)),
        ),
{
    let p = LiteralValue::Number(x);
    let q = LiteralValue::Number(z);
    let r = Err(EvaluationError::ArithmeticError(ArithmeticError::ZeroDivision));
    assert(arith_outcome(f, ArithOp::Div, p, q, Err(ArithmeticError::ZeroDivision)));
    assert(binary_outcome(f, BinaryOp::Div, p, q, r));
    lemma_binary_only(a, BinaryOp::Div, b, f, p, q, r);
}

/// A ternary whose condition is a boolean literal has the outcomes of the
/// branch it names.
pub proof fn law_ternary_selects<F: Fn(ArithOp, u32, u32) -> u32>(
    success: ExprTree,
    failure: ExprTree,
    f: F,
)
    ensures
        forall|r: Result<LiteralValue, EvaluationError>|
            #[trigger] evaluates_to(
                ExprTree::Ternary(
                    Box::new(ExprTree::Literal(LiteralValue::True)),
                    Box::new(success),
                    Box::new(failure),
                ),
                f,
                r,
            ) <==> evaluates_to(success, f, r),
        forall|r: Result<LiteralValue, EvaluationError>|
            #[trigger] evaluates_to(
                ExprTree::Ternary(
                    Box::new(ExprTree::Literal(LiteralValue::False)),
                    Box::new(success),
                    Box::new(failure),
                ),
                f,
                r,
            ) <==> evaluates_to(failure, f, r),
{
    lemma_ternary_literal(true, success, failure, f);
    lemma_ternary_literal(false, success, failure, f);
}

/// A ternary whose condition is the literal `b` has the outcomes of the
/// branch that `b` names.
proof fn lemma_ternary_literal<F: Fn(ArithOp, u32, u32) -> u32>(
    b: bool,
    success: ExprTree,
    failure: ExprTree,
    f: F,
)
    ensures
        forall|r: Result<LiteralValue, EvaluationError>|
            #[trigger] evaluates_to(
                ExprTree::Ternary(
                    Box::new(ExprTree::Literal(boolean(b))),
                    Box::new(success),
                    Box::new(failure),
                ),
                f,
                r,
            ) <==> evaluates_to(if b { success } else { failure }, f, r),
{
    let c = ExprTree::Literal(boolean(b));
    let e = ExprTree::Ternary(Box::new(c), Box::new(success), Box::new(failure));
    assert(traces(c, f, Trace::Leaf, outcome(boolean(b))));
    assert forall|r: Result<LiteralValue, EvaluationError>|
        #[trigger] evaluates_to(e, f, r) <==> evaluates_to(if b { success } else { failure }, f, r) by {
        if evaluates_to(if b { success } else { failure }, f, r) {
            lemma_ternary_step(c, success, failure, f, outcome(boolean(b)), r);
        }
        if evaluates_to(e, f, r) {
            let t = choose|t: Trace| traces(e, f, t, r);
            assert(traces(c, f, *t->Step_0, t->Step_1));
            assert(traces(if b { success } else { failure }, f, *t->Step_2, r));
        }
    }
}

/// A failure of the left operand is a failure of a binary expression,
/// whatever the operator and the right operand; where it is the left
/// operand's one outcome, it is the expression's one outcome.
pub proof fn law_left_failure_first<F: Fn(ArithOp, u32, u32) -> u32>(
    a: ExprTree,
    op: BinaryOp,
    b: ExprTree,
    f: F,
    err: EvaluationError,
)
    requires
        evaluates_to(a, f, Err(err)),
    ensures
        evaluates_to(ExprTree::Binary(Box::new(a), op, Box::new(b)), f, Err(err)),
        evaluates_only_to(a, f, Err(err)) ==> evaluates_only_to(
            ExprTree::Binary(Box::new(a), op, Box::new(b)),
            f,
            Err(err),
        ),
{
    lemma_binary_left_fails(a, op, b, f, err);
    if evaluates_only_to(a, f, Err(err)) {
        assert forall|s: Result<LiteralValue, EvaluationError>|
            #[trigger] evaluates_to(ExprTree::Binary(Box::new(a), op, Box::new(b)), f, s) implies s
            == Err::<LiteralValue, EvaluationError>(err) by {
            let t = choose|t: Trace| traces(ExprTree::Binary(Box::new(a), op, Box::new(b)), f, t, s);
            assert(traces(a, f, *t->Step_0, t->Step_1));
            assert(evaluates_to(a, f, t->Step_1));
        }
    }
}

} // verus!
