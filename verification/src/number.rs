//! Numbers of the language.
//!
//! A number is an IEEE-754 single precision value, held as its 32-bit
//! pattern: the sign bit, eight exponent bits and 23 fraction bits. The
//! operations whose result needs rounding (the four arithmetic operators and
//! the conversion of a decimal lexeme) are done by the host that runs the
//! library and are handed in as closures; sign changes, comparisons, the zero
//! test and the conversion to a repeat count are exact and are computed here
//! from the bit pattern.

use vstd::prelude::*;
use vstd::arithmetic::power2::{pow2, lemma_pow2_strictly_increases, lemma2_to64, lemma2_to64_rest};

verus! {

/// The binary arithmetic operators that the host computes on numbers.
#[derive(Debug, Clone, Copy, PartialEq, Eq)]
pub enum ArithOp {
    Add,
    Sub,
    Mul,
    Div,
}

/// The outcome of an ordered comparison.
#[derive(Debug, Clone, Copy, PartialEq, Eq)]
pub enum Order {
    Less,
    Equal,
    Greater,
}

/// The pattern of the sign bit.
pub const SIGN_BIT: u32 = 0x8000_0000;

/// The pattern of positive infinity; every magnitude above it is a NaN.
pub const INFINITY_BITS: u32 = 0x7f80_0000;

/// The weight of the lowest exponent bit.
pub const EXPONENT_UNIT: u32 = 0x80_0000;

/// Whether the sign bit is set.
pub open spec fn sign_set(x: u32) -> bool {
    x >= SIGN_BIT
}

/// The pattern without its sign bit.
pub open spec fn magnitude(x: u32) -> u32 {
    (x % SIGN_BIT) as u32
}

/// The biased exponent, from 0 to 255.
pub open spec fn exponent(x: u32) -> u32 {
    (magnitude(x) / EXPONENT_UNIT) as u32
}

/// The significand of a normal number: the fraction bits with the implicit
/// leading one.
pub open spec fn significand(x: u32) -> nat {
    (magnitude(x) % EXPONENT_UNIT + EXPONENT_UNIT) as nat
}

/// A NaN: all exponent bits set and a nonzero fraction.
pub open spec fn is_nan(x: u32) -> bool {
    magnitude(x) > INFINITY_BITS
}

/// Positive or negative zero.
pub open spec fn is_zero_number(x: u32) -> bool {
    magnitude(x) == 0
}

/// An integer that orders all numbers that are not NaN as their values are
/// ordered: the magnitude pattern grows with the value, and the sign bit turns
/// it around. Both zeros get 0.
pub open spec fn order_key(x: u32) -> int {
    if sign_set(x) {
        -(magnitude(x) as int)
    } else {
        magnitude(x) as int
    }
}

/// The number with the other sign: its sign bit flipped.
pub open spec fn negated(x: u32) -> u32 {
    if sign_set(x) {
        (x - SIGN_BIT) as u32
    } else {
        (x + SIGN_BIT) as u32
    }
}

/// Equality of numbers: no NaN is equal to anything, and the two zeros are
/// equal.
pub open spec fn numbers_equal_spec(a: u32, b: u32) -> bool {
    !is_nan(a) && !is_nan(b) && order_key(a) == order_key(b)
}

/// The ordering of two numbers; none where one of them is a NaN.
pub open spec fn compare_numbers_spec(a: u32, b: u32) -> Option<Order> {
    if is_nan(a) || is_nan(b) {
        None
    } else if order_key(a) < order_key(b) {
        Some(Order::Less)
    } else if order_key(a) == order_key(b) {
        Some(Order::Equal)
    } else {
        Some(Order::Greater)
    }
}

/// The integer part of a positive normal number, its significand times two
/// to the power of the unbiased exponent less 23.
pub open spec fn truncated_value(x: u32) -> nat {
    if exponent(x) < 150 {
        significand(x) / pow2((150 - exponent(x)) as nat)
    } else {
        significand(x) * pow2((exponent(x) - 150) as nat)
    }
}

/// The conversion of a number to a count, as a saturating cast to `usize`
/// does it: NaN and every value below one give 0, positive infinity and every
/// value above `usize::MAX` give `usize::MAX`, others lose their fraction.
pub open spec fn repeat_count_spec(x: u32) -> nat {
    if sign_set(x) || is_nan(x) || exponent(x) == 0 {
        0
    } else if exponent(x) == 255 {
        usize::MAX as nat
    } else if truncated_value(x) > usize::MAX {
        usize::MAX as nat
    } else {
        truncated_value(x)
    }
}

/// Whether a number is positive or negative zero.
pub fn is_zero(x: u32) -> (zero: bool)
    ensures
        zero == is_zero_number(x),
{
    x % SIGN_BIT == 0
}

/// The number with the other sign.
pub fn negate(x: u32) -> (y: u32)
    ensures
        y == negated(x),
{
    if x >= SIGN_BIT {
        x - SIGN_BIT
    } else {
        x + SIGN_BIT
    }
}

/// Whether `x` is a NaN.
pub fn is_not_a_number(x: u32) -> (nan: bool)
    ensures
        nan == is_nan(x),
{
    x % SIGN_BIT > INFINITY_BITS
}

/// Whether two numbers are equal.
pub fn numbers_equal(a: u32, b: u32) -> (equal: bool)
    ensures
        equal == numbers_equal_spec(a, b),
{
    if is_not_a_number(a) || is_not_a_number(b) {
        return false;
    }
    let ma = a % SIGN_BIT;
    let mb = b % SIGN_BIT;
    if ma == 0 && mb == 0 {
        true
    } else {
        a == b
    }
}

/// How two numbers are ordered; none where one of them is a NaN.
pub fn compare_numbers(a: u32, b: u32) -> (order: Option<Order>)
    ensures
        order == compare_numbers_spec(a, b),
{
    if is_not_a_number(a) || is_not_a_number(b) {
        return None;
    }
    let ma = a % SIGN_BIT;
    let mb = b % SIGN_BIT;
    let na = a >= SIGN_BIT;
    let nb = b >= SIGN_BIT;
    if ma == 0 && mb == 0 {
        Some(Order::Equal)
    } else if !na && !nb {
        if ma < mb {
            Some(Order::Less)
        } else if ma == mb {
            Some(Order::Equal)
        } else {
            Some(Order::Greater)
        }
    } else if na && nb {
        if mb < ma {
            Some(Order::Less)
        } else if ma == mb {
            Some(Order::Equal)
        } else {
            Some(Order::Greater)
        }
    } else if na {
        Some(Order::Less)
    } else {
        Some(Order::Greater)
    }
}

/// The count that a number stands for where a string is repeated.
pub fn repeat_count(x: u32) -> (count: usize)
    ensures
        count as nat == repeat_count_spec(x),
{
    let mag = x % SIGN_BIT;
    if x >= SIGN_BIT || mag > INFINITY_BITS {
        return 0;
    }
    let e = mag / EXPONENT_UNIT;
    if e == 0 {
        return 0;
    }
    if e == 255 {
        return usize::MAX;
    }
    let m: u64 = (mag % EXPONENT_UNIT + EXPONENT_UNIT) as u64;
    assert(m == significand(x));
    assert(m < 0x100_0000);
    if e < 127 {
        proof {
            lemma2_to64();
            if 150 - e > 24 {
                lemma_pow2_strictly_increases(24, (150 - e) as nat);
            }
            assert(m as nat / pow2((150 - e) as nat) == 0) by (nonlinear_arith)
                requires
                    m < 0x100_0000,
                    pow2(24) == 0x100_0000,
                    pow2(24) <= pow2((150 - e) as nat),
            ;
        }
        return 0;
    }
    if e < 150 {
        let shift: u64 = (150 - e) as u64;
        let v = m >> shift;
        proof {
            vstd::bits::lemma_u64_shr_is_div(m, shift);
            vstd::arithmetic::power2::lemma_pow2_pos(shift as nat);
            assert(v <= m) by (nonlinear_arith)
                requires
                    v == m as nat / pow2(shift as nat),
                    pow2(shift as nat) > 0,
            {
            }
        }
        return v as usize;
    }
    if e >= 191 {
        proof {
            lemma2_to64();
            lemma2_to64_rest();
            if (e - 150) > 41 {
                lemma_pow2_strictly_increases(41, (e - 150) as nat);
            }
            assert(significand(x) * pow2((e - 150) as nat) > usize::MAX) by (nonlinear_arith)
                requires
                    significand(x) >= 0x80_0000,
                    pow2((e - 150) as nat) >= pow2(41),
                    pow2(41) == 0x200_0000_0000,
                    usize::MAX <= u64::MAX,
            ;
        }
        return usize::MAX;
    }
    let shift: u64 = (e - 150) as u64;
    proof {
        lemma2_to64();
        lemma2_to64_rest();
        if shift < 40 {
            lemma_pow2_strictly_increases(shift as nat, 40);
        }
        assert(m * pow2(shift as nat) <= u64::MAX) by (nonlinear_arith)
            requires
                m < 0x100_0000,
                pow2(shift as nat) <= pow2(40),
                pow2(40) == 0x100_0000_0000,
        ;
        vstd::bits::lemma_u64_shl_is_mul(m, shift);
    }
    let v = m << shift;
    if v > usize::MAX as u64 {
        usize::MAX
    } else {
        v as usize
    }
}

/// An ordering seen from the other side.
pub open spec fn flipped(order: Option<Order>) -> Option<Order> {
    match order {
        Some(Order::Less) => Some(Order::Greater),
        Some(Order::Greater) => Some(Order::Less),
        other => other,
    }
}

/// Negating a number twice gives the number back.
pub proof fn law_negation_involutive(x: u32)
    ensures
        negated(negated(x)) == x,
{
}

/// Negation keeps a NaN a NaN and a zero a zero.
pub proof fn law_negation_keeps_kind(x: u32)
    ensures
        is_nan(negated(x)) == is_nan(x),
        is_zero_number(negated(x)) == is_zero_number(x),
{
}

/// Equality of numbers is symmetric.
pub proof fn law_equality_symmetric(a: u32, b: u32)
    ensures
        numbers_equal_spec(a, b) == numbers_equal_spec(b, a),
{
}

/// Every number but a NaN equals itself; a NaN equals nothing.
pub proof fn law_equality_reflexive(x: u32)
    ensures
        numbers_equal_spec(x, x) == !is_nan(x),
{
}

/// The two zeros are equal.
pub proof fn law_zeros_equal(a: u32, b: u32)
    requires
        is_zero_number(a),
        is_zero_number(b),
    ensures
        numbers_equal_spec(a, b),
{
}

/// Comparing the other way round flips the order.
pub proof fn law_order_flips(a: u32, b: u32)
    ensures
        compare_numbers_spec(a, b) == flipped(compare_numbers_spec(b, a)),
{
}

/// Two numbers compare as equal exactly when they are equal.
pub proof fn law_order_equal_iff_equal(a: u32, b: u32)
    ensures
        (compare_numbers_spec(a, b) == Some(Order::Equal)) == numbers_equal_spec(a, b),
{
}

/// The order of numbers that are not NaN is transitive.
pub proof fn law_order_transitive(a: u32, b: u32, c: u32)
    requires
        compare_numbers_spec(a, b) == Some(Order::Less),
        compare_numbers_spec(b, c) == Some(Order::Less),
    ensures
        compare_numbers_spec(a, c) == Some(Order::Less),
{
}

} // verus!
