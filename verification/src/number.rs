//! Numbers as bit patterns: what the interpreter decides on a number without
//! computing on it.

use vstd::prelude::*;

verus! {

/// How two values stand to each other where they can be ordered.
#[derive(Debug, PartialEq, Eq, Copy, Clone, Structural)]
pub enum Order {
    Less,
    Equal,
    Greater,
}

/// Numbers are 32-bit IEEE 754 binary floating-point values, held as their bit
/// pattern: from the top, one sign bit, eight exponent bits and twenty-three
/// fraction bits.
///
/// The pattern without its sign bit.
pub open spec fn magnitude(bits: u32) -> int {
    bits as int % 0x8000_0000
}

/// Whether the sign bit is set.
pub open spec fn negative(bits: u32) -> bool {
    bits >= 0x8000_0000
}

/// Whether the pattern is a NaN: all exponent bits set and a fraction that is
/// not zero.
pub open spec fn not_a_number(bits: u32) -> bool {
    magnitude(bits) > 0x7f80_0000
}

/// Whether the pattern is positive or negative zero.
pub open spec fn zero(bits: u32) -> bool {
    magnitude(bits) == 0
}

/// Where a pattern that is no NaN stands on the number line: patterns of
/// greater numbers have greater ranks, and the two zeros share rank 0.
pub open spec fn rank(bits: u32) -> int {
    if negative(bits) {
        -magnitude(bits)
    } else {
        magnitude(bits)
    }
}

/// Numeric equality: no NaN equals anything, and the two zeros are equal.
pub open spec fn same_number(a: u32, b: u32) -> bool {
    !not_a_number(a) && !not_a_number(b) && rank(a) == rank(b)
}

/// Numeric order: a NaN is ordered with nothing.
pub open spec fn number_order(a: u32, b: u32) -> Option<Order> {
    if not_a_number(a) || not_a_number(b) {
        None
    } else if rank(a) < rank(b) {
        Some(Order::Less)
    } else if rank(a) > rank(b) {
        Some(Order::Greater)
    } else {
        Some(Order::Equal)
    }
}

/// The pattern of the negated number: the same pattern with the other sign.
pub open spec fn negated(bits: u32) -> u32 {
    if negative(bits) {
        (bits - 0x8000_0000) as u32
    } else {
        (bits + 0x8000_0000) as u32
    }
}

/// What masking and flipping the sign bit give.
proof fn lemma_magnitude(bits: u32)
    ensures
        (bits & 0x7fff_ffff) as int == magnitude(bits),
        (bits ^ 0x8000_0000) == negated(bits),
{
    assert((bits & 0x7fff_ffff) == bits % 0x8000_0000) by (bit_vector);
    assert(bits >= 0x8000_0000 ==> (bits ^ 0x8000_0000) == bits - 0x8000_0000) by (bit_vector);
    assert(bits < 0x8000_0000 ==> (bits ^ 0x8000_0000) == bits + 0x8000_0000) by (bit_vector);
}

/// Whether the pattern is a NaN.
pub fn is_nan(bits: u32) -> (r: bool)
    ensures
        r == not_a_number(bits),
{
    proof {
        lemma_magnitude(bits);
    }
    (bits & 0x7fff_ffff) > 0x7f80_0000
}

/// Whether the pattern is positive or negative zero.
pub fn is_zero(bits: u32) -> (r: bool)
    ensures
        r == zero(bits),
{
    proof {
        lemma_magnitude(bits);
    }
    (bits & 0x7fff_ffff) == 0
}

/// The pattern of the negated number.
pub fn negate(bits: u32) -> (r: u32)
    ensures
        r == negated(bits),
{
    proof {
        lemma_magnitude(bits);
    }
    bits ^ 0x8000_0000
}

/// Where a pattern that is no NaN stands on the number line.
fn rank_of(bits: u32) -> (r: i64)
    ensures
        r == rank(bits),
{
    proof {
        lemma_magnitude(bits);
    }
    let m: u32 = bits & 0x7fff_ffff;
    if bits >= 0x8000_0000 {
        0 - (m as i64)
    } else {
        m as i64
    }
}

/// Whether two patterns are equal as numbers.
pub fn numbers_equal(a: u32, b: u32) -> (r: bool)
    ensures
        r == same_number(a, b),
{
    !is_nan(a) && !is_nan(b) && rank_of(a) == rank_of(b)
}

/// How two patterns are ordered as numbers, if they are.
pub fn compare_numbers(a: u32, b: u32) -> (r: Option<Order>)
    ensures
        r == number_order(a, b),
{
    if is_nan(a) || is_nan(b) {
        None
    } else {
        let x: i64 = rank_of(a);
        let y: i64 = rank_of(b);
        if x < y {
            Some(Order::Less)
        } else if x > y {
            Some(Order::Greater)
        } else {
            Some(Order::Equal)
        }
    }
}

} // verus!
