//! Doubles by their bits: which are numbers, and how they are ordered.

use vstd::prelude::*;

verus! {

/// The bits of positive infinity.
pub const INFINITY_BITS: u64 = 0x7FF0_0000_0000_0000;

/// The bits of negative infinity.
pub const NEG_INFINITY_BITS: u64 = 0xFFF0_0000_0000_0000;

/// The sign bit.
pub const SIGN_BIT: u64 = 0x8000_0000_0000_0000;

/// The bits of the distance from zero.
pub open spec fn magnitude(bits: u64) -> int {
    if bits >= SIGN_BIT {
        bits - SIGN_BIT
    } else {
        bits as int
    }
}

/// A double is a number or infinite.
pub open spec fn is_number(bits: u64) -> bool {
    magnitude(bits) <= INFINITY_BITS
}

/// A double is a number.
pub open spec fn is_finite(bits: u64) -> bool {
    magnitude(bits) < INFINITY_BITS
}

/// An integer by which doubles are ordered. Both zeros have the same.
pub open spec fn rank(bits: u64) -> int {
    if bits >= SIGN_BIT {
        -magnitude(bits)
    } else {
        magnitude(bits)
    }
}

/// The first double is less than the second.
pub open spec fn less(a: u64, b: u64) -> bool {
    is_number(a) && is_number(b) && rank(a) < rank(b)
}

/// The doubles are equal as numbers.
pub open spec fn equal(a: u64, b: u64) -> bool {
    is_number(a) && is_number(b) && rank(a) == rank(b)
}

/// The bits of the absolute value.
pub fn abs_bits(bits: u64) -> (m: u64)
    ensures
        m == magnitude(bits),
{
    if bits >= SIGN_BIT {
        bits - SIGN_BIT
    } else {
        bits
    }
}

/// Tells whether a double is a number.
pub fn finite(bits: u64) -> (r: bool)
    ensures
        r == is_finite(bits),
{
    abs_bits(bits) < INFINITY_BITS
}

/// Tells whether a double is a number or infinite.
pub fn number(bits: u64) -> (r: bool)
    ensures
        r == is_number(bits),
{
    abs_bits(bits) <= INFINITY_BITS
}

/// The integer by which a double is ordered.
pub fn rank_of(bits: u64) -> (k: i64)
    ensures
        k == rank(bits),
{
    if bits >= SIGN_BIT {
        -((bits - SIGN_BIT) as i64)
    } else {
        bits as i64
    }
}

/// Tells whether the first double is less than the second.
pub fn is_less(a: u64, b: u64) -> (r: bool)
    ensures
        r == less(a, b),
{
    number(a) && number(b) && rank_of(a) < rank_of(b)
}

/// Tells whether two doubles are equal as numbers.
pub fn is_equal(a: u64, b: u64) -> (r: bool)
    ensures
        r == equal(a, b),
{
    number(a) && number(b) && rank_of(a) == rank_of(b)
}

/// Of two numbers exactly one is less, or they are equal.
pub proof fn law_order_is_total(a: u64, b: u64)
    requires
        is_number(a),
        is_number(b),
    ensures
        less(a, b) || less(b, a) || equal(a, b),
        !(less(a, b) && less(b, a)),
        equal(a, b) ==> !less(a, b) && !less(b, a),
{
}

/// The lesser of two doubles, where one that is no number does not count.
pub open spec fn lesser(a: u64, b: u64) -> u64 {
    if !is_number(a) || less(b, a) {
        b
    } else {
        a
    }
}

/// The greater of two doubles, where one that is no number does not count.
pub open spec fn greater(a: u64, b: u64) -> u64 {
    if !is_number(a) || less(a, b) {
        b
    } else {
        a
    }
}

/// The lesser of two doubles.
pub fn lesser_of(a: u64, b: u64) -> (m: u64)
    ensures
        m == lesser(a, b),
{
    if !number(a) || is_less(b, a) {
        b
    } else {
        a
    }
}

/// The greater of two doubles.
pub fn greater_of(a: u64, b: u64) -> (m: u64)
    ensures
        m == greater(a, b),
{
    if !number(a) || is_less(a, b) {
        b
    } else {
        a
    }
}

/// The lesser of two doubles is one of them and not greater than either, where both are
/// numbers.
pub proof fn law_lesser_and_greater(a: u64, b: u64)
    requires
        is_number(a),
        is_number(b),
    ensures
        lesser(a, b) == a || lesser(a, b) == b,
        rank(lesser(a, b)) <= rank(a) && rank(lesser(a, b)) <= rank(b),
        greater(a, b) == a || greater(a, b) == b,
        rank(greater(a, b)) >= rank(a) && rank(greater(a, b)) >= rank(b),
{
}

/// A double is finite where its exponent is not all ones, and no number where its exponent
/// is all ones and its fraction is not zero.
pub proof fn law_exponent_tells_numbers(bits: u64, is_finite_bits: bool, is_number_bits: bool)
    requires
        call_ensures(finite, (bits,), is_finite_bits),
        call_ensures(number, (bits,), is_number_bits),
    ensures
        is_finite_bits <==> (bits as int / 0x10_0000_0000_0000) % 0x800 != 0x7FF,
        is_number_bits <==> is_finite_bits || bits as int % 0x10_0000_0000_0000 == 0,
{
}

/// The absolute value of a double has the same bits but for the sign, which it has not.
pub proof fn law_absolute_value_has_no_sign(bits: u64, m: u64)
    requires
        call_ensures(abs_bits, (bits,), m),
    ensures
        m < 0x8000_0000_0000_0000,
        m == bits || m + 0x8000_0000_0000_0000 == bits,
{
}

/// The integer by which doubles are ordered grows with the bits of doubles without a sign
/// and falls with those of doubles with one. It is 0 for both zeros, positive for what is
/// greater than zero and negative for what is less.
pub proof fn law_rank_follows_bits(a: u64, b: u64, ka: i64, kb: i64)
    requires
        call_ensures(rank_of, (a,), ka),
        call_ensures(rank_of, (b,), kb),
    ensures
        a < b < 0x8000_0000_0000_0000 ==> ka < kb,
        0x8000_0000_0000_0000 <= a < b ==> kb < ka,
        a == 0 || a == 0x8000_0000_0000_0000 ==> ka == 0,
        0 < a < 0x8000_0000_0000_0000 ==> ka > 0,
        0x8000_0000_0000_0000 < a ==> ka < 0,
        a + 0x8000_0000_0000_0000 == b ==> kb == -ka,
{
}

/// Of two doubles without a sign the one with the lesser bits is less, of two with a sign the
/// one with the greater bits. One with a sign is less than one without, but for the zeros,
/// which are equal. What is no number is neither less than nor equal to anything.
pub proof fn law_bits_tell_order(a: u64, b: u64, lt: bool, eq: bool)
    requires
        call_ensures(is_less, (a, b), lt),
        call_ensures(is_equal, (a, b), eq),
    ensures
        a <= 0x7FF0_0000_0000_0000 && b <= 0x7FF0_0000_0000_0000 ==> lt == (a < b) && eq == (a
            == b),
        0x8000_0000_0000_0000 <= a <= 0xFFF0_0000_0000_0000 && 0x8000_0000_0000_0000 <= b
            <= 0xFFF0_0000_0000_0000 ==> lt == (b < a) && eq == (a == b),
        0x8000_0000_0000_0000 <= a <= 0xFFF0_0000_0000_0000 && b <= 0x7FF0_0000_0000_0000 ==> lt
            == !(a == 0x8000_0000_0000_0000 && b == 0) && eq == (a == 0x8000_0000_0000_0000 && b
            == 0),
        a <= 0x7FF0_0000_0000_0000 && 0x8000_0000_0000_0000 <= b <= 0xFFF0_0000_0000_0000 ==> !lt
            && eq == (a == 0 && b == 0x8000_0000_0000_0000),
        0x7FF0_0000_0000_0000 < a < 0x8000_0000_0000_0000 || a > 0xFFF0_0000_0000_0000 ==> !lt
            && !eq,
        0x7FF0_0000_0000_0000 < b < 0x8000_0000_0000_0000 || b > 0xFFF0_0000_0000_0000 ==> !lt
            && !eq,
{
}

/// The lesser of two doubles is one of them, and neither is less than it. The greater is one
/// of them, and less than neither. One that is no number does not count.
pub proof fn law_extremes_of_two(a: u64, b: u64, low: u64, high: u64, x: bool, y: bool)
    requires
        call_ensures(lesser_of, (a, b), low),
        call_ensures(greater_of, (a, b), high),
        call_ensures(number, (a,), x),
        call_ensures(number, (b,), y),
    ensures
        low == a || low == b,
        high == a || high == b,
        x && y ==> rank(low) <= rank(a) && rank(low) <= rank(b),
        x && y ==> rank(a) <= rank(high) && rank(b) <= rank(high),
        x && y && rank(a) == rank(b) ==> low == a && high == a,
        x && !y ==> low == a && high == a,
        !x ==> low == b && high == b,
{
}

} // verus!
