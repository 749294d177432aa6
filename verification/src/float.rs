//! IEEE 754 comparison of `f64` values given by their bit patterns: NaN is
//! unordered and unequal to everything, the two zeros are equal, and other
//! values are ordered by sign and magnitude.
use vstd::prelude::*;

verus! {

pub open spec fn float_is_nan(b: u64) -> bool {
    (b >> 52u64) & 0x7ffu64 == 0x7ffu64 && b & 0xf_ffff_ffff_ffffu64 != 0
}

pub open spec fn float_is_zero(b: u64) -> bool {
    b & 0x7fff_ffff_ffff_ffffu64 == 0
}

/// A key whose unsigned order is the order of the (non-NaN) values: negative
/// values have their bits flipped, non-negative values get the sign bit set.
pub open spec fn float_order_key(b: u64) -> u64 {
    if b >> 63u64 == 1 {
        !b
    } else {
        b | 0x8000_0000_0000_0000u64
    }
}

/// `a == b` on the `f64` values.
pub open spec fn float_eq(a: u64, b: u64) -> bool {
    !float_is_nan(a) && !float_is_nan(b) && (a == b || (float_is_zero(a) && float_is_zero(b)))
}

/// `a < b` on the `f64` values.
pub open spec fn float_lt(a: u64, b: u64) -> bool {
    !float_is_nan(a) && !float_is_nan(b) && !(float_is_zero(a) && float_is_zero(b)) && float_order_key(a)
        < float_order_key(b)
}

fn is_nan(b: u64) -> (r: bool)
    ensures
        r == float_is_nan(b),
{
    (b >> 52u64) & 0x7ffu64 == 0x7ffu64 && b & 0xf_ffff_ffff_ffffu64 != 0
}

fn is_zero(b: u64) -> (r: bool)
    ensures
        r == float_is_zero(b),
{
    b & 0x7fff_ffff_ffff_ffffu64 == 0
}

fn order_key(b: u64) -> (k: u64)
    ensures
        k == float_order_key(b),
{
    if b >> 63u64 == 1 {
        !b
    } else {
        b | 0x8000_0000_0000_0000u64
    }
}

/// Whether the two `f64` values are equal.
pub fn float_equals(a: u64, b: u64) -> (r: bool)
    ensures
        r == float_eq(a, b),
{
    !is_nan(a) && !is_nan(b) && (a == b || (is_zero(a) && is_zero(b)))
}

/// Whether the first `f64` value is below the second.
pub fn float_less(a: u64, b: u64) -> (r: bool)
    ensures
        r == float_lt(a, b),
{
    !is_nan(a) && !is_nan(b) && !(is_zero(a) && is_zero(b)) && order_key(a) < order_key(b)
}

/// `<` on `f64` values is irreflexive and transitive, and never holds
/// together with `==`.
pub proof fn law_float_order(a: u64, b: u64, c: u64)
    ensures
        !float_lt(a, a),
        float_lt(a, b) && float_lt(b, c) ==> float_lt(a, c),
        !(float_lt(a, b) && float_eq(a, b)),
{
    if float_lt(a, b) && float_lt(b, c) && float_is_zero(a) && float_is_zero(c) {
        assert(float_order_key(a) < float_order_key(b) < float_order_key(c));
        assert(float_is_zero(a) && float_is_zero(c) ==> (float_order_key(a) == 0x7fff_ffff_ffff_ffffu64
            || float_order_key(a) == 0x8000_0000_0000_0000u64) && (float_order_key(c)
            == 0x7fff_ffff_ffff_ffffu64 || float_order_key(c) == 0x8000_0000_0000_0000u64)) by (bit_vector);
    }
    if float_lt(a, b) && float_eq(a, b) {
        assert(a != b);
        assert(float_is_zero(a) && float_is_zero(b) ==> (a == 0u64 || a == 0x8000_0000_0000_0000u64)) by (bit_vector);
        assert(float_is_zero(b) ==> (b == 0u64 || b == 0x8000_0000_0000_0000u64)) by (bit_vector);
        assert(float_order_key(0u64) == 0x8000_0000_0000_0000u64) by (bit_vector);
        assert(float_order_key(0x8000_0000_0000_0000u64) == 0x7fff_ffff_ffff_ffffu64) by (bit_vector);
    }
}

} // verus!
