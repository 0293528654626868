//! IEEE-754 binary64 predicates and ordering, stated on bit patterns.
//!
//! A value `x: f64` is represented by `x.to_bits()`. The predicates below
//! describe, on those bits, what `f64::is_nan`, `f64::is_finite`, `<`, `<=`
//! and `f64::total_cmp` compute.

use vstd::prelude::*;

verus! {

/// The eleven exponent bits.
pub open spec fn exponent_of(b: u64) -> u64 {
    (b >> 52u64) & 0x7ffu64
}

/// The fifty-two fraction bits.
pub open spec fn fraction_of(b: u64) -> u64 {
    b & 0x000f_ffff_ffff_ffffu64
}

/// `f64::from_bits(b).is_nan()`.
pub open spec fn is_nan_bits(b: u64) -> bool {
    exponent_of(b) == 0x7ffu64 && fraction_of(b) != 0
}

/// `f64::from_bits(b).is_finite()`.
pub open spec fn is_finite_bits(b: u64) -> bool {
    exponent_of(b) != 0x7ffu64
}

/// `f64::from_bits(b) == 0.0` (both signed zeros).
pub open spec fn is_zero_bits(b: u64) -> bool {
    b & 0x7fff_ffff_ffff_ffffu64 == 0
}

/// The key under which unsigned integer order is the order of `f64::total_cmp`.
pub open spec fn total_key(b: u64) -> u64 {
    if b >> 63u64 == 1 {
        !b
    } else {
        b | 0x8000_0000_0000_0000u64
    }
}

/// `f64::from_bits(a) < f64::from_bits(b)`.
pub open spec fn lt_bits(a: u64, b: u64) -> bool {
    !is_nan_bits(a) && !is_nan_bits(b) && total_key(a) < total_key(b) && !(is_zero_bits(a)
        && is_zero_bits(b))
}

/// `f64::from_bits(a) <= f64::from_bits(b)`.
pub open spec fn le_bits(a: u64, b: u64) -> bool {
    !is_nan_bits(a) && !is_nan_bits(b) && (total_key(a) <= total_key(b) || (is_zero_bits(a)
        && is_zero_bits(b)))
}

/// `f64::from_bits(b).is_finite() && f64::from_bits(b) >= 0.0`.
pub open spec fn is_finite_nonneg_bits(b: u64) -> bool {
    is_finite_bits(b) && (b >> 63u64 == 0 || is_zero_bits(b))
}

/// Whether the value is NaN.
pub fn is_nan(b: u64) -> (r: bool)
    ensures
        r == is_nan_bits(b),
{
    ((b >> 52u64) & 0x7ffu64) == 0x7ffu64 && (b & 0x000f_ffff_ffff_ffffu64) != 0
}

/// Whether the value is finite (neither infinite nor NaN).
pub fn is_finite(b: u64) -> (r: bool)
    ensures
        r == is_finite_bits(b),
{
    ((b >> 52u64) & 0x7ffu64) != 0x7ffu64
}

/// Whether the value is finite and not below zero.
pub fn is_finite_nonneg(b: u64) -> (r: bool)
    ensures
        r == is_finite_nonneg_bits(b),
{
    is_finite(b) && ((b >> 63u64) == 0 || (b & 0x7fff_ffff_ffff_ffffu64) == 0)
}

/// The total-order key of a value.
pub fn total_order_key(b: u64) -> (r: u64)
    ensures
        r == total_key(b),
{
    if (b >> 63u64) == 1 {
        !b
    } else {
        b | 0x8000_0000_0000_0000u64
    }
}

/// `f64::from_bits(a) < f64::from_bits(b)`.
pub fn lt(a: u64, b: u64) -> (r: bool)
    ensures
        r == lt_bits(a, b),
{
    !is_nan(a) && !is_nan(b) && total_order_key(a) < total_order_key(b) && !((a
        & 0x7fff_ffff_ffff_ffffu64) == 0 && (b & 0x7fff_ffff_ffff_ffffu64) == 0)
}

/// `f64::from_bits(a) <= f64::from_bits(b)`.
pub fn le(a: u64, b: u64) -> (r: bool)
    ensures
        r == le_bits(a, b),
{
    !is_nan(a) && !is_nan(b) && (total_order_key(a) <= total_order_key(b) || ((a
        & 0x7fff_ffff_ffff_ffffu64) == 0 && (b & 0x7fff_ffff_ffff_ffffu64) == 0))
}

// -- order facts ------------------------------------------------------------------

/// The two zeros, and only they, have the two middle keys.
proof fn lemma_zero_keys(a: u64)
    by (bit_vector)
    ensures
        is_zero_bits(a) <==> (total_key(a) == 0x7fff_ffff_ffff_ffffu64 || total_key(a)
            == 0x8000_0000_0000_0000u64),
{
}

/// Between numbers, `a < b` exactly when not `b <= a`.
pub proof fn lemma_lt_not_le(a: u64, b: u64)
    requires
        !is_nan_bits(a),
        !is_nan_bits(b),
    ensures
        lt_bits(a, b) <==> !le_bits(b, a),
{
}

/// `<` implies `<=`, and `<=` is reflexive on numbers.
pub proof fn lemma_lt_implies_le(a: u64, b: u64)
    ensures
        lt_bits(a, b) ==> le_bits(a, b),
        !is_nan_bits(a) ==> le_bits(a, a),
{
}

/// `<` and `<=` chain as on the reals.
pub proof fn lemma_order_trans(a: u64, b: u64, c: u64)
    ensures
        lt_bits(a, b) && lt_bits(b, c) ==> lt_bits(a, c),
        lt_bits(a, b) && le_bits(b, c) ==> lt_bits(a, c),
        le_bits(a, b) && lt_bits(b, c) ==> lt_bits(a, c),
        le_bits(a, b) && le_bits(b, c) ==> le_bits(a, c),
{
    lemma_zero_keys(a);
    lemma_zero_keys(b);
    lemma_zero_keys(c);
}

/// The bit pattern whose total-order key is `k`.
pub open spec fn key_inverse(k: u64) -> u64 {
    if k >> 63u64 == 1 {
        k & 0x7fff_ffff_ffff_ffffu64
    } else {
        !k
    }
}

/// Keys determine their values.
pub proof fn lemma_key_inverse(b: u64)
    by (bit_vector)
    ensures
        key_inverse(total_key(b)) == b,
{
}

/// The value with total-order key `k`.
pub fn from_total_order_key(k: u64) -> (r: u64)
    ensures
        r == key_inverse(k),
{
    if (k >> 63u64) == 1 {
        k & 0x7fff_ffff_ffff_ffffu64
    } else {
        !k
    }
}

} // verus!
