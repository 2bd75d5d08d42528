//! Orders on binary32 numbers, read off their bit patterns.
//!
//! A scalar reaches this crate as the `u32` that holds the bits of an IEEE 754
//! binary32 number: one sign bit, then 31 bits of magnitude. Three relations
//! on such patterns are used by the engine, and all three are decided here
//! with integer arithmetic alone:
//!
//! * [`less`], the `<` of IEEE 754, for which no NaN is below or above anything
//!   and the two zeros are equal;
//! * [`nearer`], the same with every NaN counted as farther than any number;
//! * the total order given by [`total_key`], in which the patterns run from the
//!   negative NaNs through the numbers to the positive NaNs.
//!
//! Which of its many patterns a NaN has is decided by the machine that made
//! it. [`canonical`] takes that choice away: it maps every NaN to one pattern,
//! which stands above every number in the total order.
use vstd::prelude::*;
use std::cmp::Ordering;

verus! {

/// The sign bit; every pattern from here on up has it set.
pub const SIGN_BIT: u32 = 0x8000_0000;

/// Pattern of positive infinity. A magnitude above it belongs to a NaN.
pub const INFINITY_BITS: u32 = 0x7f80_0000;

/// The one pattern that [`canonical`] gives to every NaN: a positive quiet NaN.
pub const CANONICAL_NAN: u32 = 0x7fc0_0000;

/// The pattern without its sign bit.
pub open spec fn magnitude(bits: u32) -> int {
    if bits < SIGN_BIT {
        bits as int
    } else {
        bits - SIGN_BIT
    }
}

/// Whether the pattern is that of a NaN.
pub open spec fn is_nan(bits: u32) -> bool {
    magnitude(bits) > INFINITY_BITS
}

/// An integer that orders the patterns of numbers as the numbers themselves
/// are ordered. Both zeros have key 0.
pub open spec fn numeric_key(bits: u32) -> int {
    if bits < SIGN_BIT {
        magnitude(bits)
    } else {
        -magnitude(bits)
    }
}

/// An integer that orders all patterns as the total order of IEEE 754 does:
/// negative zero is below positive zero, and a NaN is below or above every
/// number according to its sign.
pub open spec fn total_key(bits: u32) -> int {
    if bits < SIGN_BIT {
        magnitude(bits)
    } else {
        -magnitude(bits) - 1
    }
}

/// The pattern itself if it is that of a number, [`CANONICAL_NAN`] if it is
/// that of a NaN. The result is a NaN exactly when the pattern is, so nothing
/// changes for [`less`] and [`nearer`]; in the total order every NaN then
/// stands above every number.
pub open spec fn canonical(bits: u32) -> u32 {
    if is_nan(bits) {
        CANONICAL_NAN
    } else {
        bits
    }
}

/// `a < b` as IEEE 754 defines it for the numbers with these patterns.
pub open spec fn less(a: u32, b: u32) -> bool {
    !is_nan(a) && !is_nan(b) && numeric_key(a) < numeric_key(b)
}

/// `a` is a number and `b` is a greater number or a NaN.
pub open spec fn nearer(a: u32, b: u32) -> bool {
    !is_nan(a) && (is_nan(b) || numeric_key(a) < numeric_key(b))
}

/// Computes [`magnitude`].
fn magnitude_of(bits: u32) -> (m: u32)
    ensures
        m == magnitude(bits),
{
    if bits < SIGN_BIT {
        bits
    } else {
        bits - SIGN_BIT
    }
}

/// Computes [`numeric_key`].
fn numeric_rank(bits: u32) -> (k: i64)
    ensures
        k == numeric_key(bits),
{
    let m: i64 = magnitude_of(bits) as i64;
    if bits < SIGN_BIT {
        m
    } else {
        -m
    }
}

/// Computes [`total_key`].
fn total_rank(bits: u32) -> (k: i64)
    ensures
        k == total_key(bits),
{
    let m: i64 = magnitude_of(bits) as i64;
    if bits < SIGN_BIT {
        m
    } else {
        -m - 1
    }
}

/// Decides [`is_nan`].
pub fn is_nan_bits(bits: u32) -> (r: bool)
    ensures
        r == is_nan(bits),
{
    magnitude_of(bits) > INFINITY_BITS
}

/// Computes [`canonical`].
pub fn canonical_bits(bits: u32) -> (r: u32)
    ensures
        r == canonical(bits),
{
    if is_nan_bits(bits) {
        CANONICAL_NAN
    } else {
        bits
    }
}

/// Decides [`less`].
pub fn less_than(a: u32, b: u32) -> (r: bool)
    ensures
        r == less(a, b),
{
    !is_nan_bits(a) && !is_nan_bits(b) && numeric_rank(a) < numeric_rank(b)
}

/// Decides [`nearer`].
pub fn nearer_than(a: u32, b: u32) -> (r: bool)
    ensures
        r == nearer(a, b),
{
    !is_nan_bits(a) && (is_nan_bits(b) || numeric_rank(a) < numeric_rank(b))
}

/// Compares two patterns in the total order, keys first.
pub fn total_cmp(a: u32, b: u32) -> (o: Ordering)
    ensures
        (o == Ordering::Less) == (total_key(a) < total_key(b)),
        (o == Ordering::Equal) == (a == b),
        (o == Ordering::Greater) == (total_key(a) > total_key(b)),
{
    let ka: i64 = total_rank(a);
    let kb: i64 = total_rank(b);
    if ka < kb {
        Ordering::Less
    } else if ka == kb {
        Ordering::Equal
    } else {
        Ordering::Greater
    }
}

/// Whether the pattern is one that a squared distance can have: that of a
/// number from positive zero up to positive infinity, or the canonical NaN.
pub open spec fn is_distance(bits: u32) -> bool {
    bits <= INFINITY_BITS || bits == CANONICAL_NAN
}

/// On such patterns [`nearer`] is the total order: a NaN is farthest in both.
pub proof fn lemma_nearer_is_total_on_distances(a: u32, b: u32)
    requires
        is_distance(a),
        is_distance(b),
    ensures
        nearer(a, b) == (total_key(a) < total_key(b)),
{
}

} // verus!
