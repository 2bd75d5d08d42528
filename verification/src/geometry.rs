//! The vector arithmetic of the engine, all of it done by `glam`.
//!
//! A `glam::Vec2` is carried through this crate as an opaque value. Nothing here
//! looks inside one: every sum, difference and normalisation is a call into
//! `glam`, and each such call is given a name below so that contracts can say
//! which vector a function hands back. Scalars leave `glam` as the bit pattern
//! of their binary32 number, which `crate::order` knows how to compare.
//!
//! Everything in this file but the last two functions is taken on trust:
//! Verus does not see `glam`'s code. A name claims no more than that `glam`
//! computes the same result from the same operands, as binary32 arithmetic
//! does; what the result is, `glam` alone says.
//!
//! One thing binary32 arithmetic does not fix: which of the patterns of a NaN
//! an operation yields. A vector is therefore taken up to which NaN a
//! component holds, and where a scalar leaves `glam` as a bit pattern, every
//! NaN is brought to one pattern ([`crate::order::canonical`]) before anything
//! is compared with it.
use vstd::prelude::*;
use glam::Vec2;
use crate::order::{canonical, canonical_bits, is_nan};

verus! {

/// Makes `glam::Vec2` known to Verus as a type whose values can be held and
/// passed on. Nothing is said of what a value holds.
#[verifier::external_type_specification]
#[verifier::external_body]
pub struct ExVec2(glam::Vec2);

/// The vector whose two components both hold `n` converted to binary32: what
/// `glam::UVec2::as_vec2` returns for the integer vector that holds `n` twice.
pub uninterp spec fn uniform(n: u32) -> Vec2;

/// What `glam` returns for `a + b`: the component-wise binary32 sum.
pub uninterp spec fn vec_sum(a: Vec2, b: Vec2) -> Vec2;

/// What `glam` returns for `a - b`: the component-wise binary32 difference.
pub uninterp spec fn vec_diff(a: Vec2, b: Vec2) -> Vec2;

/// What `glam` returns for `a * b`: the component-wise binary32 product.
pub uninterp spec fn vec_product(a: Vec2, b: Vec2) -> Vec2;

/// What `glam` returns for `a / b`: the component-wise binary32 quotient.
pub uninterp spec fn vec_quotient(a: Vec2, b: Vec2) -> Vec2;

/// What `glam::Vec2::length_squared` returns for `v`, as a bit pattern. Where
/// that is a NaN, this is the pattern of some NaN, and the call may hand back
/// another.
pub uninterp spec fn norm_squared(v: Vec2) -> u32;

/// What `glam::Vec2::normalize` returns for `v`.
pub uninterp spec fn unit(v: Vec2) -> Vec2;

/// What `glam::Vec2::normalize_or_zero` returns for `v`.
pub uninterp spec fn unit_or_zero(v: Vec2) -> Vec2;

/// The zero vector: both components positive zero.
pub open spec fn zero() -> Vec2 {
    uniform(0)
}

/// Bit pattern of the squared length of `v` as `glam` computes it, every NaN
/// brought to the canonical one.
pub open spec fn length_squared(v: Vec2) -> u32 {
    canonical(norm_squared(v))
}

/// Bit pattern of the squared distance between `a` and `b`, computed as `glam`
/// does: the squared length of `a - b`, every NaN brought to the canonical
/// one.
pub open spec fn dist_squared(a: Vec2, b: Vec2) -> u32 {
    length_squared(vec_diff(a, b))
}

/// Reads `glam::Vec2::ZERO`. Taken on trust: it is the vector that
/// [`uniform`] names for 0. Both of its components are positive zero, which is
/// what the integer zero converts to.
#[verifier::external_body]
pub(crate) fn zero_vec() -> (r: Vec2)
    ensures
        r == zero(),
{
    Vec2::ZERO
}

/// Calls `glam::UVec2::as_vec2` on the integer vector that holds `n` twice,
/// which converts each component to binary32 as `as` does. Taken on trust:
/// the result is the vector that [`uniform`] names for `n`.
#[verifier::external_body]
pub(crate) fn uniform_vec(n: u32) -> (r: Vec2)
    ensures
        r == uniform(n),
{
    glam::UVec2::splat(n).as_vec2()
}

/// Calls `glam`'s `Add` for two vectors. Taken on trust: the result is the
/// vector that [`vec_sum`] names for the operands.
#[verifier::external_body]
pub(crate) fn sum(a: Vec2, b: Vec2) -> (r: Vec2)
    ensures
        r == vec_sum(a, b),
{
    a + b
}

/// Calls `glam`'s `Sub` for two vectors. Taken on trust: the result is the
/// vector that [`vec_diff`] names for the operands.
#[verifier::external_body]
pub(crate) fn diff(a: Vec2, b: Vec2) -> (r: Vec2)
    ensures
        r == vec_diff(a, b),
{
    a - b
}

/// Calls `glam`'s `Mul` for two vectors, which multiplies component by
/// component. Taken on trust: the result is the vector that [`vec_product`]
/// names for the operands.
#[verifier::external_body]
pub(crate) fn product(a: Vec2, b: Vec2) -> (r: Vec2)
    ensures
        r == vec_product(a, b),
{
    a * b
}

/// Calls `glam`'s `Div` for two vectors, which divides component by
/// component. Taken on trust: the result is the vector that [`vec_quotient`]
/// names for the operands.
#[verifier::external_body]
pub(crate) fn quotient(a: Vec2, b: Vec2) -> (r: Vec2)
    ensures
        r == vec_quotient(a, b),
{
    a / b
}

/// Calls `glam::Vec2::length_squared` and hands its result back as the bit
/// pattern that `to_bits` gives. Taken on trust: where [`norm_squared`] names
/// a number for `v`, the result is its pattern; where it names a NaN, the
/// result is the pattern of a NaN, not said which.
#[verifier::external_body]
pub(crate) fn raw_length_squared_bits(v: Vec2) -> (r: u32)
    ensures
        is_nan(r) == is_nan(norm_squared(v)),
        !is_nan(r) ==> r == norm_squared(v),
{
    v.length_squared().to_bits()
}

/// `glam::Vec2::normalize`. Taken on trust: the result is the vector that
/// [`unit`] names for `v`, and the call returns for every `v`. (`glam` checks
/// that the result is finite only when built with its assertions, which this
/// crate does not ask for; for a vector without a direction the result is
/// not finite.)
pub assume_specification[ glam::Vec2::normalize ](v: glam::Vec2) -> (r: glam::Vec2)
    ensures
        r == unit(v),
;

/// `glam::Vec2::normalize_or_zero`. Taken on trust: the result is the vector
/// that [`unit_or_zero`] names for `v`.
pub assume_specification[ glam::Vec2::normalize_or_zero ](v: glam::Vec2) -> (r: glam::Vec2)
    ensures
        r == unit_or_zero(v),
;

/// Squared length of `v` as a bit pattern; a NaN comes back as the canonical
/// one, whichever `glam` handed out.
pub fn length_squared_bits(v: Vec2) -> (r: u32)
    ensures
        r == length_squared(v),
{
    canonical_bits(raw_length_squared_bits(v))
}

/// Squared distance between `a` and `b` as a bit pattern; a NaN comes back as
/// the canonical one.
pub fn distance_squared_bits(a: Vec2, b: Vec2) -> (r: u32)
    ensures
        r == dist_squared(a, b),
{
    length_squared_bits(diff(a, b))
}

} // verus!
