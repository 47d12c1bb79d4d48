//! The trusted boundary to the `num` crate's complex arithmetic.
//!
//! A sample is a `num::complex::Complex32` value, opaque to the verifier.
//! The results of the arithmetic the transform needs are given names by
//! uninterpreted spec functions; every contract of the library speaks of
//! those names, so the whole structure of the transform is pinned down
//! even though the verifier never looks inside a sample.

use vstd::prelude::*;
use num::complex::Complex32;

verus! {

/// `num`'s complex number type, declared so that it can stand in
/// signatures and fields. A value of it is opaque to the verifier.
#[verifier::external_type_specification]
#[verifier::external_body]
#[verifier::reject_recursive_types(T)]
pub struct ExComplex<T>(num::complex::Complex<T>);

/// The sum of two samples, exactly as `Complex::add` computes it.
pub uninterp spec fn add_of(a: Complex32, b: Complex32) -> Complex32;

/// The product of two samples, exactly as `Complex::mul` computes it.
pub uninterp spec fn mul_of(a: Complex32, b: Complex32) -> Complex32;

/// The twiddle factor `e^(-2*pi*i*k/n)`, exactly as `Complex::from_polar`
/// computes it from radius one and the single-precision angle `-2*pi*k/n`.
pub uninterp spec fn twiddle_of(k: int, n: int) -> Complex32;

/// Relies on `Complex::add` of the `num` crate: componentwise addition.
#[verifier::external_body]
pub(crate) fn c_add(a: &Complex32, b: &Complex32) -> (r: Complex32)
    ensures
        r == add_of(*a, *b),
{
    *a + *b
}

/// Relies on `Complex::mul` of the `num` crate: complex multiplication.
#[verifier::external_body]
pub(crate) fn c_mul(a: &Complex32, b: &Complex32) -> (r: Complex32)
    ensures
        r == mul_of(*a, *b),
{
    *a * *b
}

/// Relies on `Complex::from_polar` of the `num` crate: builds the
/// unit-magnitude twiddle factor for the angle `-2*pi*k/n`. The result
/// depends on `k` and `n` alone, so it carries the name `twiddle_of`.
#[verifier::external_body]
pub(crate) fn twiddle_factor(k: u64, n: u64) -> (r: Complex32)
    requires
        1 <= n,
    ensures
        r == twiddle_of(k as int, n as int),
{
    let kf: <Complex32 as num::complex::ComplexFloat>::Real = num::traits::cast(k).unwrap();
    let nf: <Complex32 as num::complex::ComplexFloat>::Real = num::traits::cast(n).unwrap();
    let tau: <Complex32 as num::complex::ComplexFloat>::Real = num::traits::FloatConst::TAU();
    Complex32::from_polar(num::traits::one(), -(tau * kf / nf))
}

/// Relies on `Complex::clone` of the `num` crate: an identical copy of
/// the sample.
#[verifier::external_body]
pub(crate) fn c_dup(a: &Complex32) -> (r: Complex32)
    ensures
        r == *a,
{
    a.clone()
}

/// Relies on `Zero::zero` of the `num` crate. It only fills scratch
/// storage whose contents the contracts leave unspecified, so nothing is
/// stated of the value.
#[verifier::external_body]
pub(crate) fn c_zero() -> Complex32 {
    num::traits::zero()
}

} // verus!
