//! The complex arithmetic of `num_complex`, on `i128` components.
use num_complex::Complex;
use vstd::prelude::*;

verus! {

#[verifier::external_type_specification]
#[verifier::reject_recursive_types(T)]
pub struct ExComplex<T>(Complex<T>);

/// Relies on `num_complex::Complex::new`: the parts are stored as given.
pub assume_specification<T>[ Complex::<T>::new ](re: T, im: T) -> (r: Complex<T>)
    ensures
        r.re == re,
        r.im == im,
;

/// The value `a` takes in an `i128`.
pub open spec fn fits_i128(a: int) -> bool {
    i128::MIN <= a <= i128::MAX
}

/// Relies on `Complex * Complex` of `num_complex`: `(a + bi)(c + di) = (ac - bd) + (ad + bc)i`,
/// computed part by part in `i128`.
#[verifier::external_body]
pub(crate) fn complex_mul(a: Complex<i128>, b: Complex<i128>) -> (r: Complex<i128>)
    requires
        fits_i128(a.re * b.re),
        fits_i128(a.im * b.im),
        fits_i128(a.re * b.re - a.im * b.im),
        fits_i128(a.re * b.im),
        fits_i128(a.im * b.re),
        fits_i128(a.re * b.im + a.im * b.re),
    ensures
        r.re == a.re * b.re - a.im * b.im,
        r.im == a.re * b.im + a.im * b.re,
{
    a * b
}

/// Relies on `Complex + Complex` of `num_complex`: the parts are added one by one in `i128`.
#[verifier::external_body]
pub(crate) fn complex_add(a: Complex<i128>, b: Complex<i128>) -> (r: Complex<i128>)
    requires
        fits_i128(a.re + b.re),
        fits_i128(a.im + b.im),
    ensures
        r.re == a.re + b.re,
        r.im == a.im + b.im,
{
    a + b
}

/// Division that rounds toward zero, as `/` on Rust's signed integers does.
pub open spec fn trunc_div(a: int, d: int) -> int {
    if a >= 0 {
        a / d
    } else {
        -((-a) / d)
    }
}

/// Relies on `num_complex::Complex::unscale`: each part is divided by `t` with `i128`'s `/`,
/// which rounds toward zero.
#[verifier::external_body]
pub(crate) fn unscale(a: Complex<i128>, t: i128) -> (r: Complex<i128>)
    requires
        t > 0,
    ensures
        r.re == trunc_div(a.re as int, t as int),
        r.im == trunc_div(a.im as int, t as int),
{
    a.unscale(t)
}

/// Relies on `num_complex::Complex::norm_sqr`: `re * re + im * im`, computed in `i128`.
#[verifier::external_body]
pub(crate) fn norm_sqr(a: &Complex<i128>) -> (r: i128)
    requires
        fits_i128(a.re * a.re),
        fits_i128(a.im * a.im),
        fits_i128(a.re * a.re + a.im * a.im),
    ensures
        r == a.re * a.re + a.im * a.im,
{
    a.norm_sqr()
}

} // verus!
