//! Edge weights.
//!
//! A weight is a `num::complex::Complex64`. The verifier sees such a value as
//! an opaque token: it can be stored, copied and compared for identity in
//! contracts, and nothing else. Every operation on weights is a call into
//! `num`, made by one of the small functions below; what each of them claims
//! about the call is written in its doc comment and is believed, not proved.
//!
//! Real numbers travel through the library as weights whose imaginary part is
//! zero. The only place where a number is looked into is
//! [`real_bits`], which hands out the IEEE-754 bit pattern of a real part so
//! that the tolerance tests can be ordinary, verified integer comparisons.
//!
//! IEEE-754 leaves the sign and the payload of a NaN open. The names below
//! take every NaN for one value, and no verified function tells one NaN
//! from another: the comparisons ask only whether a bit pattern lies in a
//! range that holds no NaN.

use vstd::prelude::*;
use num::complex::Complex64;
use num::traits::FloatConst;
use num::traits::One;
use num::traits::Zero;
use rand::Rng;

verus! {

/// `num::complex::Complex<T>`, declared so that it can stand in signatures
/// and fields. Its fields are hidden from the verifier.
#[verifier::external_type_specification]
#[verifier::external_body]
#[verifier::reject_recursive_types(T)]
pub struct ExComplex<T>(num::complex::Complex<T>);

/// The weight `re + im·i` for two integers that fit in an `i32`.
pub uninterp spec fn gaussian(re: int, im: int) -> Complex64;

/// The product `a * b` as `num` computes it.
pub uninterp spec fn product_of(a: Complex64, b: Complex64) -> Complex64;

/// The sum `a + b` as `num` computes it.
pub uninterp spec fn sum_of(a: Complex64, b: Complex64) -> Complex64;

/// The difference `a - b` as `num` computes it.
pub uninterp spec fn difference_of(a: Complex64, b: Complex64) -> Complex64;

/// Whether `a == b` holds for `num`'s comparison of two weights: both parts
/// compare equal as floating-point numbers.
pub uninterp spec fn same_value(a: Complex64, b: Complex64) -> bool;

/// The IEEE-754 bit pattern of the real part of `w`.
pub uninterp spec fn real_bits_of(w: Complex64) -> u64;

/// The squared magnitude of `w`, `re·re + im·im`, as a real weight.
pub uninterp spec fn squared_magnitude_of(w: Complex64) -> Complex64;

/// Both parts of `w` divided by the real part of `divisor`.
pub uninterp spec fn quotient_of(w: Complex64, divisor: Complex64) -> Complex64;

/// The weight 0.
pub open spec fn zero_weight() -> Complex64 {
    gaussian(0, 0)
}

/// The weight 1.
pub open spec fn one_weight() -> Complex64 {
    gaussian(1, 0)
}

/// The weight −1.
pub open spec fn minus_one_weight() -> Complex64 {
    gaussian(-1, 0)
}

/// The weight i.
pub open spec fn i_weight() -> Complex64 {
    gaussian(0, 1)
}

/// The weight −i.
pub open spec fn minus_i_weight() -> Complex64 {
    gaussian(0, -1)
}

/// Calls `Complex64::new` on the two integers converted to floating point
/// (`i32` to `f64` is exact). The result is a function of the two integers.
#[verifier::external_body]
pub(crate) fn gaussian_weight(re: i32, im: i32) -> (r: Complex64)
    ensures
        r == gaussian(re as int, im as int),
{
    Complex64::new(re.into(), im.into())
}

/// Calls `Mul::mul` of `num`'s complex numbers: two products and a
/// difference for the real part, two products and a sum for the imaginary
/// part, all in IEEE-754 arithmetic, so the result depends on the operands
/// alone.
#[verifier::external_body]
pub(crate) fn times(a: Complex64, b: Complex64) -> (r: Complex64)
    ensures
        r == product_of(a, b),
{
    a * b
}

/// Calls `Add::add` of `num`'s complex numbers: the parts are added
/// separately in IEEE-754 arithmetic.
#[verifier::external_body]
pub(crate) fn plus(a: Complex64, b: Complex64) -> (r: Complex64)
    ensures
        r == sum_of(a, b),
{
    a + b
}

/// Calls `Sub::sub` of `num`'s complex numbers: the parts are subtracted
/// separately in IEEE-754 arithmetic.
#[verifier::external_body]
pub(crate) fn minus(a: Complex64, b: Complex64) -> (r: Complex64)
    ensures
        r == difference_of(a, b),
{
    a - b
}

/// Calls `PartialEq::eq` of `num`'s complex numbers, which compares the two
/// parts as floating-point numbers.
#[verifier::external_body]
pub(crate) fn equal_weights(a: Complex64, b: Complex64) -> (r: bool)
    ensures
        r == same_value(a, b),
{
    a == b
}

/// Calls `Complex64::norm` and returns the magnitude as a real weight. The
/// magnitude comes from the platform's `hypot`, whose last digit may differ
/// from one platform to the next, so nothing is claimed about the result.
#[verifier::external_body]
pub(crate) fn magnitude(w: Complex64) -> (r: Complex64)
{
    Complex64::from(w.norm())
}

/// Calls `Complex64::norm_sqr`, which multiplies and adds in IEEE-754
/// arithmetic, and returns the result as a real weight.
#[verifier::external_body]
pub(crate) fn squared_magnitude(w: Complex64) -> (r: Complex64)
    ensures
        r == squared_magnitude_of(w),
{
    Complex64::new(w.norm_sqr(), Zero::zero())
}

/// Calls `Complex64::unscale` with the real part of `divisor`: each part of
/// `w` is divided by it in IEEE-754 arithmetic.
#[verifier::external_body]
pub(crate) fn divided(w: Complex64, divisor: Complex64) -> (r: Complex64)
    ensures
        r == quotient_of(w, divisor),
{
    w.unscale(divisor.re)
}

/// Draws a double from `rand`'s thread-local generator and returns it as a
/// real weight. `rand` documents that the draw is uniform in the half-open
/// range [0, 1), so its bit pattern is below that of 1.
#[verifier::external_body]
pub(crate) fn uniform_draw() -> (r: Complex64)
    ensures
        real_bits_of(r) < ONE_BITS,
{
    Complex64::new(rand::rng().random(), Zero::zero())
}

/// Calls `f64::to_bits` on the real part of `w`.
#[verifier::external_body]
pub(crate) fn real_bits(w: Complex64) -> (r: u64)
    ensures
        r == real_bits_of(w),
{
    w.re.to_bits()
}

/// Returns `FloatConst::FRAC_1_SQRT_2()` of `num`, the double nearest to
/// 1/√2, as a real weight: its real part has the bit pattern of that
/// double.
#[verifier::external_body]
pub(crate) fn inv_root_two() -> (r: Complex64)
    ensures
        real_bits_of(r) == INV_ROOT_TWO_BITS,
{
    Complex64::new(FloatConst::FRAC_1_SQRT_2(), Zero::zero())
}

/// Returns `FloatConst::FRAC_PI_4()` of `num`, the double nearest to π/4, as
/// a real weight: its real part has the bit pattern of that double.
#[verifier::external_body]
pub(crate) fn quarter_pi() -> (r: Complex64)
    ensures
        real_bits_of(r) == QUARTER_PI_BITS,
{
    Complex64::new(FloatConst::FRAC_PI_4(), Zero::zero())
}

/// Calls `Complex64::from_polar` with radius 1 and the real part of `angle`
/// as the angle. The result comes from the platform's `sin` and `cos`, so
/// nothing is claimed about it.
#[verifier::external_body]
pub(crate) fn unit_phase(angle: Complex64) -> (r: Complex64)
{
    Complex64::from_polar(One::one(), angle.re)
}

/// The difference `a - b`. Where two weights are compared, this is what the
/// platform is asked to take the magnitude of.
pub fn difference(a: Complex64, b: Complex64) -> (r: Complex64)
    ensures
        r == difference_of(a, b),
{
    minus(a, b)
}

/// The bit pattern of the tolerance 1e-12, as a double.
pub const TOLERANCE_BITS: u64 = 0x3D71_9799_812D_EA11;

/// The bit pattern of the double nearest to 1/√2.
pub const INV_ROOT_TWO_BITS: u64 = 0x3FE6_A09E_667F_3BCD;

/// The bit pattern of the double nearest to π/4.
pub const QUARTER_PI_BITS: u64 = 0x3FE9_21FB_5444_2D18;

/// The bit pattern of 1, as a double.
pub const ONE_BITS: u64 = 0x3FF0_0000_0000_0000;

/// The bit pattern of +∞, as a double. Larger patterns with a clear sign bit
/// are NaNs.
pub const INFINITY_BITS: u64 = 0x7FF0_0000_0000_0000;

/// Whether a magnitude with these bits is less than the tolerance.
///
/// A magnitude is never negative, and the bit patterns of non-negative
/// doubles are ordered as the doubles are; a NaN has a larger pattern than
/// every number, and is less than nothing.
pub open spec fn is_below_tolerance(magnitude_bits: u64) -> bool {
    magnitude_bits < TOLERANCE_BITS
}

/// Whether a magnitude with these bits is greater than the tolerance. A NaN
/// is greater than nothing.
pub open spec fn is_above_tolerance(magnitude_bits: u64) -> bool {
    TOLERANCE_BITS < magnitude_bits <= INFINITY_BITS
}

/// Decides `magnitude < 1e-12` from the magnitude's bit pattern.
pub fn below_tolerance(magnitude_bits: u64) -> (r: bool)
    ensures
        r == is_below_tolerance(magnitude_bits),
{
    magnitude_bits < TOLERANCE_BITS
}

/// Decides `magnitude > 1e-12` from the magnitude's bit pattern.
pub fn above_tolerance(magnitude_bits: u64) -> (r: bool)
    ensures
        r == is_above_tolerance(magnitude_bits),
{
    TOLERANCE_BITS < magnitude_bits && magnitude_bits <= INFINITY_BITS
}

} // verus!
