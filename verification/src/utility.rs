//! Angle conversion, clamping and uniform random numbers.
use const_soft_float::soft_f32::SoftF32;
use crate::pattern::{magnitude, scaled_magnitude};
use crate::power::two_to;
use crate::product::lemma_product_bound;
use crate::scalar::{Scalar, ONE, PI};
use crate::sum::lemma_sum_bound;
use rand::Rng;
use rand::rngs::ThreadRng;
use vstd::prelude::*;

verus! {

/// 180.0
pub const HALF_TURN: u32 = 0x4334_0000;

/// A random number between 0 and 1 is a whole number of steps of 2^-24:
/// that is 2^125 of the steps of 2^-149 in which all numbers are whole.
pub const UNIT_STEP: u32 = 125;

/// The generator of rand that is local to a thread.
#[verifier::external_type_specification]
#[verifier::external_body]
pub struct ExThreadRng(rand::rngs::ThreadRng);

/// Calls `Rng::gen` of rand for a binary32 number and hands back its bit
/// pattern. rand draws it from the half-open interval from 0 to 1, so the
/// pattern lies below that of 1.0; and rand makes it of 24 random bits, as a
/// whole number of steps of 2^-24.
#[verifier::external_body]
fn draw_unit(rng: &mut ThreadRng) -> (r: u32)
    ensures
        r < ONE,
        scaled_magnitude(r) % two_to(UNIT_STEP as nat) == 0,
{
    SoftF32::from_f32(rng.gen()).to_bits()
}

/// An angle in degrees as radians: `degrees * pi / 180`.
pub open spec fn radians(degrees: Scalar) -> Scalar {
    degrees.times(Scalar(PI)).over(Scalar(HALF_TURN))
}

/// `x` where it lies between the bounds, else the bound that it passed. A
/// NaN passes none.
pub open spec fn clamped(x: Scalar, min: Scalar, max: Scalar) -> Scalar {
    if x.less(min) {
        min
    } else if max.less(x) {
        max
    } else {
        x
    }
}

/// The point of the interval from `min` to `max` that a number `unit` between
/// 0 and 1 picks: `min + (max - min) * unit`.
pub open spec fn spread(min: Scalar, max: Scalar, unit: Scalar) -> Scalar {
    min.plus(max.minus(min).times(unit))
}

/// Whether a number is 0 or more and less than 1.
pub open spec fn is_unit(u: Scalar) -> bool {
    u.0 < ONE
}

/// Whether a number is one that the generator gives: 0 or more, less than 1,
/// and a whole number of steps of 2^-24.
pub open spec fn is_unit_draw(u: Scalar) -> bool {
    is_unit(u) && scaled_magnitude(u.0) % two_to(UNIT_STEP as nat) == 0
}

/// A number that is brought into an interval lies in it, where the interval is
/// not empty and the number is no NaN.
pub proof fn lemma_clamped_in_range(x: Scalar, min: Scalar, max: Scalar)
    requires
        min.at_most(max),
        !x.is_nan(),
    ensures
        min.at_most(clamped(x, min, max)),
        clamped(x, min, max).at_most(max),
{
}

/// A number between 0 and 1, mapped into an interval between bounds that lie
/// between -1 and 1, is finite.
pub proof fn lemma_spread_is_finite(min: Scalar, max: Scalar, unit: Scalar)
    requires
        magnitude(min.0) <= ONE,
        magnitude(max.0) <= ONE,
        is_unit(unit),
    ensures
        spread(min, max, unit).is_finite(),
{
    let width = max.minus(min);
    lemma_sum_bound(max.0, min.negated().0, 127);
    lemma_product_bound(width.0, unit.0, 130, 126);
    lemma_sum_bound(min.0, width.times(unit).0, 131);
}

/// Converts an angle from degrees to radians.
pub fn degrees_to_radians(degrees: Scalar) -> (r: Scalar)
    ensures
        r == radians(degrees),
{
    degrees * Scalar(PI) / Scalar(HALF_TURN)
}

/// Brings `x` into the interval from `min` to `max`.
pub fn clamp(x: Scalar, min: Scalar, max: Scalar) -> (r: Scalar)
    ensures
        r == clamped(x, min, max),
{
    if x.lt(min) {
        return min;
    }
    if x.gt(max) {
        return max;
    }
    x
}

/// Maps a number between 0 and 1 into the interval from `min` to `max`.
pub fn spread_over(min: Scalar, max: Scalar, unit: Scalar) -> (r: Scalar)
    ensures
        r == spread(min, max, unit),
{
    min + (max - min) * unit
}

/// A uniform random number that is 0 or more and less than 1: one of the
/// 2^24 whole numbers of steps of 2^-24 in that interval.
pub fn random_double(rng: &mut ThreadRng) -> (r: Scalar)
    ensures
        is_unit_draw(r),
        is_unit(r),
        Scalar(0).at_most(r),
        r.less(Scalar(ONE)),
{
    Scalar(draw_unit(rng))
}

/// A random number between `min` and `max`: a uniform random number that is
/// 0 or more and less than 1, mapped into that interval.
pub fn random_double_range(rng: &mut ThreadRng, min: Scalar, max: Scalar) -> (r: Scalar)
    ensures
        exists|u: Scalar| is_unit(u) && r == #[trigger] spread(min, max, u),
{
    let u = random_double(rng);
    let r = spread_over(min, max, u);
    assert(is_unit(u) && r == spread(min, max, u));
    r
}

} // verus!
