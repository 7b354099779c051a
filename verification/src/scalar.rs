//! Binary32 numbers held by their bit patterns.
//!
//! Order, sign, whole parts, sums, products, quotients and square roots are
//! computed on the bits and proved in this crate. Sines and cosines are
//! computed in software by `const_soft_float`; what it returns is named, not
//! spelled out.
use const_soft_float::soft_f32::SoftF32;
use core::ops::Neg;
use crate::convert::{clipped, integer_part, nearest, nearest_bits, truncate};
use crate::pattern::{
    lemma_order_of_values, magnitude, scaled_value, signed_magnitude, without_sign, INFINITY, SIGN,
};
use crate::product::{multiply, product_of};
use crate::quotient::{divide, quotient_of};
use crate::root::{root_of, square_root};
use crate::sum::{add_up, sum_of};
use vstd::prelude::*;

verus! {

/// 0.0
pub const ZERO: u32 = 0x0000_0000;

/// 1.0
pub const ONE: u32 = 0x3f80_0000;

/// -1.0
pub const MINUS_ONE: u32 = 0xbf80_0000;

/// 2.0
pub const TWO: u32 = 0x4000_0000;

/// 0.5
pub const HALF: u32 = 0x3f00_0000;

/// The nearest binary32 number to pi.
pub const PI: u32 = 0x4049_0fdb;

/// The gap between 1.0 and the next larger number, 2^-23.
pub const EPSILON: u32 = 0x3400_0000;

/// The most negative finite number.
pub const MIN: u32 = 0xff7f_ffff;

/// The sine of an angle in radians, as `SoftF32::sin` computes it.
pub uninterp spec fn float_sin(a: u32) -> u32;

/// The cosine of an angle in radians, as `SoftF32::cos` computes it.
pub uninterp spec fn float_cos(a: u32) -> u32;

/// Calls `SoftF32::sin`. The result is the named sine.
#[verifier::external_body]
fn soft_sin(a: u32) -> (r: u32)
    ensures
        r == float_sin(a),
{
    SoftF32::from_bits(a).sin().to_bits()
}

/// Calls `SoftF32::cos`. The result is the named cosine.
#[verifier::external_body]
fn soft_cos(a: u32) -> (r: u32)
    ensures
        r == float_cos(a),
{
    SoftF32::from_bits(a).cos().to_bits()
}

/// A binary32 number. The field is its bit pattern: one sign bit, eight
/// exponent bits, twenty-three fraction bits.
#[derive(Clone, Copy, Debug)]
pub struct Scalar(pub u32);

impl Scalar {
    /// Neither a zero, a number nor an infinity.
    pub open spec fn is_nan(self) -> bool {
        magnitude(self.0) > INFINITY
    }

    /// Positive or negative zero.
    pub open spec fn is_zero(self) -> bool {
        magnitude(self.0) == 0
    }

    /// A zero or a number: neither an infinity nor a NaN.
    pub open spec fn is_finite(self) -> bool {
        magnitude(self.0) < INFINITY
    }

    /// Where the number stands among the others: patterns that are not NaNs
    /// are ordered as their keys are, and both zeros have key 0.
    pub open spec fn key(self) -> int {
        signed_magnitude(self.0)
    }

    /// `self < rhs`. False when either is a NaN.
    pub open spec fn less(self, rhs: Scalar) -> bool {
        !self.is_nan() && !rhs.is_nan() && self.key() < rhs.key()
    }

    /// `self <= rhs`. False when either is a NaN.
    pub open spec fn at_most(self, rhs: Scalar) -> bool {
        !self.is_nan() && !rhs.is_nan() && self.key() <= rhs.key()
    }

    /// `self == rhs` as numbers: the two zeros are the same, a NaN is the
    /// same as nothing.
    pub open spec fn same(self, rhs: Scalar) -> bool {
        !self.is_nan() && !rhs.is_nan() && self.key() == rhs.key()
    }

    /// `-self`: the pattern with its sign bit flipped.
    pub open spec fn negated(self) -> Scalar {
        if self.0 >= SIGN {
            Scalar((self.0 - SIGN) as u32)
        } else {
            Scalar((self.0 + SIGN) as u32)
        }
    }

    /// The number without its sign.
    pub open spec fn absolute(self) -> Scalar {
        Scalar(magnitude(self.0))
    }

    /// `self + rhs`
    pub open spec fn plus(self, rhs: Scalar) -> Scalar {
        Scalar(sum_of(self.0, rhs.0))
    }

    /// `self - rhs`, which is `self + (-rhs)`.
    pub open spec fn minus(self, rhs: Scalar) -> Scalar {
        self.plus(rhs.negated())
    }

    /// `self * rhs`
    pub open spec fn times(self, rhs: Scalar) -> Scalar {
        Scalar(product_of(self.0, rhs.0))
    }

    /// `self / rhs`
    pub open spec fn over(self, rhs: Scalar) -> Scalar {
        Scalar(quotient_of(self.0, rhs.0))
    }

    /// The square root.
    pub open spec fn root(self) -> Scalar {
        Scalar(root_of(self.0))
    }

    /// The sine of `self` radians.
    pub open spec fn sine(self) -> Scalar {
        Scalar(float_sin(self.0))
    }

    /// The cosine of `self` radians.
    pub open spec fn cosine(self) -> Scalar {
        Scalar(float_cos(self.0))
    }

    /// The tangent of `self` radians, taken as sine over cosine.
    pub open spec fn tangent(self) -> Scalar {
        self.sine().over(self.cosine())
    }

    /// The smaller of two numbers. A NaN gives way to the other operand, and
    /// of two equal numbers the first is kept.
    pub open spec fn smaller(self, rhs: Scalar) -> Scalar {
        if rhs.less(self) || self.is_nan() {
            rhs
        } else {
            self
        }
    }

    /// The larger of two numbers. A NaN gives way to the other operand, and
    /// of two equal numbers the first is kept.
    pub open spec fn larger(self, rhs: Scalar) -> Scalar {
        if self.less(rhs) || self.is_nan() {
            rhs
        } else {
            self
        }
    }

    /// The number nearest to the whole number `n`.
    pub open spec fn of_int(n: i32) -> Scalar {
        Scalar(nearest_bits(n as int) as u32)
    }

    /// The whole part of the number: 0 for a NaN, and the nearest bound for a
    /// number beyond the range of `i32`.
    pub open spec fn truncated(self) -> i32 {
        clipped(integer_part(self.0))
    }

    /// Finite numbers are ordered as the values that their patterns stand
    /// for.
    pub proof fn lemma_order_is_order_of_values(self, rhs: Scalar)
        requires
            self.is_finite(),
            rhs.is_finite(),
        ensures
            self.less(rhs) <==> scaled_value(self.0) < scaled_value(rhs.0),
            self.at_most(rhs) <==> scaled_value(self.0) <= scaled_value(rhs.0),
            self.same(rhs) <==> scaled_value(self.0) == scaled_value(rhs.0),
    {
        lemma_order_of_values(self.0, rhs.0);
    }

    /// The number with the given bit pattern.
    pub fn from_bits(bits: u32) -> (r: Scalar)
        ensures
            r == Scalar(bits),
    {
        Scalar(bits)
    }

    /// The bit pattern of the number.
    pub fn to_bits(self) -> (r: u32)
        ensures
            r == self.0,
    {
        self.0
    }

    /// The number nearest to a whole number.
    pub fn from_i32(n: i32) -> (r: Scalar)
        ensures
            r == Scalar::of_int(n),
    {
        Scalar(nearest(n))
    }

    /// The whole part of the number.
    pub fn to_i32(self) -> (r: i32)
        ensures
            r == self.truncated(),
    {
        truncate(self.0)
    }

    fn order_key(self) -> (r: i64)
        ensures
            r == self.key(),
    {
        if self.0 >= SIGN {
            let m: u32 = self.0 - SIGN;
            -(m as i64)
        } else {
            self.0 as i64
        }
    }

    /// The number without its sign.
    pub fn abs(self) -> (r: Scalar)
        ensures
            r == self.absolute(),
    {
        Scalar(without_sign(self.0))
    }

    /// Whether the number is a NaN.
    pub fn nan(self) -> (r: bool)
        ensures
            r == self.is_nan(),
    {
        without_sign(self.0) > INFINITY
    }

    /// Whether the number is a zero or a number, not an infinity or a NaN.
    pub fn finite(self) -> (r: bool)
        ensures
            r == self.is_finite(),
    {
        without_sign(self.0) < INFINITY
    }

    /// `self < rhs`
    pub fn lt(self, rhs: Scalar) -> (r: bool)
        ensures
            r == self.less(rhs),
    {
        !self.nan() && !rhs.nan() && self.order_key() < rhs.order_key()
    }

    /// `self <= rhs`
    pub fn le(self, rhs: Scalar) -> (r: bool)
        ensures
            r == self.at_most(rhs),
    {
        !self.nan() && !rhs.nan() && self.order_key() <= rhs.order_key()
    }

    /// `self > rhs`
    pub fn gt(self, rhs: Scalar) -> (r: bool)
        ensures
            r == rhs.less(self),
    {
        rhs.lt(self)
    }

    /// `self >= rhs`
    pub fn ge(self, rhs: Scalar) -> (r: bool)
        ensures
            r == rhs.at_most(self),
    {
        rhs.le(self)
    }

    /// The smaller of two numbers, a NaN giving way to the other.
    pub fn min(self, rhs: Scalar) -> (r: Scalar)
        ensures
            r == self.smaller(rhs),
    {
        if rhs.lt(self) || self.nan() {
            rhs
        } else {
            self
        }
    }

    /// The larger of two numbers, a NaN giving way to the other.
    pub fn max(self, rhs: Scalar) -> (r: Scalar)
        ensures
            r == self.larger(rhs),
    {
        if self.lt(rhs) || self.nan() {
            rhs
        } else {
            self
        }
    }

    /// The square root; a NaN for a negative number.
    pub fn sqrt(self) -> (r: Scalar)
        ensures
            r == self.root(),
    {
        Scalar(square_root(self.0))
    }

    /// The sine of `self` radians.
    pub fn sin(self) -> (r: Scalar)
        ensures
            r == self.sine(),
    {
        Scalar(soft_sin(self.0))
    }

    /// The cosine of `self` radians.
    pub fn cos(self) -> (r: Scalar)
        ensures
            r == self.cosine(),
    {
        Scalar(soft_cos(self.0))
    }

    /// The tangent of `self` radians.
    pub fn tan(self) -> (r: Scalar)
        ensures
            r == self.tangent(),
    {
        Scalar(divide(soft_sin(self.0), soft_cos(self.0)))
    }
}

impl core::ops::Neg for Scalar {
    type Output = Scalar;

    /// The number with its sign flipped.
    fn neg(self) -> (r: Scalar)
        ensures
            r == self.negated(),
    {
        if self.0 >= SIGN {
            Scalar(self.0 - SIGN)
        } else {
            Scalar(self.0 + SIGN)
        }
    }
}

impl vstd::std_specs::ops::NegSpecImpl for Scalar {
    open spec fn obeys_neg_spec() -> bool {
        true
    }

    open spec fn neg_req(self) -> bool {
        true
    }

    open spec fn neg_spec(self) -> Scalar {
        self.negated()
    }
}

impl core::ops::Add for Scalar {
    type Output = Scalar;

    /// The sum of two numbers.
    fn add(self, rhs: Scalar) -> (r: Scalar)
        ensures
            r == self.plus(rhs),
    {
        Scalar(add_up(self.0, rhs.0))
    }
}

impl vstd::std_specs::ops::AddSpecImpl for Scalar {
    open spec fn obeys_add_spec() -> bool {
        true
    }

    open spec fn add_req(self, rhs: Scalar) -> bool {
        true
    }

    open spec fn add_spec(self, rhs: Scalar) -> Scalar {
        self.plus(rhs)
    }
}

impl core::ops::Sub for Scalar {
    type Output = Scalar;

    /// The difference of two numbers: the first plus the second with its
    /// sign flipped.
    fn sub(self, rhs: Scalar) -> (r: Scalar)
        ensures
            r == self.minus(rhs),
    {
        self + rhs.neg()
    }
}

impl vstd::std_specs::ops::SubSpecImpl for Scalar {
    open spec fn obeys_sub_spec() -> bool {
        true
    }

    open spec fn sub_req(self, rhs: Scalar) -> bool {
        true
    }

    open spec fn sub_spec(self, rhs: Scalar) -> Scalar {
        self.minus(rhs)
    }
}

impl core::ops::Mul for Scalar {
    type Output = Scalar;

    /// The product of two numbers.
    fn mul(self, rhs: Scalar) -> (r: Scalar)
        ensures
            r == self.times(rhs),
    {
        Scalar(multiply(self.0, rhs.0))
    }
}

impl vstd::std_specs::ops::MulSpecImpl for Scalar {
    open spec fn obeys_mul_spec() -> bool {
        true
    }

    open spec fn mul_req(self, rhs: Scalar) -> bool {
        true
    }

    open spec fn mul_spec(self, rhs: Scalar) -> Scalar {
        self.times(rhs)
    }
}

impl core::ops::Div for Scalar {
    type Output = Scalar;

    /// The quotient of two numbers. A zero divisor gives an infinity or a
    /// NaN.
    fn div(self, rhs: Scalar) -> (r: Scalar)
        ensures
            r == self.over(rhs),
    {
        Scalar(divide(self.0, rhs.0))
    }
}

impl vstd::std_specs::ops::DivSpecImpl for Scalar {
    open spec fn obeys_div_spec() -> bool {
        true
    }

    open spec fn div_req(self, rhs: Scalar) -> bool {
        true
    }

    open spec fn div_spec(self, rhs: Scalar) -> Scalar {
        self.over(rhs)
    }
}

} // verus!
