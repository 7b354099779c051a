//! The bit patterns of binary32 numbers: their fields, and the numbers that
//! they stand for.
//!
//! A pattern has one sign bit, eight bits of exponent and 23 bits of
//! fraction. A finite pattern with exponent field `e` and fraction field `f`
//! stands for `(2^23 + f) * 2^(e - 150)`, or for `f * 2^-149` where `e` is
//! zero. The exponent field 255 marks the infinities, with fraction zero, and
//! the NaNs.
use crate::power::{
    doubled, lemma_top_bit, lemma_two_to_adds, lemma_two_to_grows, lemma_two_to_values, top_bit,
    two_to,
};
use vstd::prelude::*;

verus! {

/// The sign bit of a pattern.
pub const SIGN: u32 = 0x8000_0000;

/// Positive infinity; every larger magnitude is a NaN.
pub const INFINITY: u32 = 0x7f80_0000;

/// 2^23: the weight of the bit that stands before the fraction.
pub const HIDDEN_BIT: u32 = 0x80_0000;

/// 2^22: the bit of the fraction that tells a quiet NaN from a signalling
/// one.
pub const QUIET_BIT: u32 = 0x40_0000;

/// The NaN that an operation without a result gives.
pub const NAN: u32 = 0x7fc0_0000;

/// The pattern without its sign bit.
pub open spec fn magnitude(bits: u32) -> u32 {
    if bits >= SIGN {
        (bits - SIGN) as u32
    } else {
        bits
    }
}

/// Where a pattern stands among the others: the pattern without sign, taken
/// below zero for a negative one.
pub open spec fn signed_magnitude(bits: u32) -> int {
    if bits >= SIGN {
        -(magnitude(bits) as int)
    } else {
        magnitude(bits) as int
    }
}

/// A NaN made quiet: with the highest bit of its fraction set.
pub open spec fn quieted(bits: u32) -> u32 {
    if (bits as int % HIDDEN_BIT as int) >= QUIET_BIT as int {
        bits
    } else {
        (bits + QUIET_BIT) as u32
    }
}

/// The exponent field of a pattern without sign.
pub open spec fn exponent_field(mag: u32) -> int {
    mag as int / HIDDEN_BIT as int
}

/// The digits that a pattern without sign stands for, as a whole number:
/// the fraction field with the hidden bit before it, or the fraction field
/// alone where the exponent field is zero.
pub open spec fn significand(mag: u32) -> int {
    if exponent_field(mag) == 0 {
        mag as int % HIDDEN_BIT as int
    } else {
        HIDDEN_BIT as int + mag as int % HIDDEN_BIT as int
    }
}

/// The power of two that the digits of a pattern are multiplied by.
pub open spec fn exponent(mag: u32) -> int {
    if exponent_field(mag) == 0 {
        -149
    } else {
        exponent_field(mag) - 150
    }
}

/// The digits of a finite pattern without sign that is not zero, moved up to
/// 24 places.
pub open spec fn normal_digits(mag: u32) -> nat {
    (significand(mag) * two_to((23 - top_bit(significand(mag) as nat)) as nat)) as nat
}

/// The power of two that the digits moved up to 24 places are multiplied by.
pub open spec fn normal_exponent(mag: u32) -> int {
    exponent(mag) - (23 - top_bit(significand(mag) as nat))
}

/// The number that a finite pattern without sign stands for, times 2^149:
/// a whole number, as every such number is a multiple of 2^-149.
pub open spec fn scaled_magnitude(mag: u32) -> nat {
    (significand(mag) * two_to((exponent(mag) + 149) as nat)) as nat
}

/// The number that a finite pattern stands for, times 2^149.
pub open spec fn scaled_value(bits: u32) -> int {
    if bits >= SIGN {
        -(scaled_magnitude(magnitude(bits)) as int)
    } else {
        scaled_magnitude(magnitude(bits)) as int
    }
}

/// The pattern without its sign bit.
pub fn without_sign(bits: u32) -> (r: u32)
    ensures
        r == magnitude(bits),
{
    if bits >= SIGN {
        bits - SIGN
    } else {
        bits
    }
}

/// A NaN made quiet.
pub fn quiet(bits: u32) -> (r: u32)
    ensures
        r == quieted(bits),
{
    if bits % HIDDEN_BIT >= QUIET_BIT {
        bits
    } else {
        bits + QUIET_BIT
    }
}

/// The digits and the exponent of a finite pattern without sign.
pub fn decode(mag: u32) -> (r: (u64, i32))
    requires
        mag < INFINITY,
    ensures
        r.0 == significand(mag),
        r.1 == exponent(mag),
        r.0 < 0x100_0000,
        -149 <= r.1 <= 104,
        exponent_field(mag) >= 1 <==> r.0 >= 0x80_0000,
        mag == 0 <==> r.0 == 0,
{
    let e: u32 = mag / HIDDEN_BIT;
    let f: u32 = mag % HIDDEN_BIT;
    if e == 0 {
        (f as u64, -149)
    } else {
        (HIDDEN_BIT as u64 + f as u64, e as i32 - 150)
    }
}

/// The digits of a finite pattern without sign that is not zero, moved up to
/// 24 places, and the power of two that they are multiplied by.
pub fn normalize(mag: u32) -> (r: (u64, i32))
    requires
        0 < mag < INFINITY,
    ensures
        r.0 == normal_digits(mag),
        r.1 == normal_exponent(mag),
        0x80_0000 <= r.0 < 0x100_0000,
        -172 <= r.1 <= 104,
{
    let (digits, x) = decode(mag);
    let mut rest: u64 = digits;
    let mut p: u32 = 0;
    proof {
        lemma_top_bit(digits as nat);
        lemma_two_to_values();
        if top_bit(digits as nat) > 23 {
            lemma_two_to_grows(24, top_bit(digits as nat));
        }
    }
    while rest > 1
        invariant
            1 <= rest <= digits,
            top_bit(digits as nat) <= 23,
            top_bit(digits as nat) == p + top_bit(rest as nat),
        decreases rest,
    {
        rest = rest / 2;
        p = p + 1;
    }
    proof {
        let up = (23 - p) as nat;
        lemma_two_to_adds(p as nat, up);
        lemma_two_to_adds((p + 1) as nat, up);
        lemma_two_to_grows(up, up);
        assert(two_to(p as nat) * two_to(up) <= digits * two_to(up) < two_to((p + 1) as nat)
            * two_to(up)) by (nonlinear_arith)
            requires
                two_to(p as nat) <= digits < two_to((p + 1) as nat),
                two_to(up) >= 1,
        ;
    }
    (doubled(digits, 23 - p), x - (23 - p) as i32)
}

/// Of two patterns without sign that are no NaNs, the larger stands for the
/// larger number, if infinity is taken as the power of two that follows the
/// largest number.
pub proof fn lemma_magnitudes_grow(a: u32, b: u32)
    requires
        a < b <= INFINITY,
    ensures
        scaled_magnitude(a) < scaled_magnitude(b),
{
    let (ea, eb) = (exponent_field(a), exponent_field(b));
    let (xa, xb) = ((exponent(a) + 149) as nat, (exponent(b) + 149) as nat);
    let (sa, sb) = (significand(a), significand(b));
    lemma_two_to_grows(xa, xb);
    if ea == eb {
        assert(sa * two_to(xa) < sb * two_to(xa)) by (nonlinear_arith)
            requires
                sa < sb,
                two_to(xa) >= 1,
        ;
    } else {
        assert(ea < eb);
        // Below the next power of two, which the larger pattern reaches.
        assert(two_to(xa + 1) == 2 * two_to(xa));
        lemma_two_to_grows(if ea == 0 {
            0
        } else {
            xa + 1
        }, xb);
        if ea == 0 {
            assert(two_to(0) == 1);
            assert(sa * two_to(xa) < 0x80_0000 * two_to(xb)) by (nonlinear_arith)
                requires
                    0 <= sa < 0x80_0000,
                    two_to(xa) == 1,
                    two_to(xb) >= 1,
            ;
        } else {
            assert(sa * two_to(xa) < 0x80_0000 * two_to(xb)) by (nonlinear_arith)
                requires
                    0 <= sa < 0x100_0000,
                    two_to(xa) >= 1,
                    2 * two_to(xa) <= two_to(xb),
            ;
        }
        assert(0x80_0000 * two_to(xb) <= sb * two_to(xb)) by (nonlinear_arith)
            requires
                0x80_0000 <= sb,
                two_to(xb) >= 1,
        ;
    }
}

/// Two finite patterns stand in the order of the numbers that they stand
/// for: the order of the patterns without sign, turned round below zero, with
/// both zeros in one place.
pub proof fn lemma_order_of_values(a: u32, b: u32)
    requires
        magnitude(a) < INFINITY,
        magnitude(b) < INFINITY,
    ensures
        scaled_value(a) < scaled_value(b) <==> signed_magnitude(a) < signed_magnitude(b),
        scaled_value(a) == scaled_value(b) <==> signed_magnitude(a) == signed_magnitude(b),
{
    let (ma, mb) = (magnitude(a), magnitude(b));
    if ma < mb {
        lemma_magnitudes_grow(ma, mb);
    } else if mb < ma {
        lemma_magnitudes_grow(mb, ma);
    }
    assert(scaled_magnitude(0) == 0) by {
        assert(significand(0) == 0);
        assert(0 * two_to(0) == 0);
    }
    if ma > 0 {
        lemma_magnitudes_grow(0, ma);
    }
    if mb > 0 {
        lemma_magnitudes_grow(0, mb);
    }
}

} // verus!
