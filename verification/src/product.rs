//! Products of binary32 numbers, computed on the bits.
//!
//! The digits of the two factors are multiplied as whole numbers, which is
//! exact, and the product is rounded once.
use crate::nearest::{apart, lemma_rounded_is_nearest, scaled_up, target};
use crate::pattern::{
    decode, exponent, exponent_field, magnitude, quiet, quieted, scaled_magnitude,
    signed_magnitude, significand, without_sign, HIDDEN_BIT, INFINITY, NAN, SIGN,
};
use crate::power::{lemma_top_bit_below, lemma_two_to_adds, lemma_two_to_values, two_to};
use crate::rounding::{
    lemma_nearest_magnitude_bound, lemma_nearest_magnitude_is_finite_or_infinity,
    nearest_magnitude, nearest_magnitude_of,
};
use vstd::prelude::*;

verus! {

/// The sign bit that a product or a quotient of the two patterns carries.
pub open spec fn sign_of_product(a: u32, b: u32) -> u32 {
    if (a >= SIGN) != (b >= SIGN) {
        SIGN
    } else {
        0
    }
}

/// The product of two patterns. A NaN gives itself, made quiet, the first
/// one where both are. Infinity times zero is a NaN. Else the sign is that of
/// the product, and the rest is infinity where a factor is, and the number
/// nearest to the exact product of the two numbers otherwise.
#[verifier::opaque]
pub open spec fn product_of(a: u32, b: u32) -> u32 {
    if magnitude(a) > INFINITY {
        quieted(a)
    } else if magnitude(b) > INFINITY {
        quieted(b)
    } else if magnitude(a) == INFINITY || magnitude(b) == INFINITY {
        if magnitude(a) == 0 || magnitude(b) == 0 {
            NAN
        } else {
            (sign_of_product(a, b) + INFINITY) as u32
        }
    } else {
        (sign_of_product(a, b) + nearest_magnitude(
            (significand(magnitude(a)) * significand(magnitude(b))) as nat,
            exponent(magnitude(a)) + exponent(magnitude(b)),
        )) as u32
    }
}

/// The product of two patterns.
pub fn multiply(a: u32, b: u32) -> (r: u32)
    ensures
        r == product_of(a, b),
{
    proof {
        reveal(product_of);
    }
    let negative = (a >= SIGN) != (b >= SIGN);
    let sign: u32 = if negative {
        SIGN
    } else {
        0
    };
    let ma: u32 = without_sign(a);
    let mb: u32 = without_sign(b);
    if ma > INFINITY {
        return quiet(a);
    }
    if mb > INFINITY {
        return quiet(b);
    }
    if ma == INFINITY || mb == INFINITY {
        return if ma == 0 || mb == 0 {
            NAN
        } else {
            sign + INFINITY
        };
    }
    let (sa, xa) = decode(ma);
    let (sb, xb) = decode(mb);
    assert(sa * sb < 0x1_0000_0000_0000) by (nonlinear_arith)
        requires
            sa < 0x100_0000,
            sb < 0x100_0000,
    ;
    let rest = nearest_magnitude_of(sa * sb, xa + xb);
    proof {
        lemma_nearest_magnitude_is_finite_or_infinity((sa * sb) as nat, (xa + xb) as int);
    }
    sign + rest
}

/// A zero times a finite number is a zero with the sign of the product.
pub proof fn lemma_product_with_zero(a: u32, b: u32)
    requires
        magnitude(a) < INFINITY,
        magnitude(b) < INFINITY,
        magnitude(a) == 0 || magnitude(b) == 0,
    ensures
        product_of(a, b) == sign_of_product(a, b),
{
    reveal(product_of);
    let (sa, sb) = (significand(magnitude(a)), significand(magnitude(b)));
    assert(significand(0) == 0);
    assert(sa * sb == 0) by (nonlinear_arith)
        requires
            sa == 0 || sb == 0,
    ;
}

/// The product of two numbers does not depend on their order.
pub proof fn lemma_product_commutes(a: u32, b: u32)
    requires
        magnitude(a) <= INFINITY,
        magnitude(b) <= INFINITY,
    ensures
        product_of(a, b) == product_of(b, a),
{
    reveal(product_of);
    let (sa, sb) = (significand(magnitude(a)), significand(magnitude(b)));
    assert(sa * sb == sb * sa) by (nonlinear_arith);
}

/// Turning the sign of a factor turns the sign of the product: where the
/// factors `c` and `d` stand for the negative of `a` and for `b`, their
/// product stands for the negative of the product of `a` and `b`, or is a NaN
/// as that is.
pub proof fn lemma_product_of_negative(a: u32, b: u32, c: u32, d: u32)
    requires
        magnitude(a) <= INFINITY,
        magnitude(b) <= INFINITY,
        magnitude(c) <= INFINITY,
        magnitude(d) <= INFINITY,
        signed_magnitude(c) == -signed_magnitude(a),
        signed_magnitude(d) == signed_magnitude(b),
    ensures
        magnitude(product_of(c, d)) > INFINITY <==> magnitude(product_of(a, b)) > INFINITY,
        magnitude(product_of(a, b)) <= INFINITY ==> signed_magnitude(product_of(c, d))
            == -signed_magnitude(product_of(a, b)),
{
    reveal(product_of);
    let (sa, sb) = (significand(magnitude(a)), significand(magnitude(b)));
    if magnitude(a) < INFINITY && magnitude(b) < INFINITY {
        lemma_nearest_magnitude_is_finite_or_infinity(
            (sa * sb) as nat,
            exponent(magnitude(a)) + exponent(magnitude(b)),
        );
        if magnitude(a) == 0 || magnitude(b) == 0 {
            assert(significand(0) == 0);
            assert(sa * sb == 0) by (nonlinear_arith)
                requires
                    sa == 0 || sb == 0,
            ;
        }
    }
}

/// The product of two finite numbers whose patterns without sign lie below
/// those of `2^(fa - 126)` and `2^(fb - 126)` has a pattern at or below that
/// of `2^(fa + fb - 251)`: it is finite where that is.
pub proof fn lemma_product_bound(a: u32, b: u32, fa: int, fb: int)
    requires
        1 <= fa,
        1 <= fb,
        126 <= fa + fb <= 379,
        magnitude(a) < (fa + 1) * HIDDEN_BIT,
        magnitude(b) < (fb + 1) * HIDDEN_BIT,
        magnitude(a) < INFINITY,
        magnitude(b) < INFINITY,
    ensures
        magnitude(product_of(a, b)) <= (fa + fb - 125) * HIDDEN_BIT,
{
    reveal(product_of);
    let (ma, mb) = (magnitude(a), magnitude(b));
    let (sa, sb) = (significand(ma), significand(mb));
    let sig = (sa * sb) as nat;
    let exp = exponent(ma) + exponent(mb);
    assert(exponent_field(ma) <= fa && exponent_field(mb) <= fb);
    assert(exponent(ma) <= fa - 150 && exponent(mb) <= fb - 150);
    if sig > 0 {
        lemma_two_to_values();
        lemma_two_to_adds(24, 24);
        assert(sa * sb < 0x100_0000 * 0x100_0000) by (nonlinear_arith)
            requires
                0 <= sa < 0x100_0000,
                0 <= sb < 0x100_0000,
        ;
        lemma_top_bit_below(sig, 48);
    } else {
        assert(sa * sb == 0);
    }
    lemma_nearest_magnitude_bound(sig, exp, fa + fb - 126);
    assert(product_of(a, b) == sign_of_product(a, b) + nearest_magnitude(sig, exp));
}

/// The product is rounded to the nearest: no finite number lies nearer to
/// the exact product of two finite numbers than their product does, where
/// that is finite. The numbers are counted in steps of 2^-298, in which the
/// exact product is the product of the two numbers counted in steps of
/// 2^-149.
pub proof fn lemma_product_is_nearest(a: u32, b: u32, other: u32)
    requires
        magnitude(a) < INFINITY,
        magnitude(b) < INFINITY,
        magnitude(product_of(a, b)) < INFINITY,
        other < INFINITY,
    ensures
        apart(
            scaled_up(magnitude(product_of(a, b)), 149),
            scaled_magnitude(magnitude(a)) * scaled_magnitude(magnitude(b)),
        ) <= apart(
            scaled_up(other, 149),
            scaled_magnitude(magnitude(a)) * scaled_magnitude(magnitude(b)),
        ),
{
    reveal(product_of);
    let (ma, mb) = (magnitude(a), magnitude(b));
    let (sa, sb) = (significand(ma), significand(mb));
    let (ua, ub) = ((exponent(ma) + 149) as nat, (exponent(mb) + 149) as nat);
    let sig = (sa * sb) as nat;
    let exp = exponent(ma) + exponent(mb);
    lemma_nearest_magnitude_is_finite_or_infinity(sig, exp);
    assert(magnitude(product_of(a, b)) == nearest_magnitude(sig, exp));
    lemma_two_to_adds(ua, ub);
    assert(scaled_magnitude(ma) * scaled_magnitude(mb) == sig * two_to(ua + ub))
        by (nonlinear_arith)
        requires
            scaled_magnitude(ma) == sa * two_to(ua),
            scaled_magnitude(mb) == sb * two_to(ub),
            sig == sa * sb,
            two_to(ua + ub) == two_to(ua) * two_to(ub),
    ;
    assert(target(sig, exp, 149) == sig * two_to(ua + ub));
    if sig > 0 {
        lemma_rounded_is_nearest(sig, exp, 149, other);
    } else {
        assert(significand(0) == 0);
        assert(scaled_magnitude(0) == 0) by {
            assert(0 * two_to(0) == 0);
        }
        assert(scaled_up(0, 149) == 0) by {
            assert(0 * two_to(149) == 0);
        }
        assert(0 * two_to(ua + ub) == 0);
    }
}

} // verus!
