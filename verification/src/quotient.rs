//! Quotients of binary32 numbers, computed on the bits.
//!
//! The digits of the two numbers are brought to 24 places each and divided
//! as whole numbers to 27 places. One more digit tells whether anything is
//! left over, so that the one rounding that follows goes the way that the
//! exact quotient goes.
use crate::nearest::{apart, digits_with_rest, lemma_rounded_ratio_is_nearest, scaled_up};
use crate::pattern::{
    exponent, magnitude, normal_digits, normal_exponent, normalize, quiet, quieted,
    scaled_magnitude, significand, without_sign, INFINITY, NAN, SIGN,
};
use crate::power::{
    lemma_top_bit, lemma_two_to_adds, lemma_two_to_grows, lemma_two_to_values, top_bit, two_to,
};
use crate::product::sign_of_product;
use crate::rounding::{
    lemma_left_over_digit, lemma_nearest_magnitude_is_finite_or_infinity, nearest_magnitude,
    nearest_magnitude_of, rounded_quotient, rounded_ratio,
};
use vstd::prelude::*;

verus! {

/// 2^26: by this the digits of the dividend are moved up.
pub const QUOTIENT_PLACES: u64 = 0x400_0000;

/// The quotient `2^27 na / nb` as a whole number whose last digit is 1 where
/// something is left over: twice the whole part of `2^26 na / nb`, and one
/// more if that division leaves a rest.
pub open spec fn ratio_digits(na: nat, nb: nat) -> nat {
    2 * ((na * QUOTIENT_PLACES as nat) / nb) + if (na * QUOTIENT_PLACES as nat) % nb != 0 {
        1nat
    } else {
        0nat
    }
}

/// The quotient of two patterns. A NaN gives itself, made quiet, the first
/// one where both are. Infinity over infinity and zero over zero are NaNs.
/// Else the sign is that of the quotient, and the rest is infinity for an
/// infinite dividend or a zero divisor, zero for a zero dividend or an
/// infinite divisor, and the number nearest to the exact quotient of the two
/// numbers otherwise.
#[verifier::opaque]
pub open spec fn quotient_of(a: u32, b: u32) -> u32 {
    if magnitude(a) > INFINITY {
        quieted(a)
    } else if magnitude(b) > INFINITY {
        quieted(b)
    } else if magnitude(a) == INFINITY {
        if magnitude(b) == INFINITY {
            NAN
        } else {
            (sign_of_product(a, b) + INFINITY) as u32
        }
    } else if magnitude(b) == INFINITY {
        sign_of_product(a, b)
    } else if magnitude(b) == 0 {
        if magnitude(a) == 0 {
            NAN
        } else {
            (sign_of_product(a, b) + INFINITY) as u32
        }
    } else if magnitude(a) == 0 {
        sign_of_product(a, b)
    } else {
        (sign_of_product(a, b) + nearest_magnitude(
            ratio_digits(normal_digits(magnitude(a)), normal_digits(magnitude(b))),
            normal_exponent(magnitude(a)) - normal_exponent(magnitude(b)) - 27,
        )) as u32
    }
}

/// The quotient of two whole numbers of 24 digits each to 27 places, with a
/// last digit that is 1 where something is left over.
pub fn divide_digits(na: u64, nb: u64) -> (r: u64)
    requires
        0x80_0000 <= na < 0x100_0000,
        0x80_0000 <= nb < 0x100_0000,
    ensures
        r == ratio_digits(na as nat, nb as nat),
        0x400_0000 < r < 0x1000_0000,
{
    let moved: u64 = na * QUOTIENT_PLACES;
    let q: u64 = moved / nb;
    let rest: u64 = moved % nb;
    proof {
        lemma_ratio_digits_range(na as nat, nb as nat);
    }
    if rest != 0 {
        2 * q + 1
    } else {
        2 * q
    }
}

/// The quotient of two patterns.
pub fn divide(a: u32, b: u32) -> (r: u32)
    ensures
        r == quotient_of(a, b),
{
    proof {
        reveal(quotient_of);
    }
    let sign: u32 = if (a >= SIGN) != (b >= SIGN) {
        SIGN
    } else {
        0
    };
    let ma: u32 = without_sign(a);
    let mb: u32 = without_sign(b);
    if ma > INFINITY {
        return quiet(a);
    }
    if mb > INFINITY {
        return quiet(b);
    }
    if ma == INFINITY {
        return if mb == INFINITY {
            NAN
        } else {
            sign + INFINITY
        };
    }
    if mb == INFINITY {
        return sign;
    }
    if mb == 0 {
        return if ma == 0 {
            NAN
        } else {
            sign + INFINITY
        };
    }
    if ma == 0 {
        return sign;
    }
    let (na, xa) = normalize(ma);
    let (nb, xb) = normalize(mb);
    let digits = divide_digits(na, nb);
    let rest = nearest_magnitude_of(digits, xa - xb - 27);
    proof {
        lemma_nearest_magnitude_is_finite_or_infinity(digits as nat, (xa - xb - 27) as int);
    }
    sign + rest
}

/// The digits of a quotient are rounded as the exact quotient is: rounded by
/// `k` places, they give `2^27 na / nb` rounded by `k` places.
pub proof fn lemma_quotient_is_rounded_once(na: nat, nb: nat, k: nat)
    requires
        nb > 0,
        k >= 2,
    ensures
        rounded_quotient(ratio_digits(na, nb), k) == rounded_ratio(
            2 * (na * QUOTIENT_PLACES as nat),
            nb * two_to(k),
        ),
{
    lemma_left_over_digit(na * QUOTIENT_PLACES as nat, nb, k);
}

/// The digits of the quotient of two whole numbers of 24 digits have 27 or 28
/// places.
pub proof fn lemma_ratio_digits_range(na: nat, nb: nat)
    requires
        0x80_0000 <= na < 0x100_0000,
        0x80_0000 <= nb < 0x100_0000,
    ensures
        0x400_0000 < ratio_digits(na, nb) < 0x1000_0000,
{
    let moved = na * QUOTIENT_PLACES as nat;
    let q = moved / nb;
    let rest = moved % nb;
    vstd::arithmetic::div_mod::lemma_fundamental_div_mod(moved as int, nb as int);
    assert(nb * q == q * nb) by (nonlinear_arith);
    assert(q > 0x200_0000) by (nonlinear_arith)
        requires
            q * nb + rest == na * 0x400_0000,
            rest < nb,
            na >= 0x80_0000,
            nb < 0x100_0000,
            q >= 0,
    ;
    assert(q < 0x800_0000) by (nonlinear_arith)
        requires
            q * nb + rest == na * 0x400_0000,
            rest >= 0,
            na < 0x100_0000,
            nb >= 0x80_0000,
    ;
}

/// Two whole numbers taken the same number of times lie that many times as
/// far apart.
pub proof fn lemma_apart_scales(x: nat, y: nat, times: nat)
    ensures
        apart(x * times, y * times) == apart(x, y) * times,
{
    if x >= y {
        assert(x * times >= y * times) by (nonlinear_arith)
            requires
                x >= y,
        ;
        assert(x * times - y * times == (x - y) * times) by (nonlinear_arith);
    } else {
        assert(x * times <= y * times) by (nonlinear_arith)
            requires
                x < y,
        ;
        assert(y * times - x * times == (y - x) * times) by (nonlinear_arith);
        if x * times == y * times {
            assert((y - x) * times == 0);
        }
    }
}

/// The quotient is rounded to the nearest: no finite number, multiplied by
/// the divisor, lies nearer to the dividend than the quotient of two finite
/// numbers that are not zero does, where it is finite. The numbers are
/// counted in steps of 2^-149, and their products in steps of 2^-298.
pub proof fn lemma_quotient_is_nearest(a: u32, b: u32, other: u32)
    requires
        0 < magnitude(a) < INFINITY,
        0 < magnitude(b) < INFINITY,
        magnitude(quotient_of(a, b)) < INFINITY,
        other < INFINITY,
    ensures
        apart(
            scaled_magnitude(magnitude(quotient_of(a, b))) * scaled_magnitude(magnitude(b)),
            scaled_magnitude(magnitude(a)) * two_to(149),
        ) <= apart(
            scaled_magnitude(other) * scaled_magnitude(magnitude(b)),
            scaled_magnitude(magnitude(a)) * two_to(149),
        ),
{
    reveal(quotient_of);
    let (ma, mb) = (magnitude(a), magnitude(b));
    let (sa, sb) = (significand(ma) as nat, significand(mb) as nat);
    let (pa, pb) = (top_bit(sa), top_bit(sb));
    lemma_top_bit(sa);
    lemma_top_bit(sb);
    lemma_two_to_values();
    if pa > 23 {
        lemma_two_to_grows(24, pa);
    }
    if pb > 23 {
        lemma_two_to_grows(24, pb);
    }
    let (ja, jb) = ((23 - pa) as nat, (23 - pb) as nat);
    let (na, nb) = (normal_digits(ma), normal_digits(mb));
    let exp = normal_exponent(ma) - normal_exponent(mb) - 27;
    let fine = 400nat;
    let fit = (exp + 149 + fine) as nat;
    let n = na * QUOTIENT_PLACES as nat;
    // The digits brought to 24 places.
    lemma_two_to_adds(pa, ja);
    lemma_two_to_adds(pa + 1, ja);
    lemma_two_to_adds(pb, jb);
    lemma_two_to_adds(pb + 1, jb);
    lemma_two_to_grows(ja, ja);
    lemma_two_to_grows(jb, jb);
    assert(two_to(pa + 1) == 2 * two_to(pa) && two_to(pb + 1) == 2 * two_to(pb));
    assert(0x80_0000 <= na < 0x100_0000) by (nonlinear_arith)
        requires
            na == sa * two_to(ja),
            two_to(pa) <= sa < 2 * two_to(pa),
            two_to(pa) * two_to(ja) == 0x80_0000,
            two_to(ja) >= 1,
    ;
    assert(0x80_0000 <= nb < 0x100_0000) by (nonlinear_arith)
        requires
            nb == sb * two_to(jb),
            two_to(pb) <= sb < 2 * two_to(pb),
            two_to(pb) * two_to(jb) == 0x80_0000,
            two_to(jb) >= 1,
    ;
    lemma_ratio_digits_range(na, nb);
    assert(ratio_digits(na, nb) == digits_with_rest(n, nb));
    let given = nearest_magnitude(ratio_digits(na, nb), exp);
    lemma_nearest_magnitude_is_finite_or_infinity(ratio_digits(na, nb), exp);
    assert(magnitude(quotient_of(a, b)) == given);
    lemma_rounded_ratio_is_nearest(n, nb, exp, fine, other);
    // The same numbers, written with the two patterns.
    let low = (exponent(mb) + 149) as nat;
    let one = two_to(low);
    let other_factor = two_to(jb) * two_to(fine);
    let aim = 2 * n * two_to(fit);
    let dividend = scaled_magnitude(ma) * two_to(149);
    lemma_two_to_grows(0, low);
    lemma_two_to_grows(0, fine);
    let high = (exponent(ma) + 149) as nat;
    assert(two_to(1) == 2) by {
        reveal_with_fuel(two_to, 2);
    }
    lemma_two_to_adds(24, 2);
    assert(two_to(2) == 4) by {
        reveal_with_fuel(two_to, 3);
    }
    lemma_two_to_adds(26, 1);
    lemma_two_to_adds(ja, 27);
    lemma_two_to_adds(ja + 27, fit);
    lemma_two_to_adds(ja + 27 + fit, low);
    lemma_two_to_adds(high, 149);
    lemma_two_to_adds(high + 149, jb);
    lemma_two_to_adds(high + 149 + jb, fine);
    assert(ja + 27 + fit + low == high + 149 + jb + fine);
    let all = two_to(ja + 27 + fit + low);
    assert(2 * (na * 0x400_0000) == sa * two_to(ja + 27)) by (nonlinear_arith)
        requires
            na == sa * two_to(ja),
            two_to(27) == 2 * 0x400_0000,
            two_to(ja + 27) == two_to(ja) * two_to(27),
    ;
    assert(aim == sa * two_to(ja + 27 + fit)) by (nonlinear_arith)
        requires
            aim == 2 * (na * 0x400_0000) * two_to(fit),
            2 * (na * 0x400_0000) == sa * two_to(ja + 27),
            two_to(ja + 27 + fit) == two_to(ja + 27) * two_to(fit),
    ;
    assert(aim * one == sa * all) by (nonlinear_arith)
        requires
            aim == sa * two_to(ja + 27 + fit),
            all == two_to(ja + 27 + fit) * one,
    ;
    assert(dividend == sa * two_to(high + 149)) by (nonlinear_arith)
        requires
            dividend == sa * two_to(high) * two_to(149),
            two_to(high + 149) == two_to(high) * two_to(149),
    ;
    assert(dividend * two_to(jb) == sa * two_to(high + 149 + jb)) by (nonlinear_arith)
        requires
            dividend == sa * two_to(high + 149),
            two_to(high + 149 + jb) == two_to(high + 149) * two_to(jb),
    ;
    assert(dividend * other_factor == sa * all) by (nonlinear_arith)
        requires
            dividend * two_to(jb) == sa * two_to(high + 149 + jb),
            all == two_to(high + 149 + jb) * two_to(fine),
            other_factor == two_to(jb) * two_to(fine),
    ;
    assert(aim * one == dividend * other_factor);
    assert forall|o: u32|
        (nb * #[trigger] scaled_up(o, fine)) * one == (scaled_magnitude(o) * scaled_magnitude(mb))
            * other_factor by {
        assert((nb * scaled_up(o, fine)) * one == (scaled_magnitude(o) * scaled_magnitude(mb))
            * other_factor) by (nonlinear_arith)
            requires
                nb == sb * two_to(jb),
                scaled_up(o, fine) == scaled_magnitude(o) * two_to(fine),
                scaled_magnitude(mb) == sb * one,
                other_factor == two_to(jb) * two_to(fine),
        ;
    }
    let mine = scaled_magnitude(given as u32) * scaled_magnitude(mb);
    let theirs = scaled_magnitude(other) * scaled_magnitude(mb);
    lemma_apart_scales(nb * scaled_up(given as u32, fine), aim, one);
    lemma_apart_scales(nb * scaled_up(other, fine), aim, one);
    lemma_apart_scales(mine, dividend, other_factor);
    lemma_apart_scales(theirs, dividend, other_factor);
    assert(other_factor >= 1) by (nonlinear_arith)
        requires
            other_factor == two_to(jb) * two_to(fine),
            two_to(jb) >= 1,
            two_to(fine) >= 1,
    ;
    assert(apart(mine, dividend) <= apart(theirs, dividend)) by (nonlinear_arith)
        requires
            apart(mine, dividend) * other_factor == apart(nb * scaled_up(given as u32, fine), aim)
                * one,
            apart(theirs, dividend) * other_factor == apart(nb * scaled_up(other, fine), aim)
                * one,
            apart(nb * scaled_up(given as u32, fine), aim) <= apart(
                nb * scaled_up(other, fine),
                aim,
            ),
            other_factor >= 1,
            one >= 1,
    ;
}

} // verus!
