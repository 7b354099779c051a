//! Sums of binary32 numbers, computed on the bits.
//!
//! The two numbers are written as whole multiples of a common power of two
//! and added as whole numbers, which is exact, and the sum is rounded once.
use crate::nearest::{apart, lemma_rounded_is_nearest, scaled_up, target};
use crate::pattern::{
    decode, exponent, exponent_field, lemma_magnitudes_grow, magnitude, quiet, quieted,
    scaled_magnitude, scaled_value, signed_magnitude, significand, without_sign, HIDDEN_BIT,
    INFINITY, NAN, SIGN,
};
use crate::power::{
    doubled, lemma_quotient_and_rest, lemma_top_bit_below, lemma_top_bit_between,
    lemma_two_to_adds, lemma_two_to_grows, lemma_two_to_values, top_bit, two_to,
};
use crate::rounding::{
    lemma_nearest_magnitude_bound, lemma_nearest_magnitude_is_finite_or_infinity,
    nearest_magnitude, nearest_magnitude_of, nearest_significand, rounded_quotient,
};
use vstd::prelude::*;

verus! {

/// From this many binary places between two numbers on, the smaller one is
/// lost in the rounding of their sum.
pub const ABSORBED_FROM: i32 = 38;

/// The sum of two zeros: negative only if both are.
pub open spec fn sum_of_zeros(a: u32, b: u32) -> u32 {
    if a == SIGN && b == SIGN {
        SIGN
    } else {
        0
    }
}

/// The number that a finite pattern stands for, as a whole multiple of
/// `2^low`, for a `low` that is not above the exponent of the pattern.
pub open spec fn aligned(bits: u32, low: int) -> int {
    let whole = significand(magnitude(bits)) * two_to(
        (exponent(magnitude(bits)) - low) as nat,
    );
    if bits >= SIGN {
        -whole
    } else {
        whole
    }
}

/// The lower of the exponents of two patterns.
pub open spec fn common_exponent(a: u32, b: u32) -> int {
    if exponent(magnitude(a)) <= exponent(magnitude(b)) {
        exponent(magnitude(a))
    } else {
        exponent(magnitude(b))
    }
}

/// The pattern of the number nearest to `total * 2^low`: a positive zero for
/// zero.
pub open spec fn nearest_pattern(total: int, low: int) -> int {
    if total < 0 {
        SIGN + nearest_magnitude((-total) as nat, low)
    } else {
        nearest_magnitude(total as nat, low)
    }
}

/// The sum of two patterns. A NaN gives itself, made quiet, the first one
/// where both are. Infinity less infinity is a NaN; else an infinity stays.
/// Two zeros give a zero, negative only if both are, and a zero leaves another
/// number as it is. Else the sum is the number nearest to the exact sum of
/// the two numbers, and a positive zero where that is zero.
#[verifier::opaque]
pub open spec fn sum_of(a: u32, b: u32) -> u32 {
    if magnitude(a) > INFINITY {
        quieted(a)
    } else if magnitude(b) > INFINITY {
        quieted(b)
    } else if magnitude(a) == INFINITY {
        if magnitude(b) == INFINITY && a != b {
            NAN
        } else {
            a
        }
    } else if magnitude(b) == INFINITY {
        b
    } else if magnitude(a) == 0 && magnitude(b) == 0 {
        sum_of_zeros(a, b)
    } else if magnitude(b) == 0 {
        a
    } else if magnitude(a) == 0 {
        b
    } else {
        nearest_pattern(
            aligned(a, common_exponent(a, b)) + aligned(b, common_exponent(a, b)),
            common_exponent(a, b),
        ) as u32
    }
}

/// A whole number with a sign.
pub open spec fn signed(negative: bool, whole: int) -> int {
    if negative {
        -whole
    } else {
        whole
    }
}

/// The pattern of the number nearest to the sum of two whole numbers with
/// signs, taken as multiples of `2^low`.
pub fn round_sum(negative_a: bool, wa: u64, negative_b: bool, wb: u64, low: i32) -> (r: u32)
    requires
        wa < 0x2000_0000_0000_0000,
        wb < 0x2000_0000_0000_0000,
        -149 <= low <= 104,
    ensures
        r == nearest_pattern(signed(negative_a, wa as int) + signed(negative_b, wb as int), low as int),
{
    let (negative, total): (bool, u64) = if negative_a == negative_b {
        (negative_a, wa + wb)
    } else if wa >= wb {
        (negative_a, wa - wb)
    } else {
        (negative_b, wb - wa)
    };
    if total == 0 {
        return 0;
    }
    let rest = nearest_magnitude_of(total, low);
    proof {
        lemma_nearest_magnitude_is_finite_or_infinity(total as nat, low as int);
    }
    if negative {
        SIGN + rest
    } else {
        rest
    }
}

/// The pattern of the number nearest to the sum of two finite numbers that
/// are not zero.
pub fn add_numbers(a: u32, b: u32) -> (r: u32)
    requires
        0 < magnitude(a) < INFINITY,
        0 < magnitude(b) < INFINITY,
    ensures
        r == nearest_pattern(
            aligned(a, common_exponent(a, b)) + aligned(b, common_exponent(a, b)),
            common_exponent(a, b),
        ),
{
    let negative_a = a >= SIGN;
    let negative_b = b >= SIGN;
    let ma: u32 = without_sign(a);
    let mb: u32 = without_sign(b);
    let (sa, xa) = decode(ma);
    let (sb, xb) = decode(mb);
    assert(two_to(0) == 1);
    if xa - xb >= ABSORBED_FROM {
        proof {
            lemma_absorbed(ma, sb as nat, (xa - xb) as nat, negative_a == negative_b);
            lemma_absorbed_sum(a, b);
        }
        return a;
    }
    if xb - xa >= ABSORBED_FROM {
        proof {
            lemma_absorbed(mb, sa as nat, (xb - xa) as nat, negative_a == negative_b);
            lemma_absorbed_sum(b, a);
        }
        return b;
    }
    let low: i32 = if xa <= xb {
        xa
    } else {
        xb
    };
    proof {
        lemma_bounded_shift(sa as nat, (xa - low) as nat);
        lemma_bounded_shift(sb as nat, (xb - low) as nat);
    }
    let wa: u64 = doubled(sa, (xa - low) as u32);
    let wb: u64 = doubled(sb, (xb - low) as u32);
    round_sum(negative_a, wa, negative_b, wb, low)
}

/// The sum of two patterns.
pub fn add_up(a: u32, b: u32) -> (r: u32)
    ensures
        r == sum_of(a, b),
{
    proof {
        reveal(sum_of);
    }
    let ma: u32 = without_sign(a);
    let mb: u32 = without_sign(b);
    if ma > INFINITY {
        return quiet(a);
    }
    if mb > INFINITY {
        return quiet(b);
    }
    if ma == INFINITY {
        return if mb == INFINITY && a != b {
            NAN
        } else {
            a
        };
    }
    if mb == INFINITY {
        return b;
    }
    if ma == 0 && mb == 0 {
        return if a == SIGN && b == SIGN {
            SIGN
        } else {
            0
        };
    }
    if mb == 0 {
        return a;
    }
    if ma == 0 {
        return b;
    }
    add_numbers(a, b)
}

/// The rounding of a sum or a difference of a normal number and one that
/// lies at least 27 binary places below it gives the normal number back.
pub proof fn lemma_absorbed(big: u32, small: nat, d: nat, plus: bool)
    requires
        big < INFINITY,
        exponent_field(big) >= 1,
        d >= 27,
        exponent(big) - d >= -149,
        small < 0x100_0000,
        !plus ==> small >= 1,
    ensures
        significand(big) * two_to(d) > small,
        nearest_magnitude(
            (if plus {
                significand(big) * two_to(d) + small
            } else {
                significand(big) * two_to(d) - small
            }) as nat,
            exponent(big) - d,
        ) == big,
{
    let digits = significand(big) as nat;
    let unit = two_to(d);
    let half = two_to((d - 1) as nat);
    let low = exponent(big) - d;
    lemma_two_to_values();
    lemma_two_to_grows(27, d);
    lemma_two_to_grows(26, (d - 1) as nat);
    lemma_two_to_adds(24, 3);
    lemma_two_to_adds(24, 2);
    assert(two_to(3) == 8 && two_to(2) == 4) by {
        reveal_with_fuel(two_to, 4);
    }
    assert(unit == 2 * half);
    assert(unit >= 0x800_0000 && half >= 0x400_0000);
    lemma_two_to_adds(23, d);
    lemma_two_to_adds(24, d);
    lemma_two_to_adds(23, (d - 1) as nat);
    lemma_two_to_adds(24, (d - 1) as nat);
    assert(0x80_0000 <= digits < 0x100_0000);
    assert(0x80_0000 * unit <= digits * unit && digits * unit + unit <= 0x100_0000 * unit)
        by (nonlinear_arith)
        requires
            0x80_0000 <= digits < 0x100_0000,
            unit >= 1,
    ;
    assert(big == exponent_field(big) * HIDDEN_BIT + (digits - HIDDEN_BIT));
    if plus {
        let x = digits * unit + small;
        lemma_top_bit_between(x, 23 + d);
        lemma_quotient_and_rest(x, unit, digits, small);
        assert(rounded_quotient(x, d) == digits);
        assert(nearest_significand(x) == digits);
    } else if digits > 0x80_0000 {
        let x = (digits * unit - small) as nat;
        assert(x == (digits - 1) * unit + (unit - small)) by (nonlinear_arith)
            requires
                x == digits * unit - small,
        ;
        assert((digits - 1) * unit >= 0x80_0000 * unit) by (nonlinear_arith)
            requires
                digits > 0x80_0000,
                unit >= 1,
        ;
        lemma_top_bit_between(x, 23 + d);
        lemma_quotient_and_rest(x, unit, (digits - 1) as nat, (unit - small) as nat);
        assert(rounded_quotient(x, d) == digits);
        assert(nearest_significand(x) == digits);
    } else {
        let x = (digits * unit - small) as nat;
        assert(x == 0xff_ffff * half + (half - small)) by (nonlinear_arith)
            requires
                x == digits * unit - small,
                digits == 0x80_0000,
                unit == 2 * half,
        ;
        assert(0xff_ffff * half >= 0x80_0000 * half) by (nonlinear_arith)
            requires
                half >= 1,
        ;
        assert(0x80_0000 * unit == 0x100_0000 * half) by (nonlinear_arith)
            requires
                unit == 2 * half,
        ;
        lemma_top_bit_between(x, (22 + d) as nat);
        lemma_quotient_and_rest(x, half, 0xff_ffff, (half - small) as nat);
        assert(rounded_quotient(x, (d - 1) as nat) == 0x100_0000);
        assert(nearest_significand(x) == 0x100_0000);
        assert(top_bit(x) + low + 127 == exponent_field(big) - 1);
    }
}

/// 24 digits moved up by fewer than 38 places have fewer than 62 digits.
pub proof fn lemma_bounded_shift(digits: nat, up: nat)
    requires
        digits < 0x100_0000,
        up < 38,
    ensures
        digits * two_to(up) < 0x2000_0000_0000_0000,
{
    lemma_two_to_values();
    lemma_two_to_grows(up, 37);
    lemma_two_to_adds(31, 6);
    assert(two_to(6) == 64) by {
        reveal_with_fuel(two_to, 7);
    }
    assert(digits * two_to(up) < 0x100_0000 * 0x20_0000_0000) by (nonlinear_arith)
        requires
            digits < 0x100_0000,
            two_to(up) <= 0x20_0000_0000,
    ;
}

/// Where the first of two finite numbers lies at least 27 binary places above
/// the second, the pattern of the number nearest to their sum is that of the
/// first.
pub proof fn lemma_absorbed_sum(big: u32, small: u32)
    requires
        0 < magnitude(big) < INFINITY,
        0 < magnitude(small) < INFINITY,
        exponent(magnitude(big)) - exponent(magnitude(small)) >= 27,
    ensures
        nearest_pattern(
            aligned(big, common_exponent(big, small)) + aligned(small, common_exponent(big, small)),
            common_exponent(big, small),
        ) == big,
        nearest_pattern(
            aligned(small, common_exponent(small, big)) + aligned(big, common_exponent(small, big)),
            common_exponent(small, big),
        ) == big,
{
    let (mb, ms) = (magnitude(big), magnitude(small));
    let d = (exponent(mb) - exponent(ms)) as nat;
    let plus = (big >= SIGN) == (small >= SIGN);
    let low = exponent(ms);
    assert(common_exponent(big, small) == low && common_exponent(small, big) == low);
    assert(two_to(0) == 1);
    assert(significand(ms) * two_to(0) == significand(ms)) by (nonlinear_arith)
        requires
            two_to(0) == 1,
    ;
    lemma_absorbed(mb, significand(ms) as nat, d, plus);
}

/// Two zeros give a zero that is negative only if both are, and a zero
/// leaves another operand that is no NaN as it is.
pub proof fn lemma_sum_with_zero(a: u32, b: u32)
    requires
        magnitude(a) <= INFINITY,
        magnitude(b) <= INFINITY,
        magnitude(a) == 0 || magnitude(b) == 0,
    ensures
        magnitude(a) == 0 && magnitude(b) == 0 ==> sum_of(a, b) == sum_of_zeros(a, b),
        magnitude(b) == 0 && magnitude(a) != 0 ==> sum_of(a, b) == a,
        magnitude(a) == 0 && magnitude(b) != 0 ==> sum_of(a, b) == b,
{
    reveal(sum_of);
}

/// A sum with a NaN is a NaN.
pub proof fn lemma_sum_with_nan(a: u32, b: u32)
    requires
        magnitude(a) > INFINITY || magnitude(b) > INFINITY,
    ensures
        magnitude(sum_of(a, b)) > INFINITY,
{
    reveal(sum_of);
}

/// The sum of two numbers does not depend on their order.
pub proof fn lemma_sum_commutes(a: u32, b: u32)
    requires
        magnitude(a) <= INFINITY,
        magnitude(b) <= INFINITY,
    ensures
        sum_of(a, b) == sum_of(b, a),
{
    reveal(sum_of);
}

/// The sum of the negatives is the negative of the sum: where `c` and `d`
/// stand for the negatives of `a` and `b`, their sum stands for the negative
/// of the sum of `a` and `b`, or is a NaN as that is.
pub proof fn lemma_sum_of_negatives(a: u32, b: u32, c: u32, d: u32)
    requires
        magnitude(a) <= INFINITY,
        magnitude(b) <= INFINITY,
        magnitude(c) <= INFINITY,
        magnitude(d) <= INFINITY,
        signed_magnitude(c) == -signed_magnitude(a),
        signed_magnitude(d) == -signed_magnitude(b),
    ensures
        magnitude(sum_of(c, d)) > INFINITY <==> magnitude(sum_of(a, b)) > INFINITY,
        magnitude(sum_of(a, b)) <= INFINITY ==> signed_magnitude(sum_of(c, d)) == -signed_magnitude(
            sum_of(a, b),
        ),
{
    reveal(sum_of);
    if 0 < magnitude(a) < INFINITY && 0 < magnitude(b) < INFINITY {
        let low = common_exponent(a, b);
        let total = aligned(a, low) + aligned(b, low);
        assert(common_exponent(c, d) == low);
        assert(aligned(c, low) == -aligned(a, low));
        assert(aligned(d, low) == -aligned(b, low));
        lemma_nearest_magnitude_is_finite_or_infinity(
            (if total < 0 {
                -total
            } else {
                total
            }) as nat,
            low,
        );
    }
}

/// The sum of two finite numbers whose patterns without sign lie below that
/// of `2^(field - 126)` has a pattern at or below that of `2^(field - 124)`:
/// it is finite where that is.
pub proof fn lemma_sum_bound(a: u32, b: u32, field: int)
    requires
        1 <= field <= 251,
        magnitude(a) < (field + 1) * HIDDEN_BIT,
        magnitude(b) < (field + 1) * HIDDEN_BIT,
    ensures
        magnitude(sum_of(a, b)) <= (field + 3) * HIDDEN_BIT,
{
    reveal(sum_of);
    let (ma, mb) = (magnitude(a), magnitude(b));
    assert(ma < INFINITY && mb < INFINITY) by (nonlinear_arith)
        requires
            ma < (field + 1) * 0x80_0000,
            mb < (field + 1) * 0x80_0000,
            field <= 251,
    ;
    assert((field + 1) * HIDDEN_BIT <= (field + 3) * HIDDEN_BIT) by (nonlinear_arith);
    assert(0 <= (field + 3) * HIDDEN_BIT) by (nonlinear_arith)
        requires
            field >= 1,
    ;
    if ma > 0 && mb > 0 {
        let low = common_exponent(a, b);
        let (sa, sb) = (significand(ma), significand(mb));
        let (ua, ub) = ((exponent(ma) - low) as nat, (exponent(mb) - low) as nat);
        let top = (field - 150 - low) as nat;
        assert(exponent_field(ma) <= field && exponent_field(mb) <= field);
        lemma_two_to_values();
        lemma_two_to_grows(ua, top);
        lemma_two_to_grows(ub, top);
        lemma_two_to_adds(24, top);
        assert(sa * two_to(ua) < 0x100_0000 * two_to(top)) by (nonlinear_arith)
            requires
                0 <= sa < 0x100_0000,
                1 <= two_to(ua) <= two_to(top),
        ;
        assert(sb * two_to(ub) < 0x100_0000 * two_to(top)) by (nonlinear_arith)
            requires
                0 <= sb < 0x100_0000,
                1 <= two_to(ub) <= two_to(top),
        ;
        let total = aligned(a, low) + aligned(b, low);
        let size = (if total < 0 {
            -total
        } else {
            total
        }) as nat;
        assert(two_to(25 + top) == 2 * two_to(24 + top));
        assert(size < two_to(25 + top));
        if size > 0 {
            lemma_top_bit_below(size, 25 + top);
        }
        lemma_nearest_magnitude_bound(size, low, field + 2);
    }
}

/// The size of a whole number.
pub open spec fn size(x: int) -> nat {
    if x < 0 {
        (-x) as nat
    } else {
        x as nat
    }
}

/// The sum is rounded to the nearest: no finite number lies nearer to the
/// exact sum of two finite numbers than their sum does, where that is finite;
/// and the sum has the sign of the exact sum where that is not zero. The
/// numbers are counted in steps of 2^-149.
pub proof fn lemma_sum_is_nearest(a: u32, b: u32, other: u32)
    requires
        magnitude(a) < INFINITY,
        magnitude(b) < INFINITY,
        magnitude(sum_of(a, b)) < INFINITY,
        other < INFINITY,
    ensures
        apart(
            scaled_magnitude(magnitude(sum_of(a, b))),
            size(scaled_value(a) + scaled_value(b)),
        ) <= apart(scaled_magnitude(other), size(scaled_value(a) + scaled_value(b))),
        scaled_value(a) + scaled_value(b) < 0 ==> sum_of(a, b) >= SIGN,
        scaled_value(a) + scaled_value(b) > 0 ==> sum_of(a, b) < SIGN,
{
    reveal(sum_of);
    let (ma, mb) = (magnitude(a), magnitude(b));
    assert(two_to(0) == 1);
    assert(scaled_magnitude(0) == 0) by {
        assert(significand(0) == 0);
        assert(0 * two_to(0) == 0);
    }
    assert(forall|x: nat| #[trigger] apart(x, x) == 0);
    if ma > 0 {
        lemma_magnitudes_grow(0, ma);
    }
    if mb > 0 {
        lemma_magnitudes_grow(0, mb);
    }
    if ma > 0 && mb > 0 {
        let low = common_exponent(a, b);
        let up = (low + 149) as nat;
        let (sa, sb) = (significand(ma), significand(mb));
        let (ua, ub) = ((exponent(ma) - low) as nat, (exponent(mb) - low) as nat);
        let total = aligned(a, low) + aligned(b, low);
        lemma_two_to_adds(ua, up);
        lemma_two_to_adds(ub, up);
        lemma_two_to_grows(0, up);
        assert(scaled_magnitude(ma) == sa * two_to(ua) * two_to(up)) by (nonlinear_arith)
            requires
                scaled_magnitude(ma) == sa * two_to(ua + up),
                two_to(ua + up) == two_to(ua) * two_to(up),
        ;
        assert(scaled_magnitude(mb) == sb * two_to(ub) * two_to(up)) by (nonlinear_arith)
            requires
                scaled_magnitude(mb) == sb * two_to(ub + up),
                two_to(ub + up) == two_to(ub) * two_to(up),
        ;
        let (wa, wb) = (sa * two_to(ua), sb * two_to(ub));
        assert((-wa) * two_to(up) == -(wa * two_to(up))) by (nonlinear_arith);
        assert((-wb) * two_to(up) == -(wb * two_to(up))) by (nonlinear_arith);
        assert(scaled_value(a) == aligned(a, low) * two_to(up));
        assert(scaled_value(b) == aligned(b, low) * two_to(up));
        assert(scaled_value(a) + scaled_value(b) == total * two_to(up)) by (nonlinear_arith)
            requires
                scaled_value(a) == aligned(a, low) * two_to(up),
                scaled_value(b) == aligned(b, low) * two_to(up),
                total == aligned(a, low) + aligned(b, low),
        ;
        assert(size(total * two_to(up)) == size(total) * two_to(up)) by (nonlinear_arith)
            requires
                two_to(up) >= 1,
                size(total) == if total < 0 {
                    -total
                } else {
                    total
                },
                size(total * two_to(up)) == if total * two_to(up) < 0 {
                    -(total * two_to(up))
                } else {
                    total * two_to(up)
                },
        ;
        assert(total < 0 <==> total * two_to(up) < 0) by (nonlinear_arith)
            requires
                two_to(up) >= 1,
        ;
        assert(total > 0 <==> total * two_to(up) > 0) by (nonlinear_arith)
            requires
                two_to(up) >= 1,
        ;
        lemma_nearest_magnitude_is_finite_or_infinity(size(total), low);
        assert(target(size(total), low, 0) == size(total) * two_to(up));
        assert(forall|m: u32| #[trigger] scaled_up(m, 0) == scaled_magnitude(m)) by {
            assert forall|m: u32| #[trigger] scaled_up(m, 0) == scaled_magnitude(m) by {
                assert(scaled_magnitude(m) * two_to(0) == scaled_magnitude(m)) by (nonlinear_arith)
                    requires
                        two_to(0) == 1,
                ;
            }
        }
        if total != 0 {
            assert(magnitude(sum_of(a, b)) == nearest_magnitude(size(total), low));
            lemma_rounded_is_nearest(size(total), low, 0, other);
        }
    }
}

} // verus!
