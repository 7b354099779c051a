//! Whole numbers and binary32 numbers: how one is read off the bits of the
//! other.
use crate::nearest::{apart, lemma_rounded_is_nearest, scaled_up, target};
use crate::pattern::{
    exponent, exponent_field, magnitude, scaled_magnitude, scaled_value, significand, HIDDEN_BIT,
    INFINITY, SIGN,
};
use crate::power::{
    doubled, halved, lemma_top_bit, lemma_two_to_adds, lemma_two_to_grows, lemma_two_to_values,
    top_bit, two_to,
};
use crate::rounding::{
    lemma_nearest_magnitude_bound, nearest_magnitude, nearest_magnitude_of, nearest_significand,
};
use vstd::prelude::*;

verus! {

/// The whole part of `2^shift` times the number that a finite pattern
/// without sign stands for.
pub open spec fn whole_part(mag: u32, shift: int) -> nat {
    if exponent(mag) + shift >= 0 {
        (significand(mag) * two_to((exponent(mag) + shift) as nat)) as nat
    } else {
        (significand(mag) / two_to((-(exponent(mag) + shift)) as nat) as int) as nat
    }
}

/// The whole part of a number, with its sign: 0 for a NaN.
pub open spec fn integer_part(bits: u32) -> int {
    if magnitude(bits) > INFINITY {
        0
    } else if bits >= SIGN {
        -(whole_part(magnitude(bits), 0) as int)
    } else {
        whole_part(magnitude(bits), 0) as int
    }
}

/// A whole number brought into the range of `i32`.
pub open spec fn clipped(n: int) -> i32 {
    if n > i32::MAX {
        i32::MAX
    } else if n < i32::MIN {
        i32::MIN
    } else {
        n as i32
    }
}

/// The pattern of the number nearest to a whole number, and of the one with
/// an even last digit of two that are equally near.
pub open spec fn nearest_bits(n: int) -> int {
    if n == 0 {
        0
    } else {
        let m = if n < 0 {
            (-n) as nat
        } else {
            n as nat
        };
        (if n < 0 {
            SIGN as int
        } else {
            0
        }) + (126 + top_bit(m)) * HIDDEN_BIT + nearest_significand(m)
    }
}

/// The whole part of `2^shift` times the number that a finite pattern
/// without sign stands for, where that is less than 2^63.
pub fn whole_part_of(mag: u32, shift: u32) -> (r: u64)
    requires
        mag < INFINITY,
        exponent_field(mag) + shift <= 187,
    ensures
        r == whole_part(mag, shift as int),
{
    let e: u32 = mag / HIDDEN_BIT;
    let f: u32 = mag % HIDDEN_BIT;
    let digits: u64 = if e == 0 {
        f as u64
    } else {
        HIDDEN_BIT as u64 + f as u64
    };
    let scale: u32 = if e == 0 {
        1 + shift
    } else {
        e + shift
    };
    if scale >= 150 {
        proof {
            lemma_two_to_values();
            lemma_two_to_grows((scale - 150) as nat, 38);
            lemma_two_to_adds(31, 7);
            assert(two_to(38) == 0x40_0000_0000);
            assert(digits * two_to((scale - 150) as nat) <= 0x100_0000 * 0x40_0000_0000)
                by (nonlinear_arith)
                requires
                    digits <= 0x100_0000,
                    two_to((scale - 150) as nat) <= 0x40_0000_0000,
            ;
        }
        doubled(digits, scale - 150)
    } else {
        halved(digits, 150 - scale)
    }
}

/// The whole part of a number, with its sign: 0 for a NaN, and the nearest
/// bound for a number beyond the range of `i32`.
pub fn truncate(bits: u32) -> (r: i32)
    ensures
        r == clipped(integer_part(bits)),
{
    let negative = bits >= SIGN;
    let mag: u32 = if negative {
        bits - SIGN
    } else {
        bits
    };
    if mag > INFINITY {
        return 0;
    }
    let e: u32 = mag / HIDDEN_BIT;
    if e >= 158 {
        proof {
            lemma_two_to_values();
            lemma_two_to_grows(8, (e - 150) as nat);
            assert(significand(mag) * two_to((e - 150) as nat) >= 0x80_0000 * 0x100)
                by (nonlinear_arith)
                requires
                    significand(mag) >= 0x80_0000,
                    two_to((e - 150) as nat) >= 0x100,
            ;
        }
        return if negative {
            i32::MIN
        } else {
            i32::MAX
        };
    }
    let whole: u64 = whole_part_of(mag, 0);
    proof {
        lemma_two_to_values();
        if e >= 150 {
            lemma_two_to_grows((e - 150) as nat, 7);
            assert(significand(mag) * two_to((e - 150) as nat) < 0x100_0000 * 0x80)
                by (nonlinear_arith)
                requires
                    0 <= significand(mag) < 0x100_0000,
                    1 <= two_to((e - 150) as nat) <= 0x80,
            ;
        } else {
            lemma_two_to_grows(0, (-exponent(mag)) as nat);
            vstd::arithmetic::div_mod::lemma_div_is_ordered_by_denominator(
                significand(mag),
                1,
                two_to((-exponent(mag)) as nat) as int,
            );
        }
        assert(whole < 0x8000_0000);
    }
    if negative {
        -(whole as i64) as i32
    } else {
        whole as i32
    }
}

/// The pattern of the number nearest to a whole number.
pub fn nearest(n: i32) -> (r: u32)
    ensures
        r == nearest_bits(n as int),
{
    if n == 0 {
        return 0;
    }
    let m: u64 = if n < 0 {
        (-(n as i64)) as u64
    } else {
        n as u64
    };
    let mag = nearest_magnitude_of(m, 0);
    proof {
        let p = top_bit(m as nat);
        lemma_top_bit(m as nat);
        lemma_two_to_values();
        if p > 31 {
            lemma_two_to_grows(32, p);
        }
        lemma_nearest_magnitude_bound(m as nat, 0, (127 + p) as int);
        assert(mag == (126 + p) * HIDDEN_BIT + nearest_significand(m as nat));
        assert(mag <= 159 * HIDDEN_BIT);
    }
    if n < 0 {
        SIGN + mag
    } else {
        mag
    }
}

/// A whole number of at most 24 binary digits is a binary32 number: the
/// pattern nearest to it stands for the number itself.
pub proof fn lemma_whole_numbers_are_exact(n: int)
    requires
        -0x100_0000 <= n <= 0x100_0000,
    ensures
        0 <= nearest_bits(n) <= u32::MAX,
        magnitude(nearest_bits(n) as u32) < INFINITY,
        scaled_value(nearest_bits(n) as u32) == n * two_to(149),
{
    if n != 0 {
        let m = if n < 0 {
            (-n) as nat
        } else {
            n as nat
        };
        let p = top_bit(m);
        lemma_top_bit(m);
        lemma_two_to_values();
        if p > 24 {
            lemma_two_to_grows(25, p);
            lemma_two_to_adds(24, 1);
        }
        assert(p <= 24);
        let digits = nearest_significand(m);
        let mag = ((126 + p) * HIDDEN_BIT + digits) as u32;
        if p <= 23 {
            let up = (23 - p) as nat;
            lemma_two_to_grows(up, up);
            lemma_two_to_adds(p, up);
            lemma_two_to_adds(p + 1, up);
            assert(two_to(p + 1) == 2 * two_to(p));
            assert(two_to(p) * two_to(up) <= m * two_to(up) < two_to(p + 1) * two_to(up))
                by (nonlinear_arith)
                requires
                    two_to(p) <= m < two_to(p + 1),
                    two_to(up) >= 1,
            ;
            assert(0x80_0000 <= digits < 0x100_0000);
            lemma_two_to_adds(up, p + 126);
            assert(digits * two_to(p + 126) == m * two_to(149)) by (nonlinear_arith)
                requires
                    digits == m * two_to(up),
                    two_to(149) == two_to(up) * two_to(p + 126),
            ;
        } else {
            assert(two_to(1) == 2) by {
                reveal_with_fuel(two_to, 2);
            }
            assert(digits == 0x80_0000);
            lemma_two_to_adds(1, 149);
            assert(digits * two_to(150) == m * two_to(149)) by (nonlinear_arith)
                requires
                    digits == 0x80_0000,
                    m == 0x100_0000,
                    two_to(150) == 2 * two_to(149),
            ;
        }
        assert(exponent_field(mag) == 127 + p);
        assert(significand(mag) == digits);
        assert((exponent(mag) + 149) as nat == p + 126);
        assert(scaled_magnitude(mag) == m * two_to(149));
        if n < 0 {
            assert(nearest_bits(n) == SIGN + mag);
            assert(magnitude((SIGN + mag) as u32) == mag);
            assert((-(m as int)) * two_to(149) == -(m * two_to(149))) by (nonlinear_arith);
        } else {
            assert(nearest_bits(n) == mag);
            assert(magnitude(mag) == mag);
        }
    } else {
        assert(significand(0) == 0);
        assert(0 * two_to(0) == 0);
        assert(0 * two_to(149) == 0);
    }
}

/// A whole number of at most 24 binary digits is kept by its pattern: the
/// whole part of the number nearest to it is the number itself.
pub proof fn lemma_whole_numbers_are_kept(n: int)
    requires
        -0x100_0000 <= n <= 0x100_0000,
    ensures
        0 <= nearest_bits(n) <= u32::MAX,
        integer_part(nearest_bits(n) as u32) == n,
{
    let bits = nearest_bits(n) as u32;
    let m = if n < 0 {
        (-n) as nat
    } else {
        n as nat
    };
    lemma_whole_numbers_are_exact(n);
    lemma_whole_part_of_value(magnitude(bits), 0);
    lemma_two_to_grows(0, 149);
    assert(two_to(0) == 1);
    assert(scaled_magnitude(magnitude(bits)) == m * two_to(149)) by {
        assert((-(m as int)) * two_to(149) == -(m * two_to(149))) by (nonlinear_arith);
    }
    vstd::arithmetic::div_mod::lemma_div_by_multiple(m as int, two_to(149) as int);
    assert((scaled_magnitude(magnitude(bits)) * two_to(0)) / two_to(149) == m) by (nonlinear_arith)
        requires
            scaled_magnitude(magnitude(bits)) == m * two_to(149),
            two_to(0) == 1,
            (m as int * two_to(149) as int) / (two_to(149) as int) == m,
    ;
    if n != 0 {
        assert(n < 0 <==> bits >= SIGN) by {
            lemma_top_bit(m);
            if bits >= SIGN && n > 0 {
                assert(scaled_value(bits) <= 0);
                assert(n * two_to(149) > 0) by (nonlinear_arith)
                    requires
                        n > 0,
                        two_to(149) >= 1,
                ;
            }
            if bits < SIGN && n < 0 {
                assert(scaled_value(bits) >= 0);
                assert(n * two_to(149) < 0) by (nonlinear_arith)
                    requires
                        n < 0,
                        two_to(149) >= 1,
                ;
            }
        }
    }
}

/// The whole part is that of the number that the pattern stands for: of
/// `2^shift` times the number, the fraction dropped.
pub proof fn lemma_whole_part_of_value(mag: u32, shift: nat)
    requires
        mag < INFINITY,
    ensures
        whole_part(mag, shift as int) == (scaled_magnitude(mag) * two_to(shift)) / two_to(149),
{
    let sig = significand(mag);
    let up = (exponent(mag) + 149) as nat;
    lemma_two_to_adds(up, shift);
    lemma_two_to_grows(0, 149);
    lemma_two_to_grows(0, up + shift);
    assert(scaled_magnitude(mag) * two_to(shift) == sig * two_to(up + shift)) by (nonlinear_arith)
        requires
            scaled_magnitude(mag) == sig * two_to(up),
            two_to(up + shift) == two_to(up) * two_to(shift),
    ;
    if exponent(mag) + shift >= 0 {
        let over = (exponent(mag) + shift) as nat;
        lemma_two_to_adds(over, 149);
        lemma_two_to_grows(0, over);
        assert(sig * two_to(up + shift) == (sig * two_to(over)) * two_to(149)) by (nonlinear_arith)
            requires
                two_to(up + shift) == two_to(over) * two_to(149),
        ;
        assert(sig * two_to(over) >= 0) by (nonlinear_arith)
            requires
                sig >= 0,
                two_to(over) >= 1,
        ;
        vstd::arithmetic::div_mod::lemma_div_by_multiple(
            sig * two_to(over),
            two_to(149) as int,
        );
    } else {
        let under = (-(exponent(mag) + shift)) as nat;
        lemma_two_to_adds(up + shift, under);
        lemma_two_to_grows(0, under);
        vstd::arithmetic::div_mod::lemma_div_multiples_vanish_quotient(
            two_to(up + shift) as int,
            sig,
            two_to(under) as int,
        );
        assert(sig * two_to(up + shift) == two_to(up + shift) * sig) by (nonlinear_arith);
    }
}

/// A whole number is given the pattern of the nearest number: no finite
/// number lies nearer to it. The numbers are counted in steps of 2^-149.
pub proof fn lemma_whole_number_is_nearest(n: i32, other: u32)
    requires
        other < INFINITY,
    ensures
        0 <= nearest_bits(n as int) <= u32::MAX,
        magnitude(nearest_bits(n as int) as u32) < INFINITY,
        apart(
            scaled_magnitude(magnitude(nearest_bits(n as int) as u32)),
            (if n < 0 {
                -n
            } else {
                n as int
            }) as nat * two_to(149),
        ) <= apart(scaled_magnitude(other), (if n < 0 {
            -n
        } else {
            n as int
        }) as nat * two_to(149)),
{
    assert(two_to(0) == 1);
    if n != 0 {
        let m = (if n < 0 {
            -n
        } else {
            n as int
        }) as nat;
        let p = top_bit(m);
        lemma_top_bit(m);
        lemma_two_to_values();
        if p > 31 {
            lemma_two_to_grows(32, p);
        }
        assert(p <= 31);
        assert(nearest_magnitude(m, 0) == (126 + p) * HIDDEN_BIT + nearest_significand(m));
        lemma_nearest_magnitude_bound(m, 0, (127 + p) as int);
        let mag = nearest_magnitude(m, 0);
        assert(mag <= 159 * HIDDEN_BIT);
        assert(nearest_bits(n as int) == if n < 0 {
            SIGN + mag
        } else {
            mag
        });
        lemma_rounded_is_nearest(m, 0, 0, other);
        assert(target(m, 0, 0) == m * two_to(149));
        assert(scaled_up(mag as u32, 0) == scaled_magnitude(mag as u32)) by (nonlinear_arith)
            requires
                scaled_up(mag as u32, 0) == scaled_magnitude(mag as u32) * two_to(0),
                two_to(0) == 1,
        ;
        assert(scaled_up(other, 0) == scaled_magnitude(other)) by (nonlinear_arith)
            requires
                scaled_up(other, 0) == scaled_magnitude(other) * two_to(0),
                two_to(0) == 1,
        ;
    } else {
        assert(significand(0) == 0);
        assert(0 * two_to(0) == 0);
        assert(0 * two_to(149) == 0);
    }
}

} // verus!
