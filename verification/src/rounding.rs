//! Rounding: the binary32 number nearest to a whole number times a power of
//! two.
//!
//! A number that has no pattern of its own is given the pattern of the
//! nearest number that has one, and of two that are equally near the one
//! with an even last digit.
use crate::pattern::{HIDDEN_BIT, INFINITY};
use crate::power::{
    doubled, lemma_top_bit, lemma_two_to_adds, lemma_two_to_grows, lemma_two_to_values, top_bit,
    two_to,
};
use vstd::prelude::*;

verus! {

/// `m / 2^k`, rounded to the nearest whole number, and to the even one of two
/// that are equally near.
pub open spec fn rounded_quotient(m: nat, k: nat) -> nat {
    let q = m / two_to(k);
    let r = m % two_to(k);
    if 2 * r > two_to(k) || (2 * r == two_to(k) && q % 2 == 1) {
        q + 1
    } else {
        q
    }
}

/// `n / d`, rounded to the nearest whole number, and to the even one of two
/// that are equally near.
pub open spec fn rounded_ratio(n: nat, d: nat) -> nat {
    if 2 * (n % d) > d || (2 * (n % d) == d && (n / d) % 2 == 1) {
        n / d + 1
    } else {
        n / d
    }
}

/// The 24 digits of the pattern nearest to a whole number `m` that is not
/// zero: `m` moved up where it has fewer digits, rounded where it has more.
pub open spec fn nearest_significand(m: nat) -> nat {
    if top_bit(m) <= 23 {
        m * two_to((23 - top_bit(m)) as nat)
    } else {
        rounded_quotient(m, (top_bit(m) - 23) as nat)
    }
}

/// The pattern without sign of the number nearest to `sig * 2^exp`: infinity
/// where that is too large for a number, and below the smallest normal number
/// the nearest multiple of 2^-149.
pub open spec fn nearest_magnitude(sig: nat, exp: int) -> int {
    if sig == 0 {
        0
    } else if top_bit(sig) + exp + 127 >= 255 {
        INFINITY as int
    } else if top_bit(sig) + exp + 127 >= 1 {
        (top_bit(sig) + exp + 126) * HIDDEN_BIT + nearest_significand(sig)
    } else if exp + 149 >= 0 {
        (sig * two_to((exp + 149) as nat)) as int
    } else {
        rounded_quotient(sig, (-(exp + 149)) as nat) as int
    }
}

/// `m / 2^k`, rounded to the nearest whole number, and to the even one of two
/// that are equally near.
pub fn round_quotient(m: u64, k: u32) -> (r: u64)
    requires
        m < 0x4000_0000_0000_0000,
    ensures
        r == rounded_quotient(m as nat, k as nat),
{
    if k > 62 {
        proof {
            lemma_two_to_values();
            lemma_two_to_grows(63, k as nat);
            lemma_two_to_adds(62, 1);
            assert(two_to(1) == 2) by {
                reveal_with_fuel(two_to, 2);
            }
            assert(2 * m < two_to(k as nat));
            vstd::arithmetic::div_mod::lemma_basic_div(m as int, two_to(k as nat) as int);
            vstd::arithmetic::div_mod::lemma_small_mod(m as nat, two_to(k as nat));
        }
        return 0;
    }
    proof {
        lemma_two_to_values();
        lemma_two_to_grows(k as nat, 62);
    }
    let unit: u64 = doubled(1, k);
    let q: u64 = m / unit;
    let rest: u64 = m % unit;
    if 2 * rest > unit || (2 * rest == unit && q % 2 == 1) {
        q + 1
    } else {
        q
    }
}

/// The pattern without sign of the number nearest to `sig * 2^exp`.
pub fn nearest_magnitude_of(sig: u64, exp: i32) -> (r: u32)
    requires
        sig < 0x4000_0000_0000_0000,
        -1000 <= exp <= 1000,
    ensures
        r == nearest_magnitude(sig as nat, exp as int),
{
    if sig == 0 {
        return 0;
    }
    // The place of the highest bit.
    let mut rest: u64 = sig;
    let mut p: u32 = 0;
    proof {
        lemma_top_bit(sig as nat);
        lemma_two_to_values();
        if top_bit(sig as nat) > 61 {
            lemma_two_to_grows(62, top_bit(sig as nat));
        }
    }
    while rest > 1
        invariant
            1 <= rest <= sig,
            top_bit(sig as nat) <= 61,
            top_bit(sig as nat) == p + top_bit(rest as nat),
        decreases rest,
    {
        rest = rest / 2;
        p = p + 1;
    }
    let field: i32 = p as i32 + exp + 127;
    if field >= 255 {
        INFINITY
    } else if field >= 1 {
        let digits: u64 = if p <= 23 {
            proof {
                lemma_two_to_adds((p + 1) as nat, (23 - p) as nat);
                lemma_two_to_grows((23 - p) as nat, (23 - p) as nat);
                assert(sig * two_to((23 - p) as nat) < two_to((p + 1) as nat) * two_to(
                    (23 - p) as nat,
                )) by (nonlinear_arith)
                    requires
                        sig < two_to((p + 1) as nat),
                        two_to((23 - p) as nat) >= 1,
                ;
            }
            doubled(sig, 23 - p)
        } else {
            proof {
                lemma_bounded_quotient(sig as nat, (p - 23) as nat, 24);
            }
            round_quotient(sig, p - 23)
        };
        assert(digits <= 0x100_0000);
        ((field - 1) as u64 * 0x80_0000 + digits) as u32
    } else if exp + 149 >= 0 {
        proof {
            lemma_two_to_adds((p + 1) as nat, (exp + 149) as nat);
            lemma_two_to_grows((p + 1 + exp + 149) as nat, 23);
            lemma_two_to_grows((exp + 149) as nat, (exp + 149) as nat);
            assert(sig * two_to((exp + 149) as nat) < two_to((p + 1) as nat) * two_to(
                (exp + 149) as nat,
            )) by (nonlinear_arith)
                requires
                    sig < two_to((p + 1) as nat),
                    two_to((exp + 149) as nat) >= 1,
            ;
        }
        doubled(sig, (exp + 149) as u32) as u32
    } else {
        proof {
            lemma_two_to_grows((p + 1) as nat, (23 - (exp + 149)) as nat);
            lemma_bounded_quotient(sig as nat, (-(exp + 149)) as nat, 23);
        }
        round_quotient(sig, (-(exp + 149)) as u32) as u32
    }
}

/// A number below `2^(k + bits)` divided by `2^k` and rounded is `2^bits` at
/// most.
pub proof fn lemma_bounded_quotient(m: nat, k: nat, bits: nat)
    requires
        m < two_to(k + bits),
    ensures
        rounded_quotient(m, k) <= two_to(bits),
{
    lemma_two_to_adds(k, bits);
    lemma_two_to_grows(k, k);
    let unit = two_to(k);
    assert(m / unit < two_to(bits)) by (nonlinear_arith)
        requires
            m < unit * two_to(bits),
            unit >= 1,
    ;
}

/// The pattern without sign of the nearest number is that of a finite number
/// or of infinity.
pub proof fn lemma_nearest_magnitude_is_finite_or_infinity(sig: nat, exp: int)
    ensures
        0 <= nearest_magnitude(sig, exp) <= INFINITY,
{
    if sig > 0 {
        let p = top_bit(sig);
        lemma_top_bit(sig);
        lemma_two_to_values();
        let field = p + exp + 127;
        if 1 <= field < 255 {
            if p <= 23 {
                let up = (23 - p) as nat;
                lemma_two_to_adds(p + 1, up);
                lemma_two_to_grows(up, up);
                assert(sig * two_to(up) < two_to(p + 1) * two_to(up)) by (nonlinear_arith)
                    requires
                        sig < two_to(p + 1),
                        two_to(up) >= 1,
                ;
            } else {
                lemma_bounded_quotient(sig, (p - 23) as nat, 24);
            }
            assert(nearest_significand(sig) <= 0x100_0000);
        } else if field < 1 {
            if exp + 149 >= 0 {
                let up = (exp + 149) as nat;
                lemma_two_to_adds(p + 1, up);
                lemma_two_to_grows(p + 1 + up, 23);
                lemma_two_to_grows(up, up);
                assert(sig * two_to(up) < two_to(p + 1) * two_to(up)) by (nonlinear_arith)
                    requires
                        sig < two_to(p + 1),
                        two_to(up) >= 1,
                ;
            } else {
                lemma_two_to_grows(p + 1, (23 - (exp + 149)) as nat);
                lemma_bounded_quotient(sig, (-(exp + 149)) as nat, 23);
            }
        }
    }
}

/// The nearest number is not much larger than what is rounded: where
/// `sig * 2^exp` lies below `2^(field - 126)`, the pattern of the nearest
/// number lies at or below that of `2^(field - 126)`.
pub proof fn lemma_nearest_magnitude_bound(sig: nat, exp: int, field: int)
    requires
        0 <= field <= 253,
        sig > 0 ==> top_bit(sig) + exp + 127 <= field,
    ensures
        0 <= nearest_magnitude(sig, exp) <= (field + 1) * HIDDEN_BIT,
{
    lemma_nearest_magnitude_is_finite_or_infinity(sig, exp);
    if sig > 0 {
        let p = top_bit(sig);
        let own = p + exp + 127;
        lemma_top_bit(sig);
        lemma_two_to_values();
        if own >= 1 {
            if p <= 23 {
                let up = (23 - p) as nat;
                lemma_two_to_adds(p + 1, up);
                lemma_two_to_grows(up, up);
                assert(sig * two_to(up) < two_to(p + 1) * two_to(up)) by (nonlinear_arith)
                    requires
                        sig < two_to(p + 1),
                        two_to(up) >= 1,
                ;
            } else {
                lemma_bounded_quotient(sig, (p - 23) as nat, 24);
            }
            assert(nearest_significand(sig) <= 0x100_0000);
            assert(nearest_magnitude(sig, exp) <= (own + 1) * HIDDEN_BIT);
            assert((own + 1) * HIDDEN_BIT <= (field + 1) * HIDDEN_BIT) by (nonlinear_arith)
                requires
                    own <= field,
            ;
        } else {
            if exp + 149 >= 0 {
                let up = (exp + 149) as nat;
                lemma_two_to_adds(p + 1, up);
                lemma_two_to_grows(p + 1 + up, 23);
                lemma_two_to_grows(up, up);
                assert(sig * two_to(up) < two_to(p + 1) * two_to(up)) by (nonlinear_arith)
                    requires
                        sig < two_to(p + 1),
                        two_to(up) >= 1,
                ;
            } else {
                lemma_two_to_grows(p + 1, (23 - (exp + 149)) as nat);
                lemma_bounded_quotient(sig, (-(exp + 149)) as nat, 23);
            }
            assert(nearest_magnitude(sig, exp) <= 0x80_0000);
            assert(0x80_0000 <= (field + 1) * HIDDEN_BIT) by (nonlinear_arith)
                requires
                    field >= 0,
            ;
        }
    }
}

/// A quotient to which a last digit is added that is 1 where the division
/// leaves a rest is rounded as the exact quotient is: twice the whole part
/// of `n / d`, and one more where something is left over, rounded by `k`
/// places, is `2 n / d` rounded by `k` places.
pub proof fn lemma_left_over_digit(n: nat, d: nat, k: nat)
    requires
        d > 0,
        k >= 2,
    ensures
        rounded_quotient(
            2 * (n / d) + if n % d != 0 {
                1nat
            } else {
                0nat
            },
            k,
        ) == rounded_ratio(2 * n, d * two_to(k)),
        (2 * (n / d) + if n % d != 0 {
            1nat
        } else {
            0nat
        }) / two_to(k) == (2 * n) / (d * two_to(k)),
{
    let q = n / d;
    let r = n % d;
    let s = if r != 0 {
        1nat
    } else {
        0nat
    };
    let x = 2 * q + s;
    let unit = two_to(k);
    let a = x / unit;
    let b = x % unit;
    let whole = d * unit;
    lemma_two_to_grows(2, k);
    lemma_two_to_adds(2, (k - 2) as nat);
    assert(two_to(2) == 4) by {
        reveal_with_fuel(two_to, 3);
    }
    let quarter = two_to((k - 2) as nat);
    assert(unit == 4 * quarter);
    vstd::arithmetic::div_mod::lemma_fundamental_div_mod(n as int, d as int);
    vstd::arithmetic::div_mod::lemma_fundamental_div_mod(x as int, unit as int);
    assert(n == d * q + r);
    assert(x == unit * a + b);
    assert(0 <= b < unit && 0 <= r < d);
    // With a rest the digits are odd, and so is what they leave.
    let odd_part = q - 2 * (quarter * a);
    if s == 1 {
        assert(b == 2 * odd_part + 1) by (nonlinear_arith)
            requires
                x == 2 * q + 1,
                x == unit * a + b,
                unit == 4 * quarter,
                odd_part == q - 2 * (quarter * a),
        ;
        assert(b >= 1);
    }
    let rest = ((b - s) * d + 2 * r) as nat;
    assert((b - s) * d >= 0) by (nonlinear_arith)
        requires
            b >= s,
            d > 0,
    ;
    assert(2 * n == a * whole + rest) by (nonlinear_arith)
        requires
            n == d * q + r,
            x == unit * a + b,
            x == 2 * q + s,
            whole == d * unit,
            rest == (b - s) * d + 2 * r,
    ;
    assert(rest < whole) by (nonlinear_arith)
        requires
            rest == (b - s) * d + 2 * r,
            whole == d * unit,
            b < unit,
            r < d,
            s == 1 || r == 0,
            s <= 1,
            b >= s,
    ;
    vstd::arithmetic::div_mod::lemma_fundamental_div_mod_converse(
        (2 * n) as int,
        whole as int,
        a as int,
        rest as int,
    );
    assert((2 * n) / whole == a && (2 * n) % whole == rest);
    if s == 0 {
        assert(2 * rest > whole <==> 2 * b > unit) by (nonlinear_arith)
            requires
                rest == b * d,
                whole == d * unit,
                d > 0,
        ;
        assert(2 * rest == whole <==> 2 * b == unit) by (nonlinear_arith)
            requires
                rest == b * d,
                whole == d * unit,
                d > 0,
        ;
    } else {
        assert(2 * b != unit) by {
            assert(2 * b == 4 * odd_part + 2);
            assert(unit as int == 4 * (quarter as int));
            vstd::arithmetic::div_mod::lemma_mod_multiples_basic(quarter as int, 4);
            vstd::arithmetic::div_mod::lemma_mod_multiples_vanish(odd_part, 2, 4);
            assert((4 * odd_part + 2) % 4 == 2);
            assert(((quarter as int) * 4) % 4 == 0);
        }
        if 2 * b > unit {
            assert(2 * rest > whole) by (nonlinear_arith)
                requires
                    rest == (b - 1) * d + 2 * r,
                    whole == d * unit,
                    2 * b >= unit + 2,
                    r >= 1,
                    d > 0,
            ;
        } else {
            assert(2 * rest < whole) by (nonlinear_arith)
                requires
                    rest == (b - 1) * d + 2 * r,
                    whole == d * unit,
                    2 * b + 2 <= unit,
                    r < d,
                    d > 0,
            ;
        }
    }
}

} // verus!
