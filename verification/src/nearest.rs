//! What is rounded goes to the nearest number: no number with a pattern lies
//! nearer to `sig * 2^exp` than the one that `nearest_magnitude` gives, and
//! of two that lie equally near it gives the one with an even pattern.
use crate::pattern::{
    exponent, exponent_field, lemma_magnitudes_grow, scaled_magnitude, significand, HIDDEN_BIT,
    INFINITY,
};
use crate::power::{
    lemma_top_bit, lemma_two_to_adds, lemma_two_to_grows, lemma_two_to_values, top_bit, two_to,
};
use crate::rounding::{
    lemma_nearest_magnitude_is_finite_or_infinity, nearest_magnitude, nearest_significand,
    rounded_quotient,
};
use vstd::prelude::*;

verus! {

/// The number that a pattern without sign stands for, counted in steps of
/// `2^(-149 - fine)`.
pub open spec fn scaled_up(mag: u32, fine: nat) -> nat {
    scaled_magnitude(mag) * two_to(fine)
}

/// `sig * 2^exp`, counted in steps of `2^(-149 - fine)`, which are to be so
/// fine that it is a whole number of them.
pub open spec fn target(sig: nat, exp: int, fine: nat) -> nat {
    sig * two_to((exp + 149 + fine) as nat)
}

/// How far two whole numbers lie apart.
pub open spec fn apart(x: nat, y: nat) -> nat {
    if x >= y {
        (x - y) as nat
    } else {
        (y - x) as nat
    }
}

/// The nearer of a pattern and the next one to a number that lies `rest`
/// above the first, where the two lie `step` apart: the next one where the
/// number lies beyond the middle, or in the middle with the first one odd.
pub open spec fn nearer(floor: int, rest: nat, step: nat) -> int {
    if 2 * rest > step || (2 * rest == step && floor % 2 == 1) {
        floor + 1
    } else {
        floor
    }
}

/// The number of a pattern with a given exponent field and 24 digits, and of
/// the pattern that follows the last one with this exponent field.
pub proof fn lemma_value_of_digits(field: int, digits: nat, fine: nat)
    requires
        1 <= field <= 254,
        0x80_0000 <= digits <= 0x100_0000,
    ensures
        0 <= (field - 1) * HIDDEN_BIT + digits <= INFINITY,
        scaled_up(((field - 1) * HIDDEN_BIT + digits) as u32, fine) == digits * two_to(
            (field - 1 + fine) as nat,
        ),
{
    let mag = ((field - 1) * HIDDEN_BIT + digits) as u32;
    let up = (field - 1) as nat;
    lemma_two_to_adds(up, fine);
    if digits < 0x100_0000 {
        assert(exponent_field(mag) == field);
        assert(significand(mag) == digits);
        assert(scaled_magnitude(mag) == digits * two_to(up));
        assert(digits * two_to(up) * two_to(fine) == digits * (two_to(up) * two_to(fine)))
            by (nonlinear_arith);
    } else {
        assert(exponent_field(mag) == field + 1);
        assert(significand(mag) == 0x80_0000);
        assert(two_to(up + 1) == 2 * two_to(up));
        assert(scaled_magnitude(mag) == 0x80_0000 * two_to(up + 1));
        assert(0x80_0000 * (2 * two_to(up)) * two_to(fine) == 0x100_0000 * (two_to(up) * two_to(
            fine,
        ))) by (nonlinear_arith);
    }
}

/// The number of a pattern below the normal ones, and of the first normal
/// one: the pattern itself, in steps of 2^-149.
pub proof fn lemma_value_of_small(mag: u32)
    requires
        mag <= 0x80_0000,
    ensures
        scaled_magnitude(mag) == mag,
{
    assert(two_to(0) == 1);
    if mag < 0x80_0000 {
        assert(exponent_field(mag) == 0);
        assert(significand(mag) == mag);
        assert(mag * two_to(0) == mag) by (nonlinear_arith)
            requires
                two_to(0) == 1,
        ;
    } else {
        assert(exponent_field(mag) == 1);
        assert(significand(mag) == 0x80_0000 && exponent(mag) == -149);
    }
}

/// How many of the last digits of `sig` are rounded away where `sig * 2^exp`
/// is given a pattern: those beyond the first 24, or those below 2^-149.
pub open spec fn places_lost(sig: nat, exp: int) -> nat {
    if top_bit(sig) + exp + 127 >= 1 {
        (top_bit(sig) - 23) as nat
    } else {
        (-(exp + 149)) as nat
    }
}

/// Where digits are rounded away, what is rounded lies between the number of
/// a pattern and that of the next one, which lie one step of the digits that
/// are kept apart, and the rounding of the digits tells which of the two is
/// given. The pattern is handed back; it is even where the digits kept are.
pub proof fn lemma_long_rounding_brackets(sig: nat, exp: int, fine: nat) -> (floor: int)
    requires
        sig > 0,
        exp + 149 + fine >= 0,
        nearest_magnitude(sig, exp) < INFINITY,
        top_bit(sig) + exp + 127 >= 1 ==> top_bit(sig) > 23,
        top_bit(sig) + exp + 127 < 1 ==> exp + 149 < 0,
    ensures
        0 <= floor < INFINITY,
        scaled_up(floor as u32, fine) == (sig / two_to(places_lost(sig, exp))) * (two_to(
            places_lost(sig, exp),
        ) * two_to((exp + 149 + fine) as nat)),
        scaled_up((floor + 1) as u32, fine) == scaled_up(floor as u32, fine) + two_to(
            places_lost(sig, exp),
        ) * two_to((exp + 149 + fine) as nat),
        nearest_magnitude(sig, exp) == floor + rounded_quotient(sig, places_lost(sig, exp)) - sig
            / two_to(places_lost(sig, exp)),
        floor % 2 == (sig / two_to(places_lost(sig, exp))) % 2,
{
    let p = top_bit(sig);
    let field = p + exp + 127;
    let fit = (exp + 149 + fine) as nat;
    let k = places_lost(sig, exp);
    let unit = two_to(k);
    let q = sig / unit;
    let rest = sig % unit;
    lemma_top_bit(sig);
    lemma_two_to_values();
    lemma_two_to_grows(0, fit);
    lemma_two_to_grows(0, k);
    vstd::arithmetic::div_mod::lemma_fundamental_div_mod(sig as int, unit as int);
    assert(sig == unit * q + rest && 0 <= rest < unit);
    let step = unit * two_to(fit);
    if field >= 1 {
        lemma_two_to_adds(23, k);
        lemma_two_to_adds(24, k);
        assert(0x80_0000 <= q < 0x100_0000) by (nonlinear_arith)
            requires
                sig == unit * q + rest,
                0 <= rest < unit,
                0x80_0000 * unit <= sig < 0x100_0000 * unit,
                unit >= 1,
        ;
        lemma_value_of_digits(field, q, fine);
        lemma_value_of_digits(field, q + 1, fine);
        let over = (field - 1 + fine) as nat;
        lemma_two_to_adds(k, fit);
        assert(k + fit == over);
        assert((q + 1) * two_to(over) == q * two_to(over) + step) by (nonlinear_arith)
            requires
                two_to(over) == unit * two_to(fit),
                step == unit * two_to(fit),
        ;
        let floor = (field - 1) * HIDDEN_BIT + q;
        assert(floor % 2 == q % 2) by {
            assert((field - 1) * HIDDEN_BIT == 2 * ((field - 1) * 0x40_0000)) by (nonlinear_arith);
        }
        assert(nearest_significand(sig) == rounded_quotient(sig, k));
        assert(floor < INFINITY) by {
            lemma_nearest_magnitude_is_finite_or_infinity(sig, exp);
        }
        floor
    } else {
        lemma_two_to_grows(p + 1, 23 + k);
        lemma_two_to_adds(23, k);
        assert(q < 0x80_0000) by (nonlinear_arith)
            requires
                sig == unit * q + rest,
                0 <= rest,
                sig < 0x80_0000 * unit,
                unit >= 1,
        ;
        lemma_value_of_small(q as u32);
        lemma_value_of_small((q + 1) as u32);
        lemma_two_to_adds(k, fit);
        assert(k + fit == fine);
        assert((q + 1) * two_to(fine) == q * two_to(fine) + step) by (nonlinear_arith)
            requires
                step == two_to(fine),
        ;
        q as int
    }
}

/// What is rounded lies between the number of a pattern and that of the
/// next one, and the rounding gives the nearer of the two. The pattern, how
/// far the number lies above it and how far the two lie apart are given.
pub proof fn lemma_rounding_brackets(sig: nat, exp: int, fine: nat) -> (r: (int, nat, nat))
    requires
        sig > 0,
        exp + 149 + fine >= 0,
        nearest_magnitude(sig, exp) < INFINITY,
    ensures
        0 <= r.0 < INFINITY,
        r.1 < r.2,
        scaled_up(r.0 as u32, fine) + r.1 == target(sig, exp, fine),
        scaled_up((r.0 + 1) as u32, fine) == scaled_up(r.0 as u32, fine) + r.2,
        nearest_magnitude(sig, exp) == nearer(r.0, r.1, r.2),
{
    let p = top_bit(sig);
    let field = p + exp + 127;
    let fit = (exp + 149 + fine) as nat;
    lemma_top_bit(sig);
    lemma_two_to_values();
    lemma_two_to_grows(0, fit);
    lemma_two_to_grows(0, fine);
    assert(two_to(0) == 1);
    if field >= 1 && p <= 23 {
        // Nothing is lost: the digits are moved up to 24 places.
        let up = (23 - p) as nat;
        let digits = sig * two_to(up);
        lemma_two_to_adds(p, up);
        lemma_two_to_adds(p + 1, up);
        lemma_two_to_grows(up, up);
        assert(two_to(p + 1) == 2 * two_to(p));
        assert(two_to(p) * two_to(up) <= sig * two_to(up) < two_to(p + 1) * two_to(up))
            by (nonlinear_arith)
            requires
                two_to(p) <= sig < two_to(p + 1),
                two_to(up) >= 1,
        ;
        lemma_value_of_digits(field, digits, fine);
        lemma_value_of_digits(field, digits + 1, fine);
        let over = (field - 1 + fine) as nat;
        lemma_two_to_adds(up, over);
        assert(up + over == fit);
        assert(digits * two_to(over) == sig * two_to(fit)) by (nonlinear_arith)
            requires
                digits == sig * two_to(up),
                two_to(fit) == two_to(up) * two_to(over),
        ;
        assert((digits + 1) * two_to(over) == digits * two_to(over) + two_to(over))
            by (nonlinear_arith);
        lemma_two_to_grows(0, over);
        let floor = (field - 1) * HIDDEN_BIT + digits;
        assert(nearest_significand(sig) == digits);
        assert(floor < INFINITY);
        (floor, 0, two_to(over))
    } else if field < 1 && exp + 149 >= 0 {
        // Nothing is lost below the normal numbers.
        let up = (exp + 149) as nat;
        let small = sig * two_to(up);
        lemma_two_to_adds(p + 1, up);
        lemma_two_to_grows(p + 1 + up, 23);
        lemma_two_to_grows(up, up);
        assert(sig * two_to(up) < two_to(p + 1) * two_to(up)) by (nonlinear_arith)
            requires
                sig < two_to(p + 1),
                two_to(up) >= 1,
        ;
        lemma_value_of_small(small as u32);
        lemma_value_of_small((small + 1) as u32);
        lemma_two_to_adds(up, fine);
        assert(small * two_to(fine) == sig * two_to(fit)) by (nonlinear_arith)
            requires
                small == sig * two_to(up),
                two_to(fit) == two_to(up) * two_to(fine),
        ;
        assert((small + 1) * two_to(fine) == small * two_to(fine) + two_to(fine))
            by (nonlinear_arith);
        (small as int, 0, two_to(fine))
    } else {
        // The last digits are rounded away.
        let floor = lemma_long_rounding_brackets(sig, exp, fine);
        let k = places_lost(sig, exp);
        let unit = two_to(k);
        let q = sig / unit;
        let rest = sig % unit;
        let step = unit * two_to(fit);
        lemma_two_to_grows(0, k);
        vstd::arithmetic::div_mod::lemma_fundamental_div_mod(sig as int, unit as int);
        assert(sig == unit * q + rest && 0 <= rest < unit);
        assert(q * step + rest * two_to(fit) == sig * two_to(fit)) by (nonlinear_arith)
            requires
                sig == unit * q + rest,
                step == unit * two_to(fit),
        ;
        assert(rest * two_to(fit) < step) by (nonlinear_arith)
            requires
                rest < unit,
                two_to(fit) >= 1,
                step == unit * two_to(fit),
        ;
        assert(2 * (rest * two_to(fit)) > step <==> 2 * rest > unit) by (nonlinear_arith)
            requires
                two_to(fit) >= 1,
                step == unit * two_to(fit),
        ;
        assert(2 * (rest * two_to(fit)) == step <==> 2 * rest == unit) by (nonlinear_arith)
            requires
                two_to(fit) >= 1,
                step == unit * two_to(fit),
        ;
        (floor, rest * two_to(fit), step)
    }
}

/// No finite number lies nearer to `sig * 2^exp` than the one that the
/// rounding gives, where that is finite; and where another lies as near, the
/// pattern that the rounding gives is even.
pub proof fn lemma_rounded_is_nearest(sig: nat, exp: int, fine: nat, other: u32)
    requires
        sig > 0,
        exp + 149 + fine >= 0,
        nearest_magnitude(sig, exp) < INFINITY,
        other < INFINITY,
    ensures
        0 <= nearest_magnitude(sig, exp),
        apart(scaled_up(nearest_magnitude(sig, exp) as u32, fine), target(sig, exp, fine)) <= apart(
            scaled_up(other, fine),
            target(sig, exp, fine),
        ),
        other != nearest_magnitude(sig, exp) && apart(
            scaled_up(nearest_magnitude(sig, exp) as u32, fine),
            target(sig, exp, fine),
        ) == apart(scaled_up(other, fine), target(sig, exp, fine)) ==> nearest_magnitude(sig, exp)
            % 2 == 0,
{
    let (floor, rest, step) = lemma_rounding_brackets(sig, exp, fine);
    let below = floor as u32;
    let above = (floor + 1) as u32;
    lemma_two_to_grows(0, fine);
    if other < below {
        lemma_magnitudes_grow(other, below);
        assert(scaled_up(other, fine) < scaled_up(below, fine)) by (nonlinear_arith)
            requires
                scaled_magnitude(other) < scaled_magnitude(below),
                two_to(fine) >= 1,
                scaled_up(other, fine) == scaled_magnitude(other) * two_to(fine),
                scaled_up(below, fine) == scaled_magnitude(below) * two_to(fine),
        ;
    } else if other > above {
        lemma_magnitudes_grow(above, other);
        assert(scaled_up(above, fine) < scaled_up(other, fine)) by (nonlinear_arith)
            requires
                scaled_magnitude(above) < scaled_magnitude(other),
                two_to(fine) >= 1,
                scaled_up(other, fine) == scaled_magnitude(other) * two_to(fine),
                scaled_up(above, fine) == scaled_magnitude(above) * two_to(fine),
        ;
    }
}

/// The digits of `n / d` with a last digit that is 1 where the division
/// leaves a rest.
pub open spec fn digits_with_rest(n: nat, d: nat) -> nat {
    2 * (n / d) + if n % d != 0 {
        1nat
    } else {
        0nat
    }
}

/// A quotient is rounded to the nearest: where the digits of `n / d` with
/// the digit for the rest, at least 27 of them, are given a pattern, no
/// finite number lies nearer to `2 n / d * 2^exp` than the number of that
/// pattern. All numbers are taken `d` times, so that they are whole.
pub proof fn lemma_rounded_ratio_is_nearest(n: nat, d: nat, exp: int, fine: nat, other: u32)
    requires
        d > 0,
        digits_with_rest(n, d) >= 0x400_0000,
        exp + 149 + fine >= 0,
        nearest_magnitude(digits_with_rest(n, d), exp) < INFINITY,
        other < INFINITY,
    ensures
        0 <= nearest_magnitude(digits_with_rest(n, d), exp),
        apart(
            d * scaled_up(nearest_magnitude(digits_with_rest(n, d), exp) as u32, fine),
            2 * n * two_to((exp + 149 + fine) as nat),
        ) <= apart(d * scaled_up(other, fine), 2 * n * two_to((exp + 149 + fine) as nat)),
{
    let x = digits_with_rest(n, d);
    let p = top_bit(x);
    let fit = (exp + 149 + fine) as nat;
    let grain = two_to(fit);
    lemma_top_bit(x);
    lemma_two_to_values();
    lemma_two_to_adds(24, 2);
    assert(two_to(2) == 4) by {
        reveal_with_fuel(two_to, 3);
    }
    if p < 26 {
        lemma_two_to_grows(p + 1, 26);
    }
    assert(p >= 26);
    let k = places_lost(x, exp);
    assert(k >= 2);
    let unit = two_to(k);
    let whole = d * unit;
    let a = x / unit;
    let rest = (2 * n) % whole;
    lemma_two_to_grows(0, k);
    lemma_two_to_grows(0, fit);
    let floor = lemma_long_rounding_brackets(x, exp, fine);
    crate::rounding::lemma_left_over_digit(n, d, k);
    assert(whole > 0) by (nonlinear_arith)
        requires
            whole == d * unit,
            d > 0,
            unit > 0,
    ;
    vstd::arithmetic::div_mod::lemma_fundamental_div_mod((2 * n) as int, whole as int);
    assert(2 * n == whole * a + rest && 0 <= rest < whole);
    let given = nearest_magnitude(x, exp);
    let below = d * scaled_up(floor as u32, fine);
    let above = d * scaled_up((floor + 1) as u32, fine);
    let aim = 2 * n * grain;
    let step = whole * grain;
    let over = rest * grain;
    assert(below == a * step) by (nonlinear_arith)
        requires
            below == d * scaled_up(floor as u32, fine),
            scaled_up(floor as u32, fine) == a * (unit * grain),
            step == whole * grain,
            whole == d * unit,
    ;
    assert(above == below + step) by (nonlinear_arith)
        requires
            above == d * scaled_up((floor + 1) as u32, fine),
            below == d * scaled_up(floor as u32, fine),
            scaled_up((floor + 1) as u32, fine) == scaled_up(floor as u32, fine) + unit * grain,
            step == whole * grain,
            whole == d * unit,
    ;
    assert(aim == below + over) by (nonlinear_arith)
        requires
            aim == 2 * n * grain,
            2 * n == whole * a + rest,
            below == a * step,
            step == whole * grain,
            over == rest * grain,
    ;
    assert(over < step) by (nonlinear_arith)
        requires
            over == rest * grain,
            step == whole * grain,
            rest < whole,
            grain >= 1,
    ;
    assert(2 * over > step <==> 2 * rest > whole) by (nonlinear_arith)
        requires
            over == rest * grain,
            step == whole * grain,
            grain >= 1,
    ;
    assert(2 * over == step <==> 2 * rest == whole) by (nonlinear_arith)
        requires
            over == rest * grain,
            step == whole * grain,
            grain >= 1,
    ;
    assert(given == floor || given == floor + 1);
    assert(given == floor ==> 2 * over <= step);
    assert(given == floor + 1 ==> 2 * over >= step);
    lemma_two_to_grows(0, fine);
    if other < floor {
        lemma_magnitudes_grow(other, floor as u32);
        assert(d * scaled_up(other, fine) <= below) by (nonlinear_arith)
            requires
                scaled_magnitude(other) < scaled_magnitude(floor as u32),
                two_to(fine) >= 1,
                d > 0,
                scaled_up(other, fine) == scaled_magnitude(other) * two_to(fine),
                below == d * (scaled_magnitude(floor as u32) * two_to(fine)),
        ;
    } else if other > floor + 1 {
        lemma_magnitudes_grow((floor + 1) as u32, other);
        assert(above <= d * scaled_up(other, fine)) by (nonlinear_arith)
            requires
                scaled_magnitude((floor + 1) as u32) < scaled_magnitude(other),
                two_to(fine) >= 1,
                d > 0,
                scaled_up(other, fine) == scaled_magnitude(other) * two_to(fine),
                above == d * (scaled_magnitude((floor + 1) as u32) * two_to(fine)),
        ;
    }
}

} // verus!
