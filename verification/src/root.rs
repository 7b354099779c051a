//! Square roots of binary32 numbers, computed on the bits.
//!
//! The digits of the number are moved up by an even number of places and
//! their root is taken as a whole number to 27 or 28 places. One more digit
//! tells whether anything is left over, so that the one rounding that follows
//! goes the way that the exact root goes.
use crate::nearest::{lemma_long_rounding_brackets, places_lost, scaled_up};
use crate::pattern::{
    exponent, lemma_magnitudes_grow, magnitude, normal_digits, normal_exponent, normalize, quiet,
    quieted, scaled_magnitude, significand, without_sign, INFINITY, NAN, SIGN,
};
use crate::power::{
    lemma_square_grows, lemma_top_bit, lemma_two_to_adds, lemma_two_to_grows, lemma_two_to_values,
    top_bit, two_to,
};
use crate::rounding::{
    lemma_nearest_magnitude_bound, lemma_nearest_magnitude_is_finite_or_infinity,
    nearest_magnitude, nearest_magnitude_of, rounded_quotient,
};
use vstd::prelude::*;

verus! {

/// 2^30: by this the digits are moved up before their root is taken.
pub const ROOT_PLACES: u64 = 0x4000_0000;

/// 2^27: the highest digit that the root of the digits can have.
pub const ROOT_TOP: u64 = 0x800_0000;

/// Whether `s` is the whole part of the square root of `m`.
pub open spec fn is_whole_root(m: nat, s: nat) -> bool {
    s * s <= m < (s + 1) * (s + 1)
}

/// The whole part of the square root of a whole number.
pub open spec fn whole_root(m: nat) -> nat {
    choose|s: nat| is_whole_root(m, s)
}

/// The digits whose root is taken: those of the pattern, moved up to 24
/// places and by 30 more, and by one more still where the exponent is odd.
pub open spec fn radicand(mag: u32) -> nat {
    if normal_exponent(mag) % 2 == 0 {
        normal_digits(mag) * ROOT_PLACES as nat
    } else {
        2 * normal_digits(mag) * ROOT_PLACES as nat
    }
}

/// The power of two that the root of the radicand is multiplied by: half of
/// what is left of the exponent.
pub open spec fn root_exponent(mag: u32) -> int {
    if normal_exponent(mag) % 2 == 0 {
        normal_exponent(mag) / 2 - 15
    } else {
        (normal_exponent(mag) - 1) / 2 - 15
    }
}

/// Twice the whole part of the root of `m`, and one more where `m` is no
/// square.
pub open spec fn root_digits(m: nat) -> nat {
    2 * whole_root(m) + if whole_root(m) * whole_root(m) != m {
        1nat
    } else {
        0nat
    }
}

/// The square root of a pattern. A NaN gives itself, made quiet. A zero
/// gives itself and positive infinity gives itself. Any other negative number
/// gives a NaN. Else the root is the number nearest to the exact root.
#[verifier::opaque]
pub open spec fn root_of(a: u32) -> u32 {
    if magnitude(a) > INFINITY {
        quieted(a)
    } else if magnitude(a) == 0 {
        a
    } else if a >= SIGN {
        NAN
    } else if a == INFINITY {
        a
    } else {
        nearest_magnitude(root_digits(radicand(a)), root_exponent(a) - 1) as u32
    }
}

/// Whether the whole number `t` is nearest to `2 sqrt(m) / unit`: whether it
/// lies no more than a half from it, and is even where it lies just a half
/// from it. The half is told by squares: `t - 1/2 <= 2 sqrt(m) / unit` is
/// `(2 t - 1)^2 unit^2 <= 16 m`, and so on the other side.
pub open spec fn is_nearest_to_root(m: nat, unit: nat, t: nat) -> bool {
    &&& 16 * m <= (2 * t + 1) * (2 * t + 1) * (unit * unit)
    &&& t >= 1 ==> (2 * t - 1) * (2 * t - 1) * (unit * unit) <= 16 * m
    &&& 16 * m == (2 * t + 1) * (2 * t + 1) * (unit * unit) ==> t % 2 == 0
    &&& t >= 1 && 16 * m == (2 * t - 1) * (2 * t - 1) * (unit * unit) ==> t % 2 == 0
}

/// The whole part of the square root of a whole number below 2^56, found
/// digit by digit from the highest one down.
pub fn whole_root_of(m: u64) -> (r: u64)
    requires
        m < 0x100_0000_0000_0000,
    ensures
        r == whole_root(m as nat),
        is_whole_root(m as nat, r as nat),
        r < 0x1000_0000,
{
    let mut s: u64 = 0;
    let mut step: u64 = ROOT_TOP;
    let mut bound: u64 = 2 * ROOT_TOP;
    let ghost mut place: nat = 27;
    assert(m < bound * bound) by (nonlinear_arith)
        requires
            m < 0x100_0000_0000_0000,
            bound == 0x1000_0000,
    ;
    proof {
        lemma_two_to_values();
        crate::power::lemma_two_to_adds(24, 3);
        assert(two_to(3) == 8) by {
            reveal_with_fuel(two_to, 4);
        }
    }
    while step > 0
        invariant
            s * s <= m,
            m < (s + bound) * (s + bound),
            s + bound <= 0x1000_0000,
            step > 0 ==> step == two_to(place) && bound == 2 * step,
            step == 0 ==> bound == 1,
            step <= ROOT_TOP,
        decreases step,
    {
        let t: u64 = s + step;
        assert(t * t < 0x1000_0000 * 0x1000_0000) by (nonlinear_arith)
            requires
                t < 0x1000_0000,
        ;
        if t * t <= m {
            s = t;
        }
        bound = step;
        step = step / 2;
        proof {
            if place > 0 {
                place = (place - 1) as nat;
            } else {
                assert(two_to(0) == 1);
            }
        }
    }
    proof {
        assert(is_whole_root(m as nat, s as nat));
        lemma_whole_root_is_unique(m as nat, s as nat, whole_root(m as nat));
    }
    s
}

/// The square root of a pattern.
pub fn square_root(a: u32) -> (r: u32)
    ensures
        r == root_of(a),
{
    proof {
        reveal(root_of);
    }
    let ma: u32 = without_sign(a);
    if ma > INFINITY {
        return quiet(a);
    }
    if ma == 0 {
        return a;
    }
    if a >= SIGN {
        return NAN;
    }
    if a == INFINITY {
        return a;
    }
    let (digits, x) = normalize(a);
    let (m, half): (u64, i32) = if x % 2 == 0 {
        (digits * ROOT_PLACES, x / 2 - 15)
    } else {
        (2 * digits * ROOT_PLACES, (x - 1) / 2 - 15)
    };
    let s = whole_root_of(m);
    let with_rest: u64 = if s * s != m {
        2 * s + 1
    } else {
        2 * s
    };
    let rest = nearest_magnitude_of(with_rest, half - 1);
    proof {
        lemma_nearest_magnitude_is_finite_or_infinity(with_rest as nat, (half - 1) as int);
    }
    rest
}

/// A whole number has one whole root only.
pub proof fn lemma_whole_root_is_unique(m: nat, s: nat, t: nat)
    requires
        is_whole_root(m, s),
        is_whole_root(m, t),
    ensures
        s == t,
{
    if s < t {
        assert((s + 1) * (s + 1) <= t * t) by (nonlinear_arith)
            requires
                s + 1 <= t,
        ;
    } else if t < s {
        assert((t + 1) * (t + 1) <= s * s) by (nonlinear_arith)
            requires
                t + 1 <= s,
        ;
    }
}

/// The digits of a root are rounded as the exact root is: rounded by `k`
/// places, they give the whole number nearest to `2 sqrt(m) / 2^k`.
pub proof fn lemma_root_is_rounded_once(m: nat, k: nat)
    requires
        k >= 2,
    ensures
        is_nearest_to_root(m, two_to(k), rounded_quotient(root_digits(m), k)),
{
    lemma_whole_root_exists(m);
    let s = whole_root(m);
    assert(is_whole_root(m, s));
    let left_over = if s * s != m {
        1nat
    } else {
        0nat
    };
    let x = 2 * s + left_over;
    let unit = two_to(k);
    let a = x / unit;
    let b = x % unit;
    let t = rounded_quotient(x, k);
    crate::power::lemma_two_to_grows(2, k);
    crate::power::lemma_two_to_adds(2, (k - 2) as nat);
    assert(two_to(2) == 4) by {
        reveal_with_fuel(two_to, 3);
    }
    let quarter = two_to((k - 2) as nat);
    assert(unit == 4 * quarter);
    vstd::arithmetic::div_mod::lemma_fundamental_div_mod(x as int, unit as int);
    assert(x == unit * a + b && 0 <= b < unit);
    // What lies between `t` and the digits, doubled: `low <= 2 x <= high`.
    let low: int = (2 * t - 1) * unit;
    let high: int = ((2 * t + 1) * unit) as int;
    if t == a {
        assert(2 * b <= unit);
        assert(low == 2 * (unit * a) - unit && high == 2 * (unit * a) + unit)
            by (nonlinear_arith)
            requires
                low == (2 * t - 1) * unit,
                high == (2 * t + 1) * unit,
                t == a,
        ;
    } else {
        assert(t == a + 1 && 2 * b >= unit);
        assert(low == 2 * (unit * a) + unit && high == 2 * (unit * a) + 3 * unit)
            by (nonlinear_arith)
            requires
                low == (2 * t - 1) * unit,
                high == (2 * t + 1) * unit,
                t == a + 1,
        ;
    }
    assert(low <= 2 * x <= high);
    assert(t % 2 == 0 || (low < 2 * x < high));
    if left_over == 0 {
        // The root is whole: the digits are exact.
        assert(16 * m == (2 * x) * (2 * x)) by (nonlinear_arith)
            requires
                m == s * s,
                x == 2 * s,
        ;
        if t >= 1 {
            assert((2 * t - 1) * (2 * t - 1) * (unit * unit) == low * low) by (nonlinear_arith)
                requires
                    low == (2 * t - 1) * unit,
            ;
            lemma_square_grows(low, (2 * x) as int);
        }
        assert((2 * t + 1) * (2 * t + 1) * (unit * unit) == high * high) by (nonlinear_arith)
            requires
                high == (2 * t + 1) * unit,
        ;
        lemma_square_grows((2 * x) as int, high);
    } else {
        // The root lies strictly between `s` and `s + 1`, and the digits are
        // odd: `low <= 4 s` and `4 s + 4 <= high`.
        let odd_part = s - 2 * (quarter * a);
        assert(b == 2 * odd_part + 1) by (nonlinear_arith)
            requires
                x == 2 * s + 1,
                x == unit * a + b,
                unit == 4 * quarter,
                odd_part == s - 2 * (quarter * a),
        ;
        assert(2 * b != unit) by {
            vstd::arithmetic::div_mod::lemma_mod_multiples_basic(quarter as int, 4);
            vstd::arithmetic::div_mod::lemma_mod_multiples_vanish(odd_part, 2, 4);
            assert((4 * odd_part + 2) % 4 == 2);
            assert(((quarter as int) * 4) % 4 == 0);
        }
        assert(low <= 4 * s && 4 * s + 4 <= high);
        assert(16 * (s * s) < 16 * m < 16 * ((s + 1) * (s + 1)));
        if t >= 1 {
            assert((2 * t - 1) * (2 * t - 1) * (unit * unit) == low * low) by (nonlinear_arith)
                requires
                    low == (2 * t - 1) * unit,
            ;
            lemma_square_grows(low, (4 * s) as int);
            assert((4 * s) * (4 * s) == 16 * (s * s)) by (nonlinear_arith);
        }
        assert((2 * t + 1) * (2 * t + 1) * (unit * unit) == high * high) by (nonlinear_arith)
            requires
                high == (2 * t + 1) * unit,
        ;
        lemma_square_grows((4 * s + 4) as int, high);
        assert((4 * s + 4) * (4 * s + 4) == 16 * ((s + 1) * (s + 1))) by (nonlinear_arith);
    }
}

/// Every whole number has a whole root.
pub proof fn lemma_whole_root_exists(m: nat)
    ensures
        is_whole_root(m, whole_root(m)),
    decreases m,
{
    if m == 0 {
        assert(0nat * 0nat == 0 && (0nat + 1) * (0nat + 1) == 1) by (nonlinear_arith);
        assert(is_whole_root(0, 0));
    } else {
        lemma_whole_root_exists((m - 1) as nat);
        let s = whole_root((m - 1) as nat);
        if (s + 1) * (s + 1) <= m {
            assert((s + 2) * (s + 2) > (s + 1) * (s + 1)) by (nonlinear_arith);
            assert(is_whole_root(m, s + 1));
        } else {
            assert(is_whole_root(m, s));
        }
    }
}

/// The digits of a root that are kept lie at or below the root, and the next
/// digits above it: with `digits = kept * unit + rest` for the digits of the
/// root of `m` with the digit for what is left over, `kept * unit` is at most
/// twice the root and `(kept + 1) * unit` is more.
pub proof fn lemma_root_floor(m: nat, unit: nat, kept: nat, rest: nat)
    requires
        unit % 2 == 0,
        unit >= 2,
        rest < unit,
        root_digits(m) == kept * unit + rest,
    ensures
        (kept * unit) * (kept * unit) <= 4 * m,
        4 * m < ((kept + 1) * unit) * ((kept + 1) * unit),
{
    lemma_whole_root_exists(m);
    let s = whole_root(m);
    let x = root_digits(m);
    let low = kept * unit;
    let high = (kept + 1) * unit;
    assert(high == low + unit) by (nonlinear_arith)
        requires
            high == (kept + 1) * unit,
            low == kept * unit,
    ;
    assert(low % 2 == 0) by {
        let half = unit / 2;
        assert(unit == 2 * half);
        assert(low == 2 * (kept * half)) by (nonlinear_arith)
            requires
                low == kept * unit,
                unit == 2 * half,
        ;
    }
    assert(high % 2 == 0);
    assert((2 * s) * (2 * s) == 4 * (s * s)) by (nonlinear_arith);
    assert((2 * s + 2) * (2 * s + 2) == 4 * ((s + 1) * (s + 1))) by (nonlinear_arith);
    if s * s == m {
        assert(low <= 2 * s < high);
        lemma_square_grows(low as int, (2 * s) as int);
        lemma_square_grows((2 * s) as int, high as int);
    } else {
        assert(x == 2 * s + 1);
        assert(low <= 2 * s && 2 * s + 2 <= high);
        lemma_square_grows(low as int, (2 * s) as int);
        lemma_square_grows((2 * s + 2) as int, high as int);
    }
}

/// The middle between the rounded root and a number at or below the kept
/// digits lies at or below the root: by squares, and with all numbers in
/// steps that are `grain` times as fine.
pub proof fn lemma_middle_below_root(
    m: nat,
    unit: nat,
    kept: nat,
    rounded: nat,
    grain: nat,
    below: nat,
)
    requires
        grain >= 1,
        (kept * unit) * (kept * unit) <= 4 * m,
        is_nearest_to_root(m, unit, rounded),
        rounded == kept || rounded == kept + 1,
        below <= kept * (unit * grain),
    ensures
        (rounded * (unit * grain) + below) * (rounded * (unit * grain) + below) <= 16 * m * (grain
            * grain),
{
    let step = unit * grain;
    let given = rounded * step;
    let floor = kept * step;
    let next = (kept + 1) * step;
    let aim = 16 * m * (grain * grain);
    assert(next == floor + step) by (nonlinear_arith)
        requires
            next == (kept + 1) * step,
            floor == kept * step,
    ;
    if rounded == kept {
        assert(4 * (floor * floor) <= aim) by (nonlinear_arith)
            requires
                floor == kept * (unit * grain),
                (kept * unit) * (kept * unit) <= 4 * m,
                aim == 16 * m * (grain * grain),
        ;
        lemma_square_grows((given + below) as int, (2 * floor) as int);
        assert((2 * floor) * (2 * floor) == 4 * (floor * floor)) by (nonlinear_arith);
    } else {
        assert((floor + next) * (floor + next) == (2 * kept + 1) * (2 * kept + 1) * (unit * unit)
            * (grain * grain)) by (nonlinear_arith)
            requires
                floor == kept * (unit * grain),
                next == (kept + 1) * (unit * grain),
        ;
        assert((floor + next) * (floor + next) <= aim) by (nonlinear_arith)
            requires
                (2 * rounded - 1) * (2 * rounded - 1) * (unit * unit) <= 16 * m,
                rounded == kept + 1,
                (floor + next) * (floor + next) == (2 * kept + 1) * (2 * kept + 1) * (unit * unit)
                    * (grain * grain),
                aim == 16 * m * (grain * grain),
        ;
        lemma_square_grows((given + below) as int, (floor + next) as int);
    }
}

/// The middle between the rounded root and a number at or above the digits
/// that follow the kept ones lies at or above the root: by squares, and with
/// all numbers in steps that are `grain` times as fine.
pub proof fn lemma_middle_above_root(
    m: nat,
    unit: nat,
    kept: nat,
    rounded: nat,
    grain: nat,
    above: nat,
)
    requires
        grain >= 1,
        4 * m < ((kept + 1) * unit) * ((kept + 1) * unit),
        is_nearest_to_root(m, unit, rounded),
        rounded == kept || rounded == kept + 1,
        above >= (kept + 1) * (unit * grain),
    ensures
        (rounded * (unit * grain) + above) * (rounded * (unit * grain) + above) >= 16 * m * (grain
            * grain),
{
    let step = unit * grain;
    let given = rounded * step;
    let floor = kept * step;
    let next = (kept + 1) * step;
    let aim = 16 * m * (grain * grain);
    assert(next == floor + step) by (nonlinear_arith)
        requires
            next == (kept + 1) * step,
            floor == kept * step,
    ;
    if rounded == kept {
        assert((floor + next) * (floor + next) == (2 * kept + 1) * (2 * kept + 1) * (unit * unit)
            * (grain * grain)) by (nonlinear_arith)
            requires
                floor == kept * (unit * grain),
                next == (kept + 1) * (unit * grain),
        ;
        assert(aim <= (floor + next) * (floor + next)) by (nonlinear_arith)
            requires
                16 * m <= (2 * kept + 1) * (2 * kept + 1) * (unit * unit),
                (floor + next) * (floor + next) == (2 * kept + 1) * (2 * kept + 1) * (unit * unit)
                    * (grain * grain),
                aim == 16 * m * (grain * grain),
        ;
        lemma_square_grows((floor + next) as int, (given + above) as int);
    } else {
        assert(4 * (next * next) >= aim) by (nonlinear_arith)
            requires
                next == (kept + 1) * (unit * grain),
                4 * m < ((kept + 1) * unit) * ((kept + 1) * unit),
                aim == 16 * m * (grain * grain),
        ;
        lemma_square_grows((2 * next) as int, (given + above) as int);
        assert((2 * next) * (2 * next) == 4 * (next * next)) by (nonlinear_arith);
    }
}

/// The radicand of a finite pattern that is not zero is the number of the
/// pattern, moved up by an even number of places: with the number counted
/// in steps of 2^-149, `m * 2^(2 h + 298) = n * 2^149` for the radicand `m`
/// and the exponent `h` of the root. The radicand has 54 or 55 digits.
pub proof fn lemma_radicand(a: u32)
    requires
        0 < a < INFINITY,
    ensures
        0x20_0000_0000_0000 <= radicand(a) < 0x80_0000_0000_0000,
        -101 <= root_exponent(a) <= 37,
        radicand(a) * two_to((2 * root_exponent(a) + 298) as nat) == scaled_magnitude(a) * two_to(
            149,
        ),
{
    let sa = significand(a) as nat;
    let pa = top_bit(sa);
    lemma_top_bit(sa);
    lemma_two_to_values();
    if pa > 23 {
        lemma_two_to_grows(24, pa);
    }
    let ja = (23 - pa) as nat;
    let nd = normal_digits(a);
    let nx = normal_exponent(a);
    let h = root_exponent(a);
    let m = radicand(a);
    lemma_two_to_adds(pa, ja);
    lemma_two_to_adds(pa + 1, ja);
    lemma_two_to_grows(ja, ja);
    assert(two_to(pa + 1) == 2 * two_to(pa));
    assert(0x80_0000 <= nd < 0x100_0000) by (nonlinear_arith)
        requires
            nd == sa * two_to(ja),
            two_to(pa) <= sa < 2 * two_to(pa),
            two_to(pa) * two_to(ja) == 0x80_0000,
            two_to(ja) >= 1,
    ;
    let high = (exponent(a) + 149) as nat;
    let all = two_to(high + 149);
    lemma_two_to_adds(high, 149);
    assert(scaled_magnitude(a) * two_to(149) == sa * all) by (nonlinear_arith)
        requires
            scaled_magnitude(a) == sa * two_to(high),
            all == two_to(high) * two_to(149),
    ;
    lemma_two_to_adds(16, 16);
    lemma_two_to_adds(32, 0);
    assert(two_to(30) == 0x4000_0000) by {
        lemma_two_to_adds(24, 6);
        assert(two_to(6) == 64) by {
            reveal_with_fuel(two_to, 7);
        }
    }
    assert(two_to(1) == 2) by {
        reveal_with_fuel(two_to, 2);
    }
    lemma_two_to_adds(30, 1);
    let moved = if nx % 2 == 0 {
        30nat
    } else {
        31nat
    };
    let up = (2 * h + 298) as nat;
    assert(m == nd * two_to(moved)) by (nonlinear_arith)
        requires
            m == if nx % 2 == 0 {
                nd * 0x4000_0000
            } else {
                2 * nd * 0x4000_0000
            },
            two_to(30) == 0x4000_0000,
            two_to(31) == 2 * 0x4000_0000,
            moved == if nx % 2 == 0 {
                30nat
            } else {
                31nat
            },
    ;
    assert(ja + moved + up == high + 149);
    lemma_two_to_adds(ja, moved);
    lemma_two_to_adds(ja + moved, up);
    assert(m * two_to(up) == sa * all) by (nonlinear_arith)
        requires
            m == nd * two_to(moved),
            nd == sa * two_to(ja),
            two_to(ja + moved) == two_to(ja) * two_to(moved),
            all == two_to(ja + moved) * two_to(up),
    ;
    assert(0x20_0000_0000_0000 <= m < 0x80_0000_0000_0000) by (nonlinear_arith)
        requires
            m == nd * 0x4000_0000 || m == 2 * nd * 0x4000_0000,
            0x80_0000 <= nd < 0x100_0000,
    ;
}

/// The root is rounded to the nearest: the exact root of a finite number
/// above zero lies no nearer to any other finite number than to its root.
/// This is told by squares. The middle between the root and a smaller number
/// lies at or below the exact root: its square is at most the number; and
/// the middle between the root and a larger number lies at or above it. The
/// numbers are counted in steps of 2^-149, and their squares in steps of
/// 2^-298.
pub proof fn lemma_root_is_nearest(a: u32, other: u32)
    requires
        0 < a < INFINITY,
        other < INFINITY,
    ensures
        root_of(a) < INFINITY,
        other < root_of(a) ==> (scaled_magnitude(root_of(a)) + scaled_magnitude(other)) * (
        scaled_magnitude(root_of(a)) + scaled_magnitude(other)) <= 4 * (scaled_magnitude(a)
            * two_to(149)),
        other > root_of(a) ==> (scaled_magnitude(root_of(a)) + scaled_magnitude(other)) * (
        scaled_magnitude(root_of(a)) + scaled_magnitude(other)) >= 4 * (scaled_magnitude(a)
            * two_to(149)),
{
    reveal(root_of);
    let m = radicand(a);
    let h = root_exponent(a);
    let exp = h - 1;
    let fine = 400nat;
    let fit = (exp + 149 + fine) as nat;
    let grain = two_to(fit);
    lemma_radicand(a);
    lemma_whole_root_exists(m);
    let s = whole_root(m);
    let x = root_digits(m);
    lemma_two_to_values();
    // The root has 27 or 28 digits.
    if s < 0x400_0000 {
        assert((s + 1) * (s + 1) <= 0x400_0000 * 0x400_0000) by (nonlinear_arith)
            requires
                s + 1 <= 0x400_0000,
        ;
    }
    if s >= 0x1000_0000 {
        assert(s * s >= 0x1000_0000 * 0x1000_0000) by (nonlinear_arith)
            requires
                s >= 0x1000_0000,
        ;
    }
    assert(0x800_0000 <= x < 0x2000_0001);
    lemma_two_to_adds(24, 3);
    lemma_two_to_adds(24, 2);
    lemma_two_to_adds(24, 6);
    assert(two_to(2) == 4 && two_to(3) == 8 && two_to(6) == 64) by {
        reveal_with_fuel(two_to, 7);
    }
    crate::power::lemma_top_bit_below(x, 30);
    let p = top_bit(x);
    lemma_top_bit(x);
    if p < 26 {
        lemma_two_to_grows(p + 1, 26);
    }
    lemma_nearest_magnitude_bound(x, exp, 191);
    let given = nearest_magnitude(x, exp);
    assert(given <= 192 * 0x80_0000);
    assert(root_of(a) == given);
    let floor = lemma_long_rounding_brackets(x, exp, fine);
    let k = places_lost(x, exp);
    assert(k >= 2);
    let unit = two_to(k);
    lemma_two_to_grows(2, k);
    lemma_two_to_adds(2, (k - 2) as nat);
    assert(unit % 2 == 0) by {
        let quarter = two_to((k - 2) as nat);
        assert(unit == 4 * quarter);
        assert(unit == 2 * (2 * quarter));
    }
    let kept = x / unit;
    let rest = x % unit;
    let rounded = rounded_quotient(x, k);
    vstd::arithmetic::div_mod::lemma_fundamental_div_mod(x as int, unit as int);
    assert(x == unit * kept + rest && 0 <= rest < unit);
    assert(unit * kept == kept * unit) by (nonlinear_arith);
    lemma_root_floor(m, unit, kept, rest);
    lemma_root_is_rounded_once(m, k);
    assert(rounded == kept || rounded == kept + 1);
    assert(given == floor + rounded - kept);
    lemma_two_to_grows(0, fit);
    lemma_two_to_grows(0, fine);
    let step = unit * grain;
    let mine = scaled_up(given as u32, fine);
    assert(mine == rounded * step) by (nonlinear_arith)
        requires
            rounded == kept || rounded == kept + 1,
            given == floor + rounded - kept,
            scaled_up(floor as u32, fine) == kept * step,
            scaled_up((floor + 1) as u32, fine) == scaled_up(floor as u32, fine) + step,
            mine == scaled_up(given as u32, fine),
    ;
    let theirs = scaled_up(other, fine);
    // The number in the finer steps.
    let up = (2 * h + 298) as nat;
    let finer = two_to(fine) * two_to(fine);
    lemma_two_to_adds(fit, fit);
    lemma_two_to_adds(up, fine);
    lemma_two_to_adds(up + fine, fine);
    lemma_two_to_adds(2, up + fine + fine);
    assert(2 + up + fine + fine == fit + fit + 4);
    lemma_two_to_adds(fit + fit, 4);
    assert(two_to(4) == 16) by {
        reveal_with_fuel(two_to, 5);
    }
    assert(16 * (grain * grain) == 4 * (two_to(up) * finer)) by (nonlinear_arith)
        requires
            two_to(fit + fit) == grain * grain,
            two_to(fit + fit + 4) == two_to(fit + fit) * 16,
            two_to(2 + up + fine + fine) == 4 * two_to(up + fine + fine),
            two_to(up + fine + fine) == two_to(up + fine) * two_to(fine),
            two_to(up + fine) == two_to(up) * two_to(fine),
            finer == two_to(fine) * two_to(fine),
            two_to(2 + up + fine + fine) == two_to(fit + fit + 4),
    ;
    let number = scaled_magnitude(a) * two_to(149);
    assert(16 * m * (grain * grain) == 4 * number * finer) by (nonlinear_arith)
        requires
            16 * (grain * grain) == 4 * (two_to(up) * finer),
            m * two_to(up) == number,
    ;
    let sum = scaled_magnitude(given as u32) + scaled_magnitude(other);
    assert((mine + theirs) * (mine + theirs) == sum * sum * finer) by (nonlinear_arith)
        requires
            mine == scaled_magnitude(given as u32) * two_to(fine),
            theirs == scaled_magnitude(other) * two_to(fine),
            sum == scaled_magnitude(given as u32) + scaled_magnitude(other),
            finer == two_to(fine) * two_to(fine),
    ;
    assert(finer >= 1) by (nonlinear_arith)
        requires
            finer == two_to(fine) * two_to(fine),
            two_to(fine) >= 1,
    ;
    if other < given {
        if other < floor {
            lemma_magnitudes_grow(other, floor as u32);
        }
        assert(theirs <= kept * step) by (nonlinear_arith)
            requires
                scaled_magnitude(other) <= scaled_magnitude(floor as u32),
                theirs == scaled_magnitude(other) * two_to(fine),
                kept * step == scaled_magnitude(floor as u32) * two_to(fine),
        ;
        lemma_middle_below_root(m, unit, kept, rounded, grain, theirs);
        assert(sum * sum <= 4 * number) by (nonlinear_arith)
            requires
                sum * sum * finer <= 4 * number * finer,
                finer >= 1,
        ;
    } else if other > given {
        if other > floor + 1 {
            lemma_magnitudes_grow((floor + 1) as u32, other);
        }
        assert(theirs >= (kept + 1) * step) by (nonlinear_arith)
            requires
                scaled_magnitude(other) >= scaled_magnitude((floor + 1) as u32),
                theirs == scaled_magnitude(other) * two_to(fine),
                kept * step + step == scaled_magnitude((floor + 1) as u32) * two_to(fine),
        ;
        lemma_middle_above_root(m, unit, kept, rounded, grain, theirs);
        assert(sum * sum >= 4 * number) by (nonlinear_arith)
            requires
                sum * sum * finer >= 4 * number * finer,
                finer >= 1,
        ;
    }
}

} // verus!
