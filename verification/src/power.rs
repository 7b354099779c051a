//! Powers of two, and the place of the highest digit of a whole number.
use vstd::prelude::*;

verus! {

/// `2^k`
pub open spec fn two_to(k: nat) -> nat
    decreases k,
{
    if k == 0 {
        1
    } else {
        2 * two_to((k - 1) as nat)
    }
}

/// The place of the highest bit of a number that is set: the largest `p`
/// with `2^p <= m`, and 0 for 0.
pub open spec fn top_bit(m: nat) -> nat
    decreases m,
{
    if m <= 1 {
        0
    } else {
        1 + top_bit(m / 2)
    }
}

/// Powers of two grow with the exponent.
pub proof fn lemma_two_to_grows(a: nat, b: nat)
    requires
        a <= b,
    ensures
        1 <= two_to(a) <= two_to(b),
    decreases b,
{
    if a < b {
        lemma_two_to_grows(a, (b - 1) as nat);
    } else if a > 0 {
        lemma_two_to_grows((a - 1) as nat, (a - 1) as nat);
    }
}

/// `2^(a + b) = 2^a * 2^b`
pub proof fn lemma_two_to_adds(a: nat, b: nat)
    ensures
        two_to(a + b) == two_to(a) * two_to(b),
    decreases a,
{
    if a > 0 {
        lemma_two_to_adds((a - 1) as nat, b);
        assert(two_to(a + b) == 2 * two_to((a - 1 + b) as nat));
        assert(2 * (two_to((a - 1) as nat) * two_to(b)) == (2 * two_to((a - 1) as nat)) * two_to(b))
            by (nonlinear_arith);
    } else {
        assert(two_to(a + b) == two_to(b));
        assert(1 * two_to(b) == two_to(b));
    }
}

/// Some powers of two.
pub proof fn lemma_two_to_values()
    ensures
        two_to(7) == 0x80,
        two_to(8) == 0x100,
        two_to(16) == 0x1_0000,
        two_to(23) == 0x80_0000,
        two_to(24) == 0x100_0000,
        two_to(31) == 0x8000_0000,
        two_to(32) == 0x1_0000_0000,
        two_to(62) == 0x4000_0000_0000_0000,
{
    reveal_with_fuel(two_to, 9);
    assert(two_to(8) == 0x100);
    lemma_two_to_adds(8, 8);
    lemma_two_to_adds(16, 7);
    lemma_two_to_adds(16, 8);
    lemma_two_to_adds(24, 7);
    lemma_two_to_adds(24, 8);
    lemma_two_to_adds(31, 31);
}

/// The highest bit of a number that is not zero: `2^p <= m < 2^(p + 1)`.
pub proof fn lemma_top_bit(m: nat)
    requires
        m >= 1,
    ensures
        two_to(top_bit(m)) <= m < two_to(top_bit(m) + 1),
    decreases m,
{
    if m > 1 {
        lemma_top_bit(m / 2);
    }
}

/// A number between two neighbouring powers of two has its highest bit at
/// the place of the lower one.
pub proof fn lemma_top_bit_between(x: nat, p: nat)
    requires
        two_to(p) <= x < two_to(p + 1),
    ensures
        top_bit(x) == p,
{
    lemma_two_to_grows(0, p);
    lemma_top_bit(x);
    let q = top_bit(x);
    if q < p {
        lemma_two_to_grows(q + 1, p);
    } else if q > p {
        lemma_two_to_grows(p + 1, q);
    }
}

/// A number below `2^bits` has its highest bit below place `bits`.
pub proof fn lemma_top_bit_below(x: nat, bits: nat)
    requires
        0 < x < two_to(bits),
    ensures
        top_bit(x) < bits,
{
    lemma_top_bit(x);
    if top_bit(x) >= bits {
        lemma_two_to_grows(bits, top_bit(x));
    }
}

/// Quotient and rest of a number that is written as `q * unit + rest`.
pub proof fn lemma_quotient_and_rest(x: nat, unit: nat, q: nat, rest: nat)
    requires
        x == q * unit + rest,
        rest < unit,
    ensures
        x / unit == q,
        x % unit == rest,
{
    vstd::arithmetic::div_mod::lemma_fundamental_div_mod_converse(
        x as int,
        unit as int,
        q as int,
        rest as int,
    );
}

/// Squares of whole numbers that are not negative stand in the order of the
/// numbers.
pub proof fn lemma_square_grows(x: int, y: int)
    requires
        x <= y,
        0 <= y,
        0 <= x || x * x <= y * y,
    ensures
        x * x <= y * y,
        0 <= x < y ==> x * x < y * y,
{
    if 0 <= x {
        assert(x * x <= y * y) by (nonlinear_arith)
            requires
                0 <= x <= y,
        ;
        if x < y {
            assert(x * x < y * y) by (nonlinear_arith)
                requires
                    0 <= x < y,
            ;
        }
    }
}

/// `x * 2^k`
pub fn doubled(x: u64, k: u32) -> (r: u64)
    requires
        x * two_to(k as nat) <= u64::MAX,
    ensures
        r == x * two_to(k as nat),
{
    let mut r: u64 = x;
    let mut i: u32 = 0;
    assert(x * two_to(0) == x) by {
        assert(two_to(0) == 1);
    }
    while i < k
        invariant
            i <= k,
            r == x * two_to(i as nat),
            x * two_to(k as nat) <= u64::MAX,
        decreases k - i,
    {
        proof {
            lemma_two_to_grows((i + 1) as nat, k as nat);
            assert(x * two_to((i + 1) as nat) <= x * two_to(k as nat)) by (nonlinear_arith)
                requires
                    two_to((i + 1) as nat) <= two_to(k as nat),
            ;
            assert(x * (2 * two_to(i as nat)) == 2 * (x * two_to(i as nat))) by (nonlinear_arith);
        }
        r = r * 2;
        i = i + 1;
    }
    r
}

/// `x / 2^k`, the fraction dropped.
pub fn halved(x: u64, k: u32) -> (r: u64)
    ensures
        r == x as int / two_to(k as nat) as int,
{
    let mut r: u64 = x;
    let mut i: u32 = 0;
    assert(x as int / two_to(0) as int == x) by {
        assert(two_to(0) == 1);
    }
    while i < k
        invariant
            i <= k,
            r == x as int / two_to(i as nat) as int,
        decreases k - i,
    {
        proof {
            lemma_two_to_grows(i as nat, i as nat);
            vstd::arithmetic::div_mod::lemma_div_denominator(
                x as int,
                two_to(i as nat) as int,
                2,
            );
            assert(two_to(i as nat) * 2 == two_to((i + 1) as nat));
        }
        r = r / 2;
        i = i + 1;
    }
    r
}

} // verus!
