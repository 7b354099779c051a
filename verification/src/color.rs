//! Colours as a line of text: three whole numbers from 0 to 255.
use crate::convert::{lemma_whole_part_of_value, whole_part, whole_part_of};
use crate::pattern::{exponent_field, magnitude, scaled_magnitude, significand};
use crate::power::{lemma_two_to_grows, lemma_two_to_values, two_to};
use crate::scalar::{Scalar, ONE, ZERO};
use crate::utility::{clamp, clamped};
use crate::vec::Color;
use vstd::prelude::*;

verus! {

/// 0.999, the largest value of a channel that is written out.
pub const CHANNEL_MAX: u32 = 0x3f7f_be77;

/// The digits of a natural number in base ten, the most significant first,
/// as ASCII.
pub open spec fn digits(n: nat) -> Seq<u8>
    decreases n,
{
    if n < 10 {
        seq![(48 + n) as u8]
    } else {
        digits(n / 10).push((48 + n % 10) as u8)
    }
}

/// The digits of a natural number that is not zero, and nothing for zero.
pub open spec fn leading_digits(n: nat) -> Seq<u8> {
    if n == 0 {
        Seq::<u8>::empty()
    } else {
        digits(n)
    }
}

/// A whole number in base ten as ASCII, with a minus sign before a negative
/// one.
pub open spec fn decimal(n: int) -> Seq<u8> {
    if n < 0 {
        seq![45u8] + digits((-n) as nat)
    } else {
        digits(n as nat)
    }
}

/// The whole part of 256 times a number that is 0 or more and less than 1.
/// Multiplying by 256 only moves the exponent, so the result is read off the
/// bits. Any other number, and what is no number, gives 0.
pub open spec fn steps(c: Scalar) -> int {
    if c.0 < ONE {
        whole_part(c.0, 8) as int
    } else {
        0
    }
}

/// The value of one channel of a pixel as a whole number: the sum of the
/// samples divided by their number, its square root taken, brought between 0
/// and 0.999, multiplied by 256, and the fraction dropped.
pub open spec fn quantized(sum: Scalar, samples_per_pixel: i32) -> int {
    steps(
        clamped(
            sum.over(Scalar::of_int(samples_per_pixel)).root(),
            Scalar(ZERO),
            Scalar(CHANNEL_MAX),
        ),
    )
}

/// The line of text for three channels: the numbers with a space between
/// them and a line feed at the end.
pub open spec fn pixel_line(r: int, g: int, b: int) -> Seq<u8> {
    decimal(r) + seq![32u8] + decimal(g) + seq![32u8] + decimal(b) + seq![10u8]
}

/// The line of text for a pixel, given the sum of its samples and their
/// number.
pub open spec fn color_line(pixel_color: Color, samples_per_pixel: i32) -> Seq<u8> {
    pixel_line(
        quantized(pixel_color.x, samples_per_pixel),
        quantized(pixel_color.y, samples_per_pixel),
        quantized(pixel_color.z, samples_per_pixel),
    )
}

/// How many lines a text holds: how many line feeds.
pub open spec fn line_feeds(text: Seq<u8>) -> nat
    decreases text.len(),
{
    if text.len() == 0 {
        0
    } else {
        line_feeds(text.drop_last()) + if text.last() == 10u8 {
            1nat
        } else {
            0nat
        }
    }
}

/// Two texts, one after the other, hold the lines of both.
pub proof fn lemma_line_feeds_add(a: Seq<u8>, b: Seq<u8>)
    ensures
        line_feeds(a + b) == line_feeds(a) + line_feeds(b),
    decreases b.len(),
{
    if b.len() == 0 {
        assert(a + b =~= a);
    } else {
        lemma_line_feeds_add(a, b.drop_last());
        assert((a + b).drop_last() =~= a + b.drop_last());
        assert((a + b).last() == b.last());
    }
}

/// A text of one character holds a line if the character is a line feed.
pub proof fn lemma_line_feeds_of_one(c: u8)
    ensures
        line_feeds(seq![c]) == if c == 10u8 {
            1nat
        } else {
            0nat
        },
{
    reveal_with_fuel(line_feeds, 2);
    assert(seq![c].drop_last() =~= Seq::<u8>::empty());
    assert(seq![c].last() == c);
}

/// The digits of a number hold no line feed.
pub proof fn lemma_digits_are_one_line(n: nat)
    ensures
        line_feeds(digits(n)) == 0,
    decreases n,
{
    if n < 10 {
        lemma_line_feeds_of_one((48 + n) as u8);
    } else {
        lemma_digits_are_one_line(n / 10);
        assert(digits(n).drop_last() =~= digits(n / 10));
        assert(digits(n).last() == (48 + n % 10) as u8);
    }
}

/// A whole number in base ten holds no line feed.
pub proof fn lemma_decimal_is_one_line(n: int)
    ensures
        line_feeds(decimal(n)) == 0,
{
    if n < 0 {
        lemma_digits_are_one_line((-n) as nat);
        lemma_line_feeds_of_one(45u8);
        lemma_line_feeds_add(seq![45u8], digits((-n) as nat));
    } else {
        lemma_digits_are_one_line(n as nat);
    }
}

/// The text for a pixel is one line.
pub proof fn lemma_pixel_line_is_one_line(r: int, g: int, b: int)
    ensures
        line_feeds(pixel_line(r, g, b)) == 1,
{
    lemma_decimal_is_one_line(r);
    lemma_decimal_is_one_line(g);
    lemma_decimal_is_one_line(b);
    lemma_line_feeds_of_one(32u8);
    lemma_line_feeds_of_one(10u8);
    lemma_line_feeds_add(decimal(r), seq![32u8]);
    lemma_line_feeds_add(decimal(r) + seq![32u8], decimal(g));
    lemma_line_feeds_add(decimal(r) + seq![32u8] + decimal(g), seq![32u8]);
    lemma_line_feeds_add(decimal(r) + seq![32u8] + decimal(g) + seq![32u8], decimal(b));
    lemma_line_feeds_add(
        decimal(r) + seq![32u8] + decimal(g) + seq![32u8] + decimal(b),
        seq![10u8],
    );
}

/// A number is written as the digits of its tenth part, followed by its last
/// digit.
pub proof fn lemma_digits_step(n: nat)
    ensures
        digits(n) == leading_digits(n / 10).push((48 + n % 10) as u8),
{
    if n < 10 {
        assert(n / 10 == 0);
        assert(n % 10 == n);
        assert(digits(n) =~= Seq::<u8>::empty().push((48 + n) as u8));
    }
}

/// Appends a whole number in base ten to `out`.
pub fn push_decimal(out: &mut Vec<u8>, n: i32)
    ensures
        final(out)@ == old(out)@ + decimal(n as int),
{
    let magnitude: u32 = if n < 0 {
        out.push(45u8);
        (-(n as i64)) as u32
    } else {
        n as u32
    };
    let ghost start = out@;
    let ghost text = digits(magnitude as nat);
    assert(old(out)@ + decimal(n as int) =~= start + text);

    // The digits, the least significant first.
    let mut reversed: Vec<u8> = Vec::new();
    let mut rest: u32 = magnitude;
    proof {
        lemma_digits_step(rest as nat);
    }
    reversed.push(48u8 + (rest % 10) as u8);
    rest = rest / 10;
    while rest > 0
        invariant
            out@ == start,
            reversed@.len() >= 1,
            text.len() == leading_digits(rest as nat).len() + reversed@.len(),
            forall|k: int|
                0 <= k < leading_digits(rest as nat).len() ==> text[k] == leading_digits(
                    rest as nat,
                )[k],
            forall|k: int| 0 <= k < reversed@.len() ==> reversed@[k] == text[text.len() - 1 - k],
        decreases rest,
    {
        proof {
            lemma_digits_step(rest as nat);
        }
        reversed.push(48u8 + (rest % 10) as u8);
        rest = rest / 10;
    }
    let mut left: usize = reversed.len();
    while left > 0
        invariant
            left <= reversed@.len(),
            text.len() == reversed@.len(),
            forall|k: int| 0 <= k < reversed@.len() ==> reversed@[k] == text[text.len() - 1 - k],
            out@ == start + text.subrange(0, reversed@.len() - left),
        decreases left,
    {
        left = left - 1;
        out.push(reversed[left]);
        assert(out@ =~= start + text.subrange(0, reversed@.len() - left));
    }
    assert(text.subrange(0, text.len() as int) =~= text);
}

/// The whole part of 256 times a number between 0 and 1 lies between 0 and
/// 255.
pub proof fn lemma_steps_range(c: Scalar)
    ensures
        0 <= steps(c) <= 255,
{
    if c.0 < ONE {
        let e = exponent_field(c.0);
        let down = if e == 0 {
            141nat
        } else {
            (142 - e) as nat
        };
        lemma_two_to_values();
        lemma_two_to_grows(16, down);
        assert(whole_part(c.0, 8) == significand(c.0) / two_to(down) as int);
        vstd::arithmetic::div_mod::lemma_div_is_ordered_by_denominator(
            significand(c.0),
            0x1_0000,
            two_to(down) as int,
        );
    }
}

/// The steps of a number are the whole part of 256 times the number: with
/// the number counted in steps of 2^-149, the whole part of `256 n / 2^149`.
pub proof fn lemma_steps_of_value(c: Scalar)
    requires
        c.0 < ONE,
    ensures
        steps(c) == (scaled_magnitude(c.0) * 256) / two_to(149),
{
    lemma_two_to_values();
    lemma_whole_part_of_value(c.0, 8);
}

/// Every channel of a pixel is written as a whole number from 0 to 255,
/// whatever the sum of the samples and their number are.
pub proof fn lemma_quantized_range(sum: Scalar, samples_per_pixel: i32)
    ensures
        0 <= quantized(sum, samples_per_pixel) <= 255,
{
    lemma_steps_range(
        clamped(
            sum.over(Scalar::of_int(samples_per_pixel)).root(),
            Scalar(ZERO),
            Scalar(CHANNEL_MAX),
        ),
    );
}

/// The value of one channel of a pixel as a whole number from 0 to 255.
pub fn quantize(sum: Scalar, samples_per_pixel: i32) -> (r: i32)
    ensures
        r == quantized(sum, samples_per_pixel),
        0 <= r <= 255,
{
    let mean = sum / Scalar::from_i32(samples_per_pixel);
    let c = clamp(mean.sqrt(), Scalar(ZERO), Scalar(CHANNEL_MAX));
    proof {
        lemma_steps_range(c);
    }
    if c.0 < ONE {
        whole_part_of(c.0, 8) as i32
    } else {
        0
    }
}

/// Appends the line of text for a pixel to `out`: the three channels of the
/// sum of its samples, each divided by the number of samples, its square
/// root taken, brought between 0 and 0.999 and turned into a whole number of
/// 256 steps, with a space between them and a line feed at the end.
pub fn write_color(out: &mut Vec<u8>, pixel_color: Color, samples_per_pixel: i32)
    ensures
        final(out)@ == old(out)@ + color_line(pixel_color, samples_per_pixel),
{
    let r = quantize(pixel_color.x, samples_per_pixel);
    let g = quantize(pixel_color.y, samples_per_pixel);
    let b = quantize(pixel_color.z, samples_per_pixel);
    let ghost start = out@;
    push_decimal(out, r);
    out.push(32u8);
    push_decimal(out, g);
    out.push(32u8);
    push_decimal(out, b);
    out.push(10u8);
    assert(out@ =~= start + color_line(pixel_color, samples_per_pixel));
}

} // verus!
