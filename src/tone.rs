//! Tone mapping of linear radiance to 8-bit display values, computed exactly
//! from the bit pattern of a 32-bit float.
//!
//! A channel value arrives as the IEEE 754 binary32 bit pattern of the
//! float, so every finite value is an exact fraction and the curve
//! `round(255 * e / (1 + e))` with `e = 4 * linear` is evaluated without
//! rounding error. NaN and negative values give 0, and positive infinity
//! gives 255.

use vstd::prelude::*;
use vstd::arithmetic::div_mod::lemma_fundamental_div_mod_converse;
use crate::gamma::{power, lemma_power_positive, lemma_power_exp_mono};

verus! {

pub open spec fn f32_sign(bits: u32) -> int {
    bits as int / 0x8000_0000
}

pub open spec fn f32_exponent(bits: u32) -> int {
    (bits as int / 0x80_0000) % 256
}

pub open spec fn f32_fraction(bits: u32) -> int {
    bits as int % 0x80_0000
}

pub open spec fn f32_is_nan(bits: u32) -> bool {
    f32_exponent(bits) == 255 && f32_fraction(bits) != 0
}

pub open spec fn f32_is_pos_infinity(bits: u32) -> bool {
    f32_sign(bits) == 0 && f32_exponent(bits) == 255 && f32_fraction(bits) == 0
}

/// A finite value with the sign bit clear: zero or positive.
pub open spec fn f32_is_finite_nonneg(bits: u32) -> bool {
    f32_sign(bits) == 0 && f32_exponent(bits) < 255
}

/// The significand as an integer, with the hidden bit of normal numbers.
pub open spec fn f32_significand(bits: u32) -> int {
    if f32_exponent(bits) == 0 {
        f32_fraction(bits)
    } else {
        f32_fraction(bits) + 0x80_0000
    }
}

/// The power of two that scales the integer significand.
pub open spec fn f32_scale(bits: u32) -> int {
    if f32_exponent(bits) == 0 {
        -149
    } else {
        f32_exponent(bits) - 150
    }
}

/// A finite value is `f32_numerator(bits) / f32_denominator(bits)`.
pub open spec fn f32_numerator(bits: u32) -> int {
    if f32_scale(bits) >= 0 {
        f32_significand(bits) * power(2, f32_scale(bits) as nat)
    } else {
        f32_significand(bits)
    }
}

pub open spec fn f32_denominator(bits: u32) -> int {
    if f32_scale(bits) >= 0 {
        1
    } else {
        power(2, (-f32_scale(bits)) as nat)
    }
}

/// `round(255 * e / (1 + e))` for `e = 4 * n / d`, halves up:
/// `255 * e / (1 + e) = 1020 * n / (d + 4 * n)`.
pub open spec fn tone_ratio(n: int, d: int) -> int {
    (2040 * n + (d + 4 * n)) / (2 * (d + 4 * n))
}

/// `min(255, round(255 * n / d))`, halves up.
pub open spec fn alpha_ratio(n: int, d: int) -> int {
    let v = (510 * n + d) / (2 * d);
    if v > 255 {
        255
    } else {
        v
    }
}

/// The display value for a linear channel given by its bit pattern.
pub open spec fn tone_map_value(bits: u32) -> int {
    if f32_is_pos_infinity(bits) {
        255
    } else if f32_is_finite_nonneg(bits) {
        tone_ratio(f32_numerator(bits), f32_denominator(bits))
    } else {
        0
    }
}

/// The 8-bit alpha for a coverage value given by its bit pattern.
pub open spec fn alpha_value(bits: u32) -> int {
    if f32_is_pos_infinity(bits) {
        255
    } else if f32_is_finite_nonneg(bits) {
        alpha_ratio(f32_numerator(bits), f32_denominator(bits))
    } else {
        0
    }
}

proof fn lemma_quotient(x: int, y: int, q: int)
    requires
        y > 0,
        q * y <= x < q * y + y,
    ensures
        x / y == q,
{
    lemma_fundamental_div_mod_converse(x, y, q, x - q * y);
}

/// The tone curve lies in `[0, 255]` and reaches 255 once the linear value
/// is at least 128.
pub proof fn lemma_tone_ratio_range(n: int, d: int)
    requires
        n >= 0,
        d >= 1,
    ensures
        0 <= tone_ratio(n, d) <= 255,
        n >= 128 * d ==> tone_ratio(n, d) == 255,
        n == 0 ==> tone_ratio(n, d) == 0,
{
    let x = 2040 * n + (d + 4 * n);
    let y = 2 * (d + 4 * n);
    let q = x / y;
    assert(x == q * y + x % y && 0 <= x % y < y) by (nonlinear_arith)
        requires
            y > 0,
            q == x / y,
    ;
    assert(0 <= q <= 255) by (nonlinear_arith)
        requires
            x == q * y + x % y,
            0 <= x % y < y,
            0 <= x < 256 * y,
            y > 0,
    ;
    if n >= 128 * d {
        lemma_quotient(x, y, 255);
    }
    if n == 0 {
        lemma_quotient(x, y, 0);
    }
}

/// The tone curve never decreases: a smaller fraction `n1 / d1 <= n2 / d2`
/// maps to a smaller or equal value.
pub proof fn lemma_tone_ratio_monotone(n1: int, d1: int, n2: int, d2: int)
    requires
        n1 >= 0,
        n2 >= 0,
        d1 >= 1,
        d2 >= 1,
        n1 * d2 <= n2 * d1,
    ensures
        tone_ratio(n1, d1) <= tone_ratio(n2, d2),
{
    let x1 = 2040 * n1 + (d1 + 4 * n1);
    let y1 = 2 * (d1 + 4 * n1);
    let x2 = 2040 * n2 + (d2 + 4 * n2);
    let y2 = 2 * (d2 + 4 * n2);
    assert(x1 * y2 <= x2 * y1) by (nonlinear_arith)
        requires
            x1 == 2040 * n1 + (d1 + 4 * n1),
            y1 == 2 * (d1 + 4 * n1),
            x2 == 2040 * n2 + (d2 + 4 * n2),
            y2 == 2 * (d2 + 4 * n2),
            n1 * d2 <= n2 * d1,
    ;
    let q1 = x1 / y1;
    let q2 = x2 / y2;
    assert(q1 * y1 <= x1) by (nonlinear_arith)
        requires
            y1 > 0,
            q1 == x1 / y1,
    ;
    assert(x2 < (q2 + 1) * y2) by (nonlinear_arith)
        requires
            y2 > 0,
            q2 == x2 / y2,
    ;
    assert(q1 <= q2) by (nonlinear_arith)
        requires
            q1 * y1 <= x1,
            x1 * y2 <= x2 * y1,
            x2 < (q2 + 1) * y2,
            y1 > 0,
            y2 > 0,
    ;
}

proof fn lemma_alpha_ratio_saturates(n: int, d: int)
    requires
        d >= 1,
        n >= d,
    ensures
        alpha_ratio(n, d) == 255,
{
    let x = 510 * n + d;
    let y = 2 * d;
    let q = x / y;
    assert(q >= 255) by (nonlinear_arith)
        requires
            y > 0,
            q == x / y,
            x >= 255 * y,
    ;
}

proof fn lemma_value_parts(bits: u32)
    requires
        f32_is_finite_nonneg(bits),
    ensures
        0 <= f32_significand(bits) < 0x100_0000,
        f32_exponent(bits) > 0 ==> f32_significand(bits) >= 0x80_0000,
        f32_numerator(bits) >= 0,
        f32_denominator(bits) >= 1,
{
    if f32_scale(bits) >= 0 {
        lemma_power_positive(2, f32_scale(bits) as nat);
        assert(f32_significand(bits) * power(2, f32_scale(bits) as nat) >= 0)
            by (nonlinear_arith)
            requires
                f32_significand(bits) >= 0,
                power(2, f32_scale(bits) as nat) >= 1,
        ;
    } else {
        lemma_power_positive(2, (-f32_scale(bits)) as nat);
    }
}

/// Where the linear value is at least `2^23` its fraction is at least 128.
proof fn lemma_large_value(bits: u32)
    requires
        f32_is_finite_nonneg(bits),
        f32_exponent(bits) >= 150,
    ensures
        f32_denominator(bits) == 1,
        f32_numerator(bits) >= 0x80_0000,
{
    lemma_value_parts(bits);
    lemma_power_positive(2, f32_scale(bits) as nat);
    assert(f32_significand(bits) * power(2, f32_scale(bits) as nat) >= f32_significand(bits))
        by (nonlinear_arith)
        requires
            f32_significand(bits) >= 0,
            power(2, f32_scale(bits) as nat) >= 1,
    ;
}

proof fn lemma_power2_40()
    ensures
        power(2, 40) == 0x100_0000_0000,
{
    reveal_with_fuel(power, 41);
}

/// The pieces of a finite non-negative value below `2^23` whose
/// denominator is at most `2^39`: `n / d`, with `d = 2^shift`.
fn fraction_of(bits: u32) -> (r: (u64, u64))
    requires
        f32_is_finite_nonneg(bits),
        f32_exponent(bits) < 150,
        f32_scale(bits) > -40,
    ensures
        r.0 == f32_numerator(bits),
        r.1 == f32_denominator(bits),
        r.0 < 0x100_0000,
        1 <= r.1 <= 0x80_0000_0000,
{
    let exp: u32 = (bits / 0x80_0000) % 256;
    let frac: u32 = bits % 0x80_0000;
    let m: u64 = if exp == 0 { frac as u64 } else { frac as u64 + 0x80_0000 };
    let shift: u32 = if exp == 0 { 149 } else { 150 - exp };
    proof {
        lemma_value_parts(bits);
        lemma_power_exp_mono(2, shift as nat, 39);
        reveal_with_fuel(power, 40);
        assert(power(2, 39) == 0x80_0000_0000int);
    }
    let mut d: u64 = 1;
    let mut j: u32 = 0;
    while j < shift
        invariant
            j <= shift,
            shift <= 39,
            d == power(2, j as nat),
            power(2, shift as nat) <= 0x80_0000_0000,
        decreases shift - j,
    {
        proof {
            lemma_power_exp_mono(2, (j + 1) as nat, shift as nat);
        }
        d = d * 2;
        j = j + 1;
    }
    (m, d)
}

/// Maps one linear colour channel, given as the bit pattern of an `f32`, to
/// a display value: `round(255 * e / (1 + e))` for `e = 4 * linear`, with
/// halves rounded up. NaN and negative values give 0; positive infinity
/// gives 255.
pub fn tone_map(bits: u32) -> (r: u8)
    ensures
        r == tone_map_value(bits),
{
    let sign: u32 = bits / 0x8000_0000;
    let exp: u32 = (bits / 0x80_0000) % 256;
    let frac: u32 = bits % 0x80_0000;
    if exp == 255 {
        return if frac == 0 && sign == 0 { 255 } else { 0 };
    }
    if sign != 0 {
        return 0;
    }
    if exp >= 150 {
        proof {
            lemma_large_value(bits);
            lemma_tone_ratio_range(f32_numerator(bits), f32_denominator(bits));
        }
        return 255;
    }
    if exp <= 110 {
        proof {
            lemma_value_parts(bits);
            let n = f32_numerator(bits);
            let d = f32_denominator(bits);
            lemma_power_exp_mono(2, 40, (-f32_scale(bits)) as nat);
            lemma_power2_40();
            lemma_quotient(2040 * n + (d + 4 * n), 2 * (d + 4 * n), 0);
        }
        return 0;
    }
    let (n, d) = fraction_of(bits);
    proof {
        lemma_tone_ratio_range(n as int, d as int);
    }
    ((2040 * n + (d + 4 * n)) / (2 * (d + 4 * n))) as u8
}

/// Maps a coverage value, given as the bit pattern of an `f32`, to an
/// 8-bit alpha: `round(255 * alpha)`, halves up, at most 255. NaN and
/// negative values give 0.
pub fn alpha_to_byte(bits: u32) -> (r: u8)
    ensures
        r == alpha_value(bits),
{
    let sign: u32 = bits / 0x8000_0000;
    let exp: u32 = (bits / 0x80_0000) % 256;
    let frac: u32 = bits % 0x80_0000;
    if exp == 255 {
        return if frac == 0 && sign == 0 { 255 } else { 0 };
    }
    if sign != 0 {
        return 0;
    }
    if exp >= 150 {
        proof {
            lemma_large_value(bits);
            lemma_alpha_ratio_saturates(f32_numerator(bits), f32_denominator(bits));
        }
        return 255;
    }
    if exp <= 110 {
        proof {
            lemma_value_parts(bits);
            let n = f32_numerator(bits);
            let d = f32_denominator(bits);
            lemma_power_exp_mono(2, 40, (-f32_scale(bits)) as nat);
            lemma_power2_40();
            lemma_quotient(510 * n + d, 2 * d, 0);
        }
        return 0;
    }
    let (n, d) = fraction_of(bits);
    let v: u64 = (510 * n + d) / (2 * d);
    if v > 255 {
        255
    } else {
        v as u8
    }
}

/// For linear values `a <= b`, both finite and not negative, the display
/// values keep that order and lie in `[0, 255]`.
pub proof fn lemma_tone_map_monotone(a: u32, b: u32)
    requires
        f32_is_finite_nonneg(a),
        f32_is_finite_nonneg(b),
        f32_numerator(a) * f32_denominator(b) <= f32_numerator(b) * f32_denominator(a),
    ensures
        0 <= tone_map_value(a) <= tone_map_value(b) <= 255,
{
    lemma_value_parts(a);
    lemma_value_parts(b);
    lemma_tone_ratio_range(f32_numerator(a), f32_denominator(a));
    lemma_tone_ratio_range(f32_numerator(b), f32_denominator(b));
    lemma_tone_ratio_monotone(f32_numerator(a), f32_denominator(a), f32_numerator(b), f32_denominator(b));
}

/// Zero maps to 0, and the curve reaches 255: at every linear value of at
/// least 128, and at positive infinity.
pub proof fn lemma_tone_map_limits(bits: u32)
    ensures
        tone_map_value(0) == 0,
        f32_is_pos_infinity(bits) ==> tone_map_value(bits) == 255,
        f32_is_finite_nonneg(bits) && f32_numerator(bits) >= 128 * f32_denominator(bits)
            ==> tone_map_value(bits) == 255,
{
    lemma_value_parts(0);
    lemma_tone_ratio_range(f32_numerator(0), f32_denominator(0));
    if f32_is_finite_nonneg(bits) {
        lemma_value_parts(bits);
        lemma_tone_ratio_range(f32_numerator(bits), f32_denominator(bits));
    }
}

/// Display values for an interleaved RGBA buffer of linear channels: the
/// colour channels are tone mapped and the alpha is scaled to a byte.
pub open spec fn tone_mapped_rgba(linear: Seq<u32>) -> Seq<u8> {
    Seq::new(
        linear.len(),
        |k: int|
            if k % 4 == 3 {
                alpha_value(linear[k]) as u8
            } else {
                tone_map_value(linear[k]) as u8
            },
    )
}

/// Display values for an interleaved RGB buffer of linear channels, as
/// RGBA with opaque alpha; a trailing partial pixel is dropped.
pub open spec fn tone_mapped_rgb(linear: Seq<u32>) -> Seq<u8> {
    Seq::new(
        (linear.len() / 3) * 4,
        |k: int|
            if k % 4 == 3 {
                255u8
            } else {
                tone_map_value(linear[(k / 4) * 3 + k % 4]) as u8
            },
    )
}

/// Tone maps an interleaved RGBA buffer of `f32` bit patterns: red, green
/// and blue through the tone curve, alpha scaled by 255.
pub fn tone_map_rgba(linear: &Vec<u32>) -> (r: Vec<u8>)
    ensures
        r@ == tone_mapped_rgba(linear@),
{
    let mut out: Vec<u8> = Vec::new();
    let mut k: usize = 0;
    while k < linear.len()
        invariant
            k <= linear.len(),
            out@.len() == k,
            forall|j: int| 0 <= j < k ==> #[trigger] out@[j] == tone_mapped_rgba(linear@)[j],
        decreases linear.len() - k,
    {
        let v = if k % 4 == 3 { alpha_to_byte(linear[k]) } else { tone_map(linear[k]) };
        out.push(v);
        k = k + 1;
    }
    assert(out@ =~= tone_mapped_rgba(linear@));
    out
}

/// Tone maps an interleaved RGB buffer of `f32` bit patterns into an RGBA8
/// buffer with opaque alpha.
pub fn tone_map_rgb(linear: &Vec<u32>) -> (r: Vec<u8>)
    ensures
        r@ == tone_mapped_rgb(linear@),
{
    let pixels: usize = linear.len() / 3;
    let mut out: Vec<u8> = Vec::new();
    let mut p: usize = 0;
    while p < pixels
        invariant
            pixels == linear.len() / 3,
            p <= pixels,
            out@.len() == 4 * p,
            forall|j: int| 0 <= j < 4 * p ==> #[trigger] out@[j] == tone_mapped_rgb(linear@)[j],
        decreases pixels - p,
    {
        let base: usize = 3 * p;
        out.push(tone_map(linear[base]));
        out.push(tone_map(linear[base + 1]));
        out.push(tone_map(linear[base + 2]));
        out.push(255);
        assert forall|j: int| 4 * p <= j < 4 * p + 4 implies #[trigger] out@[j] == tone_mapped_rgb(linear@)[j] by {
            assert(j / 4 == p);
            assert(j % 4 == j - 4 * p);
        }
        p = p + 1;
    }
    assert(out@ =~= tone_mapped_rgb(linear@));
    out
}

} // verus!
