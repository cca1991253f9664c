//! Gamma lookup tables for 8-bit channels, computed exactly for a rational
//! exponent, and their application to RGBA8 buffers.

use vstd::prelude::*;

verus! {

pub open spec fn power(b: int, e: nat) -> int
    decreases e,
{
    if e == 0 {
        1
    } else {
        b * power(b, (e - 1) as nat)
    }
}

/// `(2 * 255 * (i / 255)^(num / den))^den`, which is an integer when
/// `num <= den`.
pub open spec fn gamma_target(i: int, num: nat, den: nat) -> int {
    power(2, den) * power(255, (den - num) as nat) * power(i, num)
}

/// `v` is `255 * (i / 255)^(num / den)` rounded to the nearest integer,
/// halves up: `v - 1/2 <= y < v + 1/2`, raised to the power `den` and
/// doubled.
pub open spec fn is_gamma_entry(v: int, i: int, num: nat, den: nat) -> bool {
    &&& 0 <= v <= 255
    &&& (v == 0 || power(2 * v - 1, den) <= gamma_target(i, num, den))
    &&& (v == 255 || gamma_target(i, num, den) < power(2 * v + 1, den))
}

/// `t` maps every 8-bit value `i` to `255 * (i / 255)^(num / den)`, rounded.
pub open spec fn is_gamma_table(t: Seq<u8>, num: nat, den: nat) -> bool {
    &&& t.len() == 256
    &&& forall|i: int| 0 <= i < 256 ==> is_gamma_entry(#[trigger] t[i] as int, i, num, den)
}

/// Exponents whose tables are computed exactly in 128-bit integers.
pub open spec fn supported_exponent(num: nat, den: nat) -> bool {
    1 <= den <= 14 && num <= den
}

/// An RGBA8 buffer with each colour byte replaced by its table entry and
/// every fourth byte, the alpha, kept.
pub open spec fn gamma_applied(lut: Seq<u8>, buffer: Seq<u8>) -> Seq<u8> {
    Seq::new(
        buffer.len(),
        |k: int|
            if k % 4 == 3 {
                buffer[k]
            } else {
                lut[buffer[k] as int]
            },
    )
}

pub proof fn lemma_power_nonneg(b: int, e: nat)
    requires
        b >= 0,
    ensures
        power(b, e) >= 0,
    decreases e,
{
    if e > 0 {
        lemma_power_nonneg(b, (e - 1) as nat);
        assert(b * power(b, (e - 1) as nat) >= 0) by (nonlinear_arith)
            requires
                b >= 0,
                power(b, (e - 1) as nat) >= 0,
        ;
    }
}

pub proof fn lemma_power_positive(b: int, e: nat)
    requires
        b >= 1,
    ensures
        power(b, e) >= 1,
    decreases e,
{
    if e > 0 {
        lemma_power_positive(b, (e - 1) as nat);
        assert(b * power(b, (e - 1) as nat) >= 1) by (nonlinear_arith)
            requires
                b >= 1,
                power(b, (e - 1) as nat) >= 1,
        ;
    }
}

pub proof fn lemma_power_zero_base(e: nat)
    requires
        e >= 1,
    ensures
        power(0, e) == 0,
{
}

/// Raising to a fixed power keeps order on non-negative bases.
pub proof fn lemma_power_base_mono(a: int, b: int, e: nat)
    requires
        0 <= a <= b,
    ensures
        power(a, e) <= power(b, e),
    decreases e,
{
    if e > 0 {
        let e1 = (e - 1) as nat;
        lemma_power_base_mono(a, b, e1);
        lemma_power_nonneg(a, e1);
        assert(a * power(a, e1) <= b * power(b, e1)) by (nonlinear_arith)
            requires
                0 <= a <= b,
                0 <= power(a, e1) <= power(b, e1),
        ;
    }
}

/// Raising to a positive power keeps strict order on non-negative bases.
pub proof fn lemma_power_base_strict(a: int, b: int, e: nat)
    requires
        0 <= a < b,
        e >= 1,
    ensures
        power(a, e) < power(b, e),
    decreases e,
{
    let e1 = (e - 1) as nat;
    lemma_power_base_mono(a, b, e1);
    lemma_power_nonneg(a, e1);
    lemma_power_positive(b, e1);
    assert(a * power(a, e1) < b * power(b, e1)) by (nonlinear_arith)
        requires
            0 <= a < b,
            0 <= power(a, e1) <= power(b, e1),
            power(b, e1) >= 1,
    ;
}

pub proof fn lemma_power_exp_mono(b: int, e1: nat, e2: nat)
    requires
        b >= 1,
        e1 <= e2,
    ensures
        power(b, e1) <= power(b, e2),
    decreases e2,
{
    if e1 < e2 {
        let e = (e2 - 1) as nat;
        lemma_power_exp_mono(b, e1, e);
        lemma_power_positive(b, e);
        assert(power(b, e) <= b * power(b, e)) by (nonlinear_arith)
            requires
                b >= 1,
                power(b, e) >= 1,
        ;
    }
}

pub proof fn lemma_power_adds(b: int, e1: nat, e2: nat)
    ensures
        power(b, e1) * power(b, e2) == power(b, e1 + e2),
    decreases e1,
{
    if e1 > 0 {
        let e = (e1 - 1) as nat;
        lemma_power_adds(b, e, e2);
        assert((e1 + e2 - 1) as nat == e + e2);
        assert(b * power(b, e) * power(b, e2) == b * (power(b, e) * power(b, e2)))
            by (nonlinear_arith);
    }
}

pub proof fn lemma_power_mul_base(a: int, b: int, e: nat)
    ensures
        power(a, e) * power(b, e) == power(a * b, e),
    decreases e,
{
    if e > 0 {
        let e1 = (e - 1) as nat;
        lemma_power_mul_base(a, b, e1);
        assert(a * power(a, e1) * (b * power(b, e1)) == (a * b) * (power(a, e1) * power(b, e1)))
            by (nonlinear_arith);
    }
}

proof fn lemma_power_510_bound(e: nat)
    requires
        e <= 14,
    ensures
        power(510, e) <= u128::MAX,
{
    lemma_power_exp_mono(510, e, 14);
    reveal_with_fuel(power, 15);
}

/// The target for any 8-bit value is at most `510^den`, reached at 255.
proof fn lemma_target_bound(i: int, num: nat, den: nat)
    requires
        0 <= i <= 255,
        num <= den,
    ensures
        0 <= power(2, den) * power(255, (den - num) as nat) <= power(510, den),
        0 <= gamma_target(i, num, den) <= power(510, den),
        i == 255 ==> gamma_target(i, num, den) == power(510, den),
{
    let a = power(2, den);
    let b = power(255, (den - num) as nat);
    let c = power(i, num);
    let c_max = power(255, num);
    lemma_power_base_mono(i, 255, num);
    lemma_power_nonneg(i, num);
    lemma_power_positive(2, den);
    lemma_power_positive(255, (den - num) as nat);
    lemma_power_positive(255, num);
    lemma_power_adds(255, (den - num) as nat, num);
    assert((den - num) as nat + num == den);
    lemma_power_mul_base(2, 255, den);
    assert(a * b * c_max == a * (b * c_max)) by (nonlinear_arith);
    assert(0 <= a * b * c <= a * b * c_max) by (nonlinear_arith)
        requires
            a >= 1,
            b >= 1,
            0 <= c <= c_max,
    ;
    assert(a * b <= a * b * c_max) by (nonlinear_arith)
        requires
            a >= 1,
            b >= 1,
            c_max >= 1,
    ;
}

fn power_u128(b: u128, e: u32) -> (r: u128)
    requires
        b >= 1,
        power(b as int, e as nat) <= u128::MAX,
    ensures
        r == power(b as int, e as nat),
{
    let mut r: u128 = 1;
    let mut j: u32 = 0;
    while j < e
        invariant
            b >= 1,
            j <= e,
            r == power(b as int, j as nat),
            power(b as int, e as nat) <= u128::MAX,
        decreases e - j,
    {
        proof {
            lemma_power_exp_mono(b as int, (j + 1) as nat, e as nat);
            assert(power(b as int, (j + 1) as nat) == b * power(b as int, j as nat));
        }
        r = r * b;
        j = j + 1;
    }
    r
}

/// The table entry for `i`: the largest `v` whose lower rounding bound
/// does not pass the target.
fn gamma_entry(i: u32, num: u32, den: u32, scale: u128) -> (v: u8)
    requires
        i <= 255,
        supported_exponent(num as nat, den as nat),
        scale == power(2, den as nat) * power(255, (den - num) as nat),
    ensures
        is_gamma_entry(v as int, i as int, num as nat, den as nat),
{
    proof {
        lemma_target_bound(i as int, num as nat, den as nat);
        lemma_power_510_bound(den as nat);
        lemma_power_nonneg(i as int, num as nat);
        lemma_power_positive(2, den as nat);
        lemma_power_positive(255, (den - num) as nat);
        assert(scale >= 1) by (nonlinear_arith)
            requires
                scale == power(2, den as nat) * power(255, (den - num) as nat),
                power(2, den as nat) >= 1,
                power(255, (den - num) as nat) >= 1,
        ;
    }
    let target: u128 = if i == 0 {
        if num == 0 {
            scale
        } else {
            proof {
                lemma_power_zero_base(num as nat);
                assert(scale * 0 == 0) by (nonlinear_arith);
            }
            0
        }
    } else {
        proof {
            lemma_power_positive(i as int, num as nat);
            assert(power(i as int, num as nat) <= scale * power(i as int, num as nat))
                by (nonlinear_arith)
                requires
                    scale >= 1,
                    power(i as int, num as nat) >= 1,
            ;
        }
        let p = power_u128(i as u128, num);
        scale * p
    };
    proof {
        if num == 0 {
            assert(power(i as int, 0) == 1);
        }
    }
    assert(target == gamma_target(i as int, num as nat, den as nat));
    let mut k: u32 = 1;
    let mut passed = false;
    while k <= 255 && !passed
        invariant
            1 <= k <= 256,
            passed ==> k <= 255,
            supported_exponent(num as nat, den as nat),
            target == gamma_target(i as int, num as nat, den as nat),
            k >= 2 ==> power(2 * (k - 1) - 1, den as nat) <= target,
            passed ==> target < power(2 * k - 1, den as nat),
        decreases 256 - k + (if passed { 0int } else { 1int }),
    {
        proof {
            lemma_power_base_mono(2 * k - 1, 510, den as nat);
            lemma_power_510_bound(den as nat);
        }
        let p = power_u128((2 * k - 1) as u128, den);
        if p > target {
            passed = true;
        } else {
            k = k + 1;
        }
    }
    (k - 1) as u8
}

/// Builds the table that maps every 8-bit value `i` to
/// `255 * (i / 255)^(num / den)`, rounded to the nearest integer, halves up.
/// The exponent is taken as a fraction so that the table is exact; the
/// usual sRGB encoding exponent 1/2.2 is `5 / 11`. `None` when the
/// exponent is not one of `0/den ..= den/den` for a `den` from 1 to 14.
pub fn build_gamma_lut(num: u32, den: u32) -> (r: Option<Vec<u8>>)
    ensures
        r is Some <==> supported_exponent(num as nat, den as nat),
        r is Some ==> is_gamma_table(r->0@, num as nat, den as nat),
{
    if den == 0 || den > 14 || num > den {
        return None;
    }
    proof {
        lemma_target_bound(0, num as nat, den as nat);
        lemma_power_510_bound(den as nat);
        lemma_power_positive(2, den as nat);
        lemma_power_positive(255, (den - num) as nat);
        lemma_power_exp_mono(2, den as nat, 14);
        lemma_power_exp_mono(255, (den - num) as nat, 14);
        reveal_with_fuel(power, 15);
    }
    let p2 = power_u128(2, den);
    let p255 = power_u128(255, den - num);
    let scale: u128 = p2 * p255;
    let mut table: Vec<u8> = Vec::new();
    let mut i: u32 = 0;
    while i < 256
        invariant
            i <= 256,
            table.len() == i,
            supported_exponent(num as nat, den as nat),
            scale == power(2, den as nat) * power(255, (den - num) as nat),
            forall|j: int| 0 <= j < i ==> is_gamma_entry(#[trigger] table@[j] as int, j, num as nat, den as nat),
        decreases 256 - i,
    {
        let v = gamma_entry(i, num, den, scale);
        table.push(v);
        i = i + 1;
    }
    Some(table)
}

/// Replaces the red, green and blue byte of every pixel of an RGBA8 buffer
/// by its table entry and keeps the alpha byte. A trailing partial pixel is
/// treated the same way, channel by channel.
pub fn apply_gamma(lut: &Vec<u8>, buffer: &Vec<u8>) -> (r: Vec<u8>)
    requires
        lut.len() == 256,
    ensures
        r@ == gamma_applied(lut@, buffer@),
{
    let mut out: Vec<u8> = Vec::new();
    let mut k: usize = 0;
    while k < buffer.len()
        invariant
            lut.len() == 256,
            k <= buffer.len(),
            out@.len() == k,
            forall|j: int| 0 <= j < k ==> #[trigger] out@[j] == gamma_applied(lut@, buffer@)[j],
        decreases buffer.len() - k,
    {
        let c = buffer[k];
        if k % 4 == 3 {
            out.push(c);
        } else {
            out.push(lut[c as usize]);
        }
        k = k + 1;
    }
    assert(out@ =~= gamma_applied(lut@, buffer@));
    out
}

/// For a given value and exponent there is only one table entry.
pub proof fn lemma_gamma_entry_unique(v: int, w: int, i: int, num: nat, den: nat)
    requires
        den >= 1,
        is_gamma_entry(v, i, num, den),
        is_gamma_entry(w, i, num, den),
    ensures
        v == w,
{
    if v < w {
        lemma_power_base_mono(2 * v + 1, 2 * w - 1, den);
    } else if w < v {
        lemma_power_base_mono(2 * w + 1, 2 * v - 1, den);
    }
}

/// A gamma table never decreases; for a positive exponent it sends 0 to 0,
/// and for every supported exponent it sends 255 to 255.
pub proof fn lemma_gamma_table_shape(t: Seq<u8>, num: nat, den: nat)
    requires
        supported_exponent(num, den),
        is_gamma_table(t, num, den),
    ensures
        forall|i: int, j: int| 0 <= i <= j < 256 ==> t[i] <= t[j],
        num >= 1 ==> t[0] == 0,
        t[255] == 255,
{
    assert forall|i: int, j: int| 0 <= i <= j < 256 implies t[i] <= t[j] by {
        assert(is_gamma_entry(t[i] as int, i, num, den));
        assert(is_gamma_entry(t[j] as int, j, num, den));
        lemma_power_base_mono(i, j, num);
        lemma_power_nonneg(i, num);
        lemma_target_bound(i, num, den);
        let s = power(2, den) * power(255, (den - num) as nat);
        assert(s * power(i, num) <= s * power(j, num)) by (nonlinear_arith)
            requires
                s >= 0,
                power(i, num) <= power(j, num),
        ;
        if t[i] > t[j] {
            lemma_power_base_mono(2 * t[j] + 1, 2 * t[i] - 1, den);
        }
    }
    assert(is_gamma_entry(t[0] as int, 0, num, den));
    if num >= 1 {
        lemma_power_zero_base(num);
        let s = power(2, den) * power(255, (den - num) as nat);
        assert(s * 0 == 0) by (nonlinear_arith);
        if t[0] > 0 {
            lemma_power_positive(2 * t[0] - 1, den);
        }
    }
    assert(is_gamma_entry(t[255] as int, 255, num, den));
    lemma_target_bound(255, num, den);
    if t[255] < 255 {
        lemma_power_base_mono(2 * t[255] + 1, 510, den);
    }
}

/// With exponent one the table is the identity, so applying it twice is the
/// same as applying it once.
pub proof fn lemma_unit_gamma_idempotent(t: Seq<u8>, n: nat, buffer: Seq<u8>)
    requires
        1 <= n,
        is_gamma_table(t, n, n),
    ensures
        forall|i: int| 0 <= i < 256 ==> t[i] == i,
        gamma_applied(t, gamma_applied(t, buffer)) == gamma_applied(t, buffer),
{
    assert forall|i: int| 0 <= i < 256 implies t[i] == i by {
        assert(is_gamma_entry(t[i] as int, i, n, n));
        assert((n - n) as nat == 0);
        lemma_power_mul_base(2, i, n);
        assert(gamma_target(i, n, n) == power(2 * i, n));
        if t[i] < i {
            lemma_power_base_mono(2 * t[i] + 1, 2 * i, n);
        } else if t[i] > i {
            lemma_power_base_strict(2 * i, 2 * t[i] - 1, n);
        }
    }
    let once = gamma_applied(t, buffer);
    assert(gamma_applied(t, once) =~= once);
}

/// The sRGB encoding table is a one-shot correction, not a projection:
/// applied twice to a pixel it brightens the colour again.
pub proof fn lemma_srgb_gamma_not_idempotent(t: Seq<u8>)
    requires
        is_gamma_table(t, 5, 11),
    ensures
        gamma_applied(t, gamma_applied(t, seq![1u8, 1, 1, 255])) != gamma_applied(
            t,
            seq![1u8, 1, 1, 255],
        ),
{
    reveal_with_fuel(power, 12);
    assert(power(2, 11) == 2048int);
    assert(power(255, 6) == 274941996890625int);
    assert(power(1, 5) == 1int);
    assert(power(41, 11) == 550329031716248441int);
    assert(power(43, 11) == 929293739471222707int);
    assert(power(21, 5) == 4084101int);
    assert(power(163, 11) == 2158060662623960090407387int);
    assert(power(165, 11) == 2467876294615567236328125int);
    assert(is_gamma_entry(21, 1, 5, 11));
    assert(is_gamma_entry(t[1] as int, 1, 5, 11));
    lemma_gamma_entry_unique(t[1] as int, 21, 1, 5, 11);
    assert(is_gamma_entry(82, 21, 5, 11));
    assert(is_gamma_entry(t[21] as int, 21, 5, 11));
    lemma_gamma_entry_unique(t[21] as int, 82, 21, 5, 11);
    let px = seq![1u8, 1, 1, 255];
    assert(gamma_applied(t, px)[0] == 21);
    assert(gamma_applied(t, gamma_applied(t, px))[0] == 82);
}

} // verus!
