//! Sample-rate conversion, silence trimming and mixing.
//!
//! The Live API takes mono 16-bit PCM at 16 kHz and answers at 24 kHz, and the
//! local devices rarely run at either rate, so everything is resampled at the
//! boundary by linear interpolation.

use crate::rounding::{
    at_least_pow2, at_most, divide, floor_of, floor_to_usize, fraction_of, from_integer, integer, is_greater,
    lemma_greater_than_less, lemma_half_away_at_least, lemma_half_away_at_most, lemma_half_away_lowered,
    lemma_integer_close, lemma_integer_closer, lemma_rounded_at_least, lemma_rounded_at_most,
    lemma_rounded_close, lemma_rounded_exact, lemma_rounded_exp, lemma_rounded_normal, lemma_rounded_over_pow2,
    lemma_rounded_shift, lemma_sum_lowered, lowered, multiply, power_of_two, product, quotient, round_at,
    round_half_away, round_half_up, round_quotient, round_to_usize, rounded, saturated, scaled_den, scaled_num,
    shifted, square_root, sum, take_square_root, Double, Dyadic, Magnitude, DOUBLE,
};
use crate::single::{mean, mix, pcm_sample, Single};
use vstd::arithmetic::power2::{
    lemma2_to64, lemma2_to64_rest, lemma_pow2_adds, lemma_pow2_pos, lemma_pow2_strictly_increases, pow2,
};
use vstd::prelude::*;

verus! {

/// Rate of the audio that the Live API takes.
pub const INPUT_SAMPLE_RATE: u32 = 16_000;

/// Rate of the audio that the Live API answers with.
pub const OUTPUT_SAMPLE_RATE: u32 = 24_000;

/// How many input samples one output sample spans, in double precision.
pub open spec fn rate_ratio(from_rate: nat, to_rate: nat) -> Dyadic {
    rounded(from_rate, to_rate, 53)
}

/// The number of samples that `len` samples become.
pub open spec fn resampled_len(len: nat, from_rate: nat, to_rate: nat) -> int {
    if to_rate == 0 {
        0
    } else {
        saturated(
            round_half_away(quotient(rounded(len, 1, 53), rate_ratio(from_rate, to_rate), 53)),
        )
    }
}

/// Where in the input the output sample `i` lies, in double precision.
pub open spec fn source_position(i: nat, from_rate: nat, to_rate: nat) -> Dyadic {
    product(rounded(i, 1, 53), rate_ratio(from_rate, to_rate), 53)
}

/// The point `frac` of the way from `a` to `b`, computed in double precision
/// and rounded to the nearest integer.
pub open spec fn interpolated(a: int, b: int, frac: Dyadic) -> int {
    round_half_away(sum(integer(a), product(integer(b - a), frac, 53), 53))
}

/// The sample to the left of position `idx`: silence past the end.
pub open spec fn sample_at(input: Seq<i16>, idx: int) -> i16 {
    if idx < input.len() {
        input[idx]
    } else {
        0
    }
}

/// The sample to the right of position `idx`: the last one past the end.
pub open spec fn sample_after(input: Seq<i16>, idx: int) -> i16 {
    if idx + 1 < input.len() {
        input[idx + 1]
    } else {
        input.last()
    }
}

/// The output sample `i` of a conversion.
pub open spec fn resampled_sample(input: Seq<i16>, from_rate: nat, to_rate: nat, i: nat) -> int {
    let pos = source_position(i, from_rate, to_rate);
    let idx = floor_of(pos);
    interpolated(
        sample_at(input, idx) as int,
        sample_after(input, idx) as int,
        fraction_of(pos),
    )
}

/// `input` converted from one sample rate to another.
pub open spec fn resampled(input: Seq<i16>, from_rate: nat, to_rate: nat) -> Seq<i16> {
    if from_rate == to_rate || input.len() == 0 {
        input
    } else {
        Seq::new(
            resampled_len(input.len(), from_rate, to_rate) as nat,
            |i: int| resampled_sample(input, from_rate, to_rate, i as nat) as i16,
        )
    }
}

/// `frac` lies in `[0, 1)`.
pub open spec fn is_fraction(frac: Dyadic) -> bool {
    ||| frac == integer(0)
    ||| frac.exp < 0 && 0 <= frac.mant < pow2((-frac.exp) as nat)
}

/// Interpolation never leaves the interval between its two samples.
pub proof fn law_interpolation_stays_between(a: int, b: int, frac: Dyadic)
    requires
        -32768 <= a <= 32767,
        -32768 <= b <= 32767,
        is_fraction(frac),
        frac.mant < pow2(53),
    ensures
        a <= b ==> a <= interpolated(a, b, frac) <= b,
        b <= a ==> b <= interpolated(a, b, frac) <= a,
{
    lemma2_to64_rest();
    lemma2_to64();
    let diff = b - a;
    let up = if diff < 0 { (-diff) as nat } else { diff as nat };
    let n = if frac.exp < 0 { up * (frac.mant as nat) } else { 0 };
    let step = product(integer(diff), frac, 53);
    assert(diff * frac.mant == if diff < 0 { -(n as int) } else { n as int }) by (nonlinear_arith)
        requires
            up == (if diff < 0 { -diff } else { diff }),
            n == (if frac.exp < 0 { up * frac.mant } else { 0 }),
            frac.exp < 0 || frac.mant == 0,
    ;
    if n == 0 {
        assert(step == integer(0));
        assert(sum(integer(a), integer(0), 53) == round_at(a * 1 + 0 * 1, 0, 53));
        lemma_integer_kept(a);
    } else {
        let k = (-frac.exp) as nat;
        lemma_rounded_over_pow2(n, 53, k);
        let mag = rounded(n, pow2(k), 53);
        lemma_pow2_pos(k);
        assert(n <= up * pow2(k)) by (nonlinear_arith)
            requires
                n == up * frac.mant,
                frac.mant < pow2(k),
        ;
        lemma_rounded_at_most(n, pow2(k), 53, up);
        lemma_rounded_normal(n, pow2(k), 53);
        lemma_sum_stays_between(a, b, mag);
    }
}

/// Rounding and rounding again leave a sample as it is.
pub proof fn lemma_integer_kept(a: int)
    requires
        -65536 <= a <= 65536,
    ensures
        round_half_away(round_at(a, 0, 53)) == a,
{
    lemma2_to64_rest();
    lemma2_to64();
    let m = if a < 0 { (-a) as nat } else { a as nat };
    let r = rounded(m, 1, 53);
    assert(m * 1 == m);
    lemma_rounded_at_most(m, 1, 53, m);
    lemma_rounded_at_least(m, 1, 53, m);
    if m > 0 {
        lemma_rounded_normal(m, 1, 53);
    }
    lemma_half_away_at_most(r, m as int);
    lemma_half_away_at_least(r, m as int);
    if a < 0 {
        lemma_half_away_negated(r);
    }
}

/// Rounding to an integer is symmetric.
pub proof fn lemma_half_away_negated(x: Dyadic)
    requires
        x.mant >= 0,
    ensures
        round_half_away(Dyadic { mant: -x.mant, exp: x.exp }) == -round_half_away(x),
{
    if x.exp >= 0 {
        assert((-x.mant) * pow2(x.exp as nat) == -(x.mant * pow2(x.exp as nat))) by (nonlinear_arith);
    } else {
        let u = pow2((-x.exp) as nat) as int;
        lemma_pow2_pos((-x.exp) as nat);
        if x.mant == 0 {
            assert(u / (2 * u) == 0) by (nonlinear_arith)
                requires
                    u > 0,
            ;
        }
    }
}

/// Adding to `a` a part of the way to `b` stays between the two.
proof fn lemma_sum_stays_between(a: int, b: int, mag: Dyadic)
    requires
        -32768 <= a <= 32767,
        -32768 <= b <= 32767,
        mag.mant >= pow2(52),
        at_most(mag, if a <= b { b - a } else { a - b }),
    ensures
        ({
            let step = Dyadic { mant: if a <= b { mag.mant } else { -mag.mant }, exp: mag.exp };
            let r = round_half_away(sum(integer(a), step, 53));
            if a <= b { a <= r <= b } else { b <= r <= a }
        }),
{
    lemma2_to64_rest();
    lemma2_to64();
    let step = Dyadic { mant: if a <= b { mag.mant } else { -mag.mant }, exp: mag.exp };
    if mag.exp >= 0 {
        lemma_pow2_pos(mag.exp as nat);
        assert(mag.mant * pow2(mag.exp as nat) >= mag.mant) by (nonlinear_arith)
            requires
                pow2(mag.exp as nat) >= 1,
                mag.mant >= 0,
        ;
        assert(false);
    }
    let k = (-mag.exp) as nat;
    let u = pow2(k) as int;
    lemma_pow2_pos(k);
    let s = a * u + step.mant * 1;
    let lo = if a <= b { a } else { b };
    let hi = if a <= b { b } else { a };
    assert(lo * u <= s <= hi * u) by (nonlinear_arith)
        requires
            s == a * u + step.mant,
            step.mant == (if a <= b { mag.mant } else { -mag.mant }),
            mag.mant <= (if a <= b { b - a } else { a - b }) * u,
            mag.mant >= 0,
            lo == (if a <= b { a } else { b }),
            hi == (if a <= b { b } else { a }),
    ;
    let n = if s < 0 { (-s) as nat } else { s as nat };
    lemma_rounded_over_pow2(n, 53, k);
    let x = rounded(n, pow2(k), 53);
    if n > 0 {
        lemma_rounded_normal(n, pow2(k), 53);
    }
    if s < 0 {
        let top = -lo;
        let bottom = if hi < 0 { -hi } else { 0 };
        assert(lo < 0) by (nonlinear_arith)
            requires
                lo * u <= s,
                s < 0,
                u > 0,
        ;
        assert(bottom * u <= -s <= top * u) by (nonlinear_arith)
            requires
                lo * u <= s <= hi * u,
                top == -lo,
                bottom == (if hi < 0 { -hi } else { 0 }),
                s < 0,
        ;
        lemma_rounded_at_most(n, pow2(k), 53, top as nat);
        lemma_rounded_at_least(n, pow2(k), 53, bottom as nat);
        lemma_half_away_at_most(x, top);
        lemma_half_away_at_least(x, bottom);
        lemma_half_away_negated(x);
    } else {
        let bottom = if lo > 0 { lo } else { 0 };
        assert(hi >= 0) by (nonlinear_arith)
            requires
                s <= hi * u,
                s >= 0,
                u > 0,
        ;
        assert(bottom * u <= s) by (nonlinear_arith)
            requires
                lo * u <= s,
                bottom == (if lo > 0 { lo } else { 0 }),
                s >= 0,
        ;
        lemma_rounded_at_most(n, pow2(k), 53, hi as nat);
        lemma_rounded_at_least(n, pow2(k), 53, bottom as nat);
        lemma_half_away_at_most(x, hi);
        lemma_half_away_at_least(x, bottom);
    }
}

pub proof fn lemma_pow2_values()
    ensures
        pow2(0) == 1,
        pow2(16) == 65536,
        pow2(32) == 0x1_0000_0000,
        pow2(52) == 0x10_0000_0000_0000,
        pow2(53) == 0x20_0000_0000_0000,
        pow2(64) == 0x1_0000_0000_0000_0000,
        pow2(84) == 0x10_0000_0000_0000 * 0x1_0000_0000,
        pow2(84) < pow2(100) < pow2(120) < u128::MAX,
        pow2(69) < pow2(120),
        pow2(69) == 0x20_0000_0000_0000 * 65536,
{
    lemma2_to64();
    lemma2_to64_rest();
    lemma_pow2_adds(52, 32);
    lemma_pow2_adds(53, 16);
    lemma_pow2_strictly_increases(69, 120);
    lemma_pow2_strictly_increases(84, 100);
    lemma_pow2_strictly_increases(100, 120);
    lemma_pow2_adds(64, 56);
}

/// By how many bits `n` falls short of double precision.
spec fn spare_bits(n: nat) -> nat {
    let e = rounded(n, 1, 53).exp;
    if e < 0 {
        (-e) as nat
    } else {
        0
    }
}

/// `n / 2^k` rounded to double precision, as a quotient `r.0 / 2^r.1`.
fn round_over_pow2(n: u128, k: u32, b: u32) -> (r: (u128, u32))
    requires
        0 < n < pow2((b + k) as nat),
        k <= 84,
        b <= 20,
    ensures
        r.1 <= k,
        0 < r.0 < pow2(53),
        r.0 < pow2((b + 1 + r.1) as nat),
        shifted(rounded(n as nat, 1, 53), -(k as int)) == lowered(
            Dyadic { mant: r.0 as int, exp: -(r.1 as int) },
            spare_bits(n as nat),
        ),
{
    proof {
        lemma_pow2_values();
    }
    if n < 0x20_0000_0000_0000 {
        proof {
            lemma_rounded_exact(n as nat, 53);
            let x = rounded(n as nat, 1, 53);
            lemma_rounded_normal(n as nat, 1, 53);
            let i = (-x.exp) as nat;
            assert(shifted(x, -(k as int)) == lowered(Dyadic { mant: n as int, exp: -(k as int) }, i));
            lemma_pow2_strictly_increases((b + k) as nat, (b + 1 + k) as nat);
        }
        (n, k)
    } else {
        proof {
            lemma_pow2_strictly_increases((b + k) as nat, 120);
            assert(1 * pow2(53) == pow2(53));
            lemma_rounded_exp(n as nat, 1, 53, 53);
            assert(1 * pow2((b + k) as nat) == pow2((b + k) as nat));
            lemma_rounded_exp(n as nat, 1, 53, b + k);
            lemma_rounded_normal(n as nat, 1, 53);
        }
        let x: Magnitude = round_quotient(n, 1, DOUBLE);
        let j: u32 = k - x.exp as u32;
        let m: u128 = x.mant as u128;
        proof {
            let d = Dyadic { mant: m as int, exp: -(j as int) };
            assert(x.mant * pow2(0) == x.mant) by (nonlinear_arith)
                requires
                    pow2(0) == 1,
            ;
            assert(shifted(rounded(n as nat, 1, 53), -(k as int)) == lowered(d, 0nat));
            if b + 1 + j > 53 {
                lemma_pow2_strictly_increases(53, (b + 1 + j) as nat);
            }
        }
        (m, j)
    }
}

/// The point `frac` of the way from `a` to `b`.
fn interpolate(a: i16, b: i16, frac: Magnitude) -> (r: i16)
    requires
        is_fraction(frac@),
        frac.mant < pow2(53),
        -84 <= frac.exp <= 0,
    ensures
        r == interpolated(a as int, b as int, frac@),
{
    proof {
        lemma_pow2_values();
        law_interpolation_stays_between(a as int, b as int, frac@);
    }
    let falling: bool = b < a;
    let distance: u128 = if falling {
        (a as i32 - b as i32) as u128
    } else {
        (b as i32 - a as i32) as u128
    };
    let part: u64 = frac.mant;
    assert(0 <= distance * part < 65536 * 0x20_0000_0000_0000) by (nonlinear_arith)
        requires
            0 <= distance < 65536,
            0 <= part < 0x20_0000_0000_0000,
    ;
    let n: u128 = distance * part as u128;
    let ghost diff = b - a;
    proof {
        assert(diff * frac@.mant == if falling { -(n as int) } else { n as int }) by (nonlinear_arith)
            requires
                distance == (if falling { -diff } else { diff }),
                n == distance * frac@.mant,
        ;
    }
    if n == 0 {
        proof {
            assert(sum(integer(a as int), integer(0), 53) == round_at(a * 1 + 0 * 1, 0, 53));
            lemma_integer_kept(a as int);
        }
        return a;
    }
    let k: u32 = (-frac.exp) as u32;
    proof {
        lemma_pow2_adds(16, k as nat);
        let w = pow2(k as nat);
        assert(n < 65536 * w) by (nonlinear_arith)
            requires
                n == distance * part,
                0 <= distance < 65536,
                0 <= part < w,
        ;
    }
    let (m, j) = round_over_pow2(n, k, 16);
    let ghost step = Dyadic { mant: if falling { -(m as int) } else { m as int }, exp: -(j as int) };
    proof {
        lemma2_to64();
        let i = spare_bits(n as nat);
        let w = pow2(i) as int;
        assert((-(m as int)) * w == -(m * w)) by (nonlinear_arith);
        assert(product(integer(diff), frac@, 53) == lowered(step, i));
        lemma_sum_lowered(a as int, step, 53, i);
        lemma_pow2_adds(17, j as nat);
        lemma_pow2_adds(15, j as nat);
        lemma_pow2_adds(18, j as nat);
        lemma_pow2_pos(j as nat);
        if j < 84 {
            lemma_pow2_strictly_increases(j as nat, 84);
        }
    }
    let unit: i128 = power_of_two(j) as i128;
    proof {
        assert(-32768 * unit <= a * unit <= 32767 * unit) by (nonlinear_arith)
            requires
                -32768 <= a <= 32767,
                unit > 0,
        ;
    }
    let total: i128 = if falling {
        a as i128 * unit - m as i128
    } else {
        a as i128 * unit + m as i128
    };
    assert(sum(integer(a as int), step, 53) == round_at(total as int, -(j as int), 53)) by {
        assert(step.mant * 1 == step.mant);
    }
    if total == 0 {
        return 0;
    }
    let size: u128 = if total < 0 { (-total) as u128 } else { total as u128 };
    let (q, i) = round_over_pow2(size, j, 18);
    proof {
        let x = Dyadic { mant: q as int, exp: -(i as int) };
        let l = spare_bits(size as nat);
        lemma_half_away_lowered(x, l);
        lemma_pow2_pos(l);
        let w = pow2(l) as int;
        assert(q * w >= 0) by (nonlinear_arith)
            requires
                q >= 0,
                w >= 0,
        ;
        lemma_half_away_negated(lowered(x, l));
        lemma_pow2_strictly_increases(53, 120);
    }
    let rounded_size: u128 = round_half_up(q, i);
    if total < 0 {
        (-(rounded_size as i128)) as i16
    } else {
        rounded_size as i16
    }
}

/// The size of the ratio of two sample rates.
pub proof fn lemma_ratio_range(from_rate: nat, to_rate: nat)
    requires
        0 < from_rate < pow2(32),
        0 < to_rate < pow2(32),
    ensures
        pow2(52) <= rate_ratio(from_rate, to_rate).mant < pow2(53),
        -84 <= rate_ratio(from_rate, to_rate).exp <= -20,
{
    lemma2_to64();
    lemma_rounded_normal(from_rate, to_rate, 53);
    assert(from_rate * pow2(32) >= pow2(32)) by (nonlinear_arith)
        requires
            from_rate >= 1,
    ;
    lemma_rounded_exp(from_rate, to_rate, 53, -32);
    assert(to_rate * pow2(32) >= pow2(32)) by (nonlinear_arith)
        requires
            to_rate >= 1,
    ;
    lemma_rounded_exp(from_rate, to_rate, 53, 32);
}

/// The size of a source position.
pub proof fn lemma_position_range(i: nat, from_rate: nat, to_rate: nat)
    requires
        i < pow2(64),
        0 < from_rate < pow2(32),
        0 < to_rate < pow2(32),
    ensures
        0 <= source_position(i, from_rate, to_rate).mant < pow2(53),
        -84 <= source_position(i, from_rate, to_rate).exp <= 46,
        is_fraction(fraction_of(source_position(i, from_rate, to_rate))),
        0 <= fraction_of(source_position(i, from_rate, to_rate)).mant < pow2(53),
{
    let pos = source_position(i, from_rate, to_rate);
    let ratio = rate_ratio(from_rate, to_rate);
    let count = rounded(i, 1, 53);
    lemma_pow2_values();
    lemma_ratio_range(from_rate, to_rate);
    if i == 0 {
        assert(0 * ratio.mant == 0);
    } else {
        lemma_rounded_normal(i, 1, 53);
        lemma_rounded_exp(i, 1, 53, 0);
        lemma_rounded_exp(i, 1, 53, 64);
        let n = (count.mant * ratio.mant) as nat;
        lemma_pow2_adds(52, 52);
        lemma_pow2_adds(53, 53);
        let (lo, hi) = (pow2(52) as int, pow2(53) as int);
        assert(lo * lo <= count.mant * ratio.mant < hi * hi) by (nonlinear_arith)
            requires
                lo <= count.mant < hi,
                lo <= ratio.mant < hi,
                0 <= lo,
        ;
        lemma_rounded_normal(n, 1, 53);
        lemma_rounded_exp(n, 1, 53, 104);
        lemma_rounded_exp(n, 1, 53, 106);
    }
    if pos.exp < 0 {
        let w = pow2((-pos.exp) as nat) as int;
        lemma_pow2_pos((-pos.exp) as nat);
        vstd::arithmetic::div_mod::lemma_mod_bound(pos.mant, w);
        vstd::arithmetic::div_mod::lemma_mod_decreases(pos.mant as nat, w as nat);
    }
}

/// What a source position has beyond its integer part.
fn fraction(x: Magnitude) -> (r: Magnitude)
    requires
        -120 <= x.exp,
        x.mant < pow2(53),
    ensures
        r@ == fraction_of(x@),
        x.exp >= 0 ==> r.exp == 0,
{
    if x.exp >= 0 {
        Magnitude { mant: 0, exp: 0 }
    } else {
        let unit: u128 = power_of_two((-x.exp) as u32);
        proof {
            vstd::arithmetic::div_mod::lemma_mod_decreases(x.mant as nat, unit as nat);
        }
        Magnitude { mant: (x.mant as u128 % unit) as u64, exp: x.exp }
    }
}

/// Converts mono PCM from one sample rate to another by linear interpolation.
pub fn resample_linear(input: &[i16], from_rate: u32, to_rate: u32) -> (out: Vec<i16>)
    requires
        from_rate > 0 || from_rate == to_rate || input@.len() == 0,
    ensures
        out@ == resampled(input@, from_rate as nat, to_rate as nat),
{
    let mut out: Vec<i16> = Vec::new();
    if from_rate == to_rate || input.len() == 0 {
        out.extend_from_slice(input);
        assert(out@ =~= input@);
        return out;
    }
    if to_rate == 0 {
        assert(out@ =~= resampled(input@, from_rate as nat, to_rate as nat));
        return out;
    }
    proof {
        lemma_pow2_values();
        lemma_ratio_range(from_rate as nat, to_rate as nat);
        lemma_pow2_strictly_increases(32, 64);
        lemma_pow2_strictly_increases(32, 120);
    }
    let ratio: Magnitude = round_quotient(from_rate as u128, to_rate as u128, DOUBLE);
    let len: Magnitude = from_integer(input.len() as u64, DOUBLE);
    let stretched: Magnitude = divide(len, ratio, DOUBLE);
    proof {
        let (a, b) = (len.mant as nat, ratio.mant as nat);
        lemma2_to64();
        lemma_rounded_normal(input.len() as nat, 1, 53);
        assert(at_least_pow2(a, b, -1)) by {
            assert(a * 2 >= b);
        }
        assert(!at_least_pow2(a, b, 1)) by {
            assert(b * 2 > a);
        }
        lemma_rounded_exp(a, b, 53, -1);
        lemma_rounded_exp(a, b, 53, 1);
    }
    let out_len: usize = round_to_usize(stretched);
    let mut i: usize = 0;
    while i < out_len
        invariant
            from_rate > 0,
            to_rate > 0,
            from_rate != to_rate,
            input@.len() > 0,
            ratio@ == rate_ratio(from_rate as nat, to_rate as nat),
            out_len == resampled_len(input@.len(), from_rate as nat, to_rate as nat),
            i <= out_len,
            out@.len() == i,
            forall|j: int| 0 <= j < i ==> #[trigger] out@[j] == resampled_sample(
                input@,
                from_rate as nat,
                to_rate as nat,
                j as nat,
            ),
        decreases out_len - i,
    {
        proof {
            lemma_pow2_values();
            lemma_ratio_range(from_rate as nat, to_rate as nat);
            lemma_position_range(i as nat, from_rate as nat, to_rate as nat);
        }
        let count: Magnitude = from_integer(i as u64, DOUBLE);
        let pos: Magnitude = multiply(count, ratio, DOUBLE);
        let idx: usize = floor_to_usize(pos);
        let frac: Magnitude = fraction(pos);
        let a: i16 = if idx < input.len() { input[idx] } else { 0 };
        let b: i16 = if idx < input.len() - 1 { input[idx + 1] } else { input[input.len() - 1] };
        out.push(interpolate(a, b, frac));
        i = i + 1;
    }
    assert(out@ =~= resampled(input@, from_rate as nat, to_rate as nat));
    out
}

/// A conversion that a machine can make: the result fits in memory, and is
/// short of `2^47` samples.
pub open spec fn is_feasible(len: nat, from_rate: nat, to_rate: nat) -> bool {
    &&& 0 < from_rate <= u32::MAX
    &&& 0 < to_rate <= u32::MAX
    &&& len < pow2(53)
    &&& len * to_rate < from_rate * pow2(47)
    &&& len * to_rate + from_rate <= from_rate * usize::MAX
}

/// The ratio of two sample rates in double precision is off by at most one
/// part in `2^53`.
pub proof fn lemma_ratio_close(from_rate: nat, to_rate: nat, u: int, off: int)
    requires
        0 < from_rate <= u32::MAX,
        0 < to_rate <= u32::MAX,
        u == pow2((-rate_ratio(from_rate, to_rate).exp) as nat),
        off == rate_ratio(from_rate, to_rate).mant * to_rate - from_rate * u,
    ensures
        u > 0,
        0x20_0000_0000_0000 * off <= from_rate * u,
        0x20_0000_0000_0000 * (-off) <= from_rate * u,
        from_rate * u <= 2 * (rate_ratio(from_rate, to_rate).mant * to_rate),
{
    lemma_pow2_values();
    lemma_ratio_range(from_rate, to_rate);
    lemma_pow2_pos((-rate_ratio(from_rate, to_rate).exp) as nat);
    lemma_rounded_close(from_rate, to_rate, 53);
}

/// A length in double precision over the ratio of the rates is one rounded
/// quotient.
pub proof fn lemma_stretched(len: nat, from_rate: nat, to_rate: nat)
    requires
        0 < len < pow2(53),
        0 < from_rate <= u32::MAX,
        0 < to_rate <= u32::MAX,
    ensures
        ({
            let ratio = rate_ratio(from_rate, to_rate);
            let k = (-ratio.exp) as nat;
            quotient(rounded(len, 1, 53), ratio, 53) == rounded(len * pow2(k), ratio.mant as nat, 53)
        }),
{
    lemma_pow2_values();
    lemma_ratio_range(from_rate, to_rate);
    lemma_rounded_exact(len, 53);
    let ratio = rate_ratio(from_rate, to_rate);
    let x = rounded(len, 1, 53);
    let (a, k, d) = ((-x.exp) as nat, (-ratio.exp) as nat, ratio.mant as nat);
    lemma_rounded_normal(len, d, 53);
    lemma_rounded_shift(len, d, 53, a);
    lemma_rounded_shift(len, d, 53, k);
}

/// How long a conversion makes its input.
pub proof fn lemma_resampled_len(len: nat, from_rate: nat, to_rate: nat)
    requires
        len > 0,
        is_feasible(len, from_rate, to_rate),
    ensures
        -3 * from_rate < 4 * (resampled_len(len, from_rate, to_rate) * from_rate - len * to_rate) < 3 * from_rate,
        0 <= resampled_len(len, from_rate, to_rate) <= pow2(48),
        resampled_len(len, from_rate, to_rate) == round_half_away(
            quotient(rounded(len, 1, 53), rate_ratio(from_rate, to_rate), 53),
        ),
{
    lemma_pow2_values();
    lemma2_to64_rest();
    lemma_ratio_range(from_rate, to_rate);
    lemma_stretched(len, from_rate, to_rate);
    let ratio = rate_ratio(from_rate, to_rate);
    let k = (-ratio.exp) as nat;
    let u = pow2(k) as int;
    let d = ratio.mant;
    let n = len * pow2(k);
    let off = d * to_rate - from_rate * u;
    lemma_ratio_close(from_rate, to_rate, u, off);
    assert(n < d * pow2(48)) by (nonlinear_arith)
        requires
            n == len * u,
            u > 0,
            d > 0,
            to_rate > 0,
            len * to_rate < from_rate * pow2(47),
            from_rate * u <= 2 * (d * to_rate),
            pow2(48) == 2 * pow2(47),
            pow2(47) > 0,
    ;
    lemma_integer_close(n, d as nat);
    let r = round_half_away(rounded(n, d as nat, 53));
    let (f, t) = (from_rate as int, to_rate as int);
    assert(r <= 0x1_0000_0000_0000) by (nonlinear_arith)
        requires
            8 * (r * d - n) <= 5 * d,
            n < d * pow2(48),
            pow2(48) == 0x1_0000_0000_0000,
            d > 0,
    ;
    assert(r >= 0) by (nonlinear_arith)
        requires
            -5 * d <= 8 * (r * d - n),
            n >= 0,
            d > 0,
    ;
    let gap = r * f - len * t;
    assert(gap * u == (r * f) * u - (len * t) * u) by (nonlinear_arith)
        requires
            gap == r * f - len * t,
    ;
    assert((r * d - n) * t == (r * d) * t - (len * u) * t) by (nonlinear_arith)
        requires
            n == len * u,
    ;
    assert(r * off == r * (d * t) - r * (f * u)) by (nonlinear_arith)
        requires
            off == d * t - f * u,
    ;
    assert((r * d) * t == r * (d * t)) by (nonlinear_arith);
    assert((r * f) * u == r * (f * u)) by (nonlinear_arith);
    assert((len * t) * u == (len * u) * t) by (nonlinear_arith);
    assert(8 * (gap * u) == 8 * ((r * d - n) * t) - 8 * (r * off));
    assert(-5 * (d * t) <= 8 * ((r * d - n) * t) <= 5 * (d * t)) by (nonlinear_arith)
        requires
            -5 * d <= 8 * (r * d - n) <= 5 * d,
            t > 0,
    ;
    let w = f * u;
    assert(-w <= 32 * (r * off) && 32 * (r * off) <= w) by (nonlinear_arith)
        requires
            0 <= r <= 0x1_0000_0000_0000,
            0x20_0000_0000_0000 * off <= w,
            0x20_0000_0000_0000 * (-off) <= w,
            w >= 0,
    ;
    assert(d * t == w + off);
    assert(-6 * w < 8 * (gap * u) < 6 * w) by {
        assert(0x20_0000_0000_0000 * off <= w);
        assert(w > 0) by (nonlinear_arith)
            requires
                w == f * u,
                f > 0,
                u > 0,
        ;
    }
    assert(-6 * f < 8 * gap < 6 * f) by (nonlinear_arith)
        requires
            -6 * w < 8 * (gap * u) < 6 * w,
            w == f * u,
            u > 0,
    ;
    assert(r <= usize::MAX) by (nonlinear_arith)
        requires
            8 * (r * f - len * t) < 6 * f,
            len * t + f <= f * usize::MAX,
            f > 0,
    ;
}

/// A conversion of ordinary length gives the nearest number of samples.
proof fn lemma_nearest_len(len: nat, from_rate: nat, to_rate: nat)
    requires
        len > 0,
        is_feasible(len, from_rate, to_rate),
        len * to_rate <= pow2(50),
    ensures
        -(from_rate as int) <= 2 * (resampled_len(len, from_rate, to_rate) * from_rate - len * to_rate) <= from_rate,
{
    lemma_pow2_values();
    lemma2_to64_rest();
    lemma_ratio_range(from_rate, to_rate);
    lemma_stretched(len, from_rate, to_rate);
    lemma_resampled_len(len, from_rate, to_rate);
    let ratio = rate_ratio(from_rate, to_rate);
    let k = (-ratio.exp) as nat;
    let u = pow2(k) as int;
    let d = ratio.mant;
    let (f, t) = (from_rate as int, to_rate as int);
    let off = d * t - f * u;
    lemma_ratio_close(from_rate, to_rate, u, off);
    let n = len * pow2(k);
    assert(n > 0) by (nonlinear_arith)
        requires
            n == len * u,
            len > 0,
            u > 0,
    ;
    lemma_integer_closer(n, d as nat);
    let r = round_half_away(rounded(n, d as nat, 53));
    let p = pow2(53) as int;
    lemma_nearest_bound(r, len as int, f, t, d, u, off, p);
}

/// The arithmetic of [`lemma_nearest_len`].
proof fn lemma_nearest_bound(r: int, len: int, f: int, t: int, d: int, u: int, off: int, p: int)
    requires
        p == 0x20_0000_0000_0000,
        f > 0,
        t > 0,
        u > 0,
        r >= 0,
        f <= u32::MAX,
        len * t <= 0x4_0000_0000_0000,
        off == d * t - f * u,
        p * off <= f * u,
        p * (-off) <= f * u,
        2 * (p * (r * d - len * u)) <= p * d + 2 * (len * u),
        -2 * (p * (r * d - len * u)) <= p * d + 2 * (len * u),
        4 * (r * f - len * t) < 3 * f,
    ensures
        -f <= 2 * (r * f - len * t) <= f,
{
    let gap = r * f - len * t;
    let miss = r * d - len * u;
    let (lt, rf, fu) = (len * t, r * f, f * u);
    assert(gap * u == miss * t - r * off) by (nonlinear_arith)
        requires
            gap == r * f - len * t,
            miss == r * d - len * u,
            off == d * t - f * u,
    ;
    let b = p * d + 2 * (len * u);
    let pm = 2 * (p * miss);
    assert(-(b * t) <= pm * t <= b * t) by (nonlinear_arith)
        requires
            -b <= pm <= b,
            t > 0,
    ;
    assert(b * t == p * (d * t) + 2 * (lt * u)) by (nonlinear_arith)
        requires
            b == p * d + 2 * (len * u),
            lt == len * t,
    ;
    assert(p * (d * t) == p * fu + p * off) by (nonlinear_arith)
        requires
            d * t == fu + off,
    ;
    let po = p * off;
    assert(-(rf * u) <= r * po <= rf * u) by (nonlinear_arith)
        requires
            -fu <= po <= fu,
            r >= 0,
            rf == r * f,
            fu == f * u,
    ;
    let (gu, mt, ro) = (gap * u, miss * t, r * off);
    assert(2 * (p * gap) * u == 2 * (p * gu)) by (nonlinear_arith)
        requires
            gu == gap * u,
    ;
    assert(p * gu == p * mt - p * ro) by (nonlinear_arith)
        requires
            gu == mt - ro,
    ;
    assert(pm * t == 2 * (p * mt)) by (nonlinear_arith)
        requires
            pm == 2 * (p * miss),
            mt == miss * t,
    ;
    assert(r * po == p * ro) by (nonlinear_arith)
        requires
            po == p * off,
            ro == r * off,
    ;
    let g = 2 * (p * gap);
    let room = p * f + f + 2 * lt + 2 * rf;
    assert(room * u == p * fu + fu + 2 * (lt * u) + 2 * (rf * u)) by (nonlinear_arith)
        requires
            room == p * f + f + 2 * lt + 2 * rf,
            fu == f * u,
    ;
    assert(-room <= g <= room) by (nonlinear_arith)
        requires
            g * u <= room * u,
            -(g * u) <= room * u,
            u > 0,
    ;
    assert(g < p * (f + 1) && -g < p * (f + 1));
    assert(2 * gap < f + 1 && -2 * gap < f + 1);
}

/// A conversion keeps the duration: the length times the old rate is the old
/// length times the new rate, to within one sample, and to within half a sample
/// for audio of ordinary length, which at 48 kHz is up to five days.
pub proof fn law_resampling_keeps_duration(input: Seq<i16>, from_rate: nat, to_rate: nat)
    requires
        is_feasible(input.len(), from_rate, to_rate),
    ensures
        -(from_rate as int) < resampled(input, from_rate, to_rate).len() * from_rate - input.len() * to_rate
            < from_rate,
        input.len() * to_rate <= pow2(50) ==> -(from_rate as int) <= 2 * (resampled(
            input,
            from_rate,
            to_rate,
        ).len() * from_rate - input.len() * to_rate) <= from_rate,
{
    if from_rate != to_rate && input.len() > 0 {
        lemma_resampled_len(input.len(), from_rate, to_rate);
        if input.len() * to_rate <= pow2(50) {
            lemma_nearest_len(input.len(), from_rate, to_rate);
        }
    } else {
        assert(input.len() * from_rate - input.len() * to_rate == 0 || input.len() == 0);
        assert(0 * from_rate - 0 * to_rate == 0);
    }
}

/// A sample's number in double precision times the ratio of the rates is one
/// rounded quotient.
pub proof fn lemma_position(i: nat, from_rate: nat, to_rate: nat)
    requires
        i < pow2(53),
        0 < from_rate <= u32::MAX,
        0 < to_rate <= u32::MAX,
    ensures
        ({
            let ratio = rate_ratio(from_rate, to_rate);
            source_position(i, from_rate, to_rate) == rounded(
                i * ratio.mant as nat,
                pow2((-ratio.exp) as nat),
                53,
            )
        }),
{
    lemma_pow2_values();
    lemma_ratio_range(from_rate, to_rate);
    let ratio = rate_ratio(from_rate, to_rate);
    let x = rounded(i, 1, 53);
    let (k, d) = ((-ratio.exp) as nat, ratio.mant as nat);
    if i == 0 {
        assert(0 * d == 0);
    } else {
        lemma_rounded_exact(i, 53);
        let a = (-x.exp) as nat;
        lemma_rounded_shift(i * d, 1, 53, a);
        lemma_rounded_over_pow2(i * d, 53, k);
        assert((i * pow2(a)) * d == (i * d) * pow2(a)) by (nonlinear_arith);
        lemma_pow2_pos(a);
        assert((i * pow2(a)) * d > 0) by (nonlinear_arith)
            requires
                i > 0,
                d > 0,
                pow2(a) > 0,
        ;
        assert(i * d > 0) by (nonlinear_arith)
            requires
                i > 0,
                d > 0,
        ;
        lemma_rounded_normal(i * d, 1, 53);
    }
}

/// A conversion never reads past the end of its input.
pub proof fn law_resampling_stays_inside(input: Seq<i16>, from_rate: nat, to_rate: nat, i: nat)
    requires
        input.len() > 0,
        from_rate != to_rate,
        is_feasible(input.len(), from_rate, to_rate),
        i < resampled(input, from_rate, to_rate).len(),
    ensures
        0 <= floor_of(source_position(i, from_rate, to_rate)) < input.len(),
{
    lemma_pow2_values();
    lemma2_to64_rest();
    let len = input.len() as int;
    lemma_resampled_len(input.len(), from_rate, to_rate);
    lemma_ratio_range(from_rate, to_rate);
    lemma_pow2_strictly_increases(48, 53);
    lemma_position(i, from_rate, to_rate);
    let x = source_position(i, from_rate, to_rate);
    let ratio = rate_ratio(from_rate, to_rate);
    let k = (-ratio.exp) as nat;
    let u = pow2(k) as int;
    let d = ratio.mant;
    let off = d * to_rate - from_rate * u;
    lemma_ratio_close(from_rate, to_rate, u, off);
    let n = i * d as nat;
    let (f, t) = (from_rate as int, to_rate as int);
    // The exact position is short of the end by more than a quarter of a step.
    let total = resampled_len(input.len(), from_rate, to_rate);
    assert(4 * (i * f) < 4 * (len * t) - f) by (nonlinear_arith)
        requires
            i + 1 <= total,
            4 * (total * f - len * t) < 3 * f,
            f > 0,
    ;
    if i == 0 {
        assert(0 * d == 0);
        assert(0 * pow2(0) == 0);
    } else {
        assert(n > 0) by (nonlinear_arith)
            requires
                n == i * d,
                i > 0,
                d > 0,
        ;
        lemma_rounded_close(n, pow2(k), 53);
        lemma_rounded_normal(n, pow2(k), 53);
        let w = 0x20_0000_0000_0000int;
        let (num, den) = (scaled_num(n, x.exp) as int, scaled_den(pow2(k), x.exp) as int);
        // n / u, scaled, is below len.
        let e = x.exp;
        let v = if e < 0 { pow2((-e) as nat) as int } else { pow2(e as nat) as int };
        lemma_pow2_pos((-e) as nat);
        lemma_pow2_pos(e as nat);
        assert(n * t == i * (f * u) + i * off) by (nonlinear_arith)
            requires
                n == i * d,
                off == d * t - f * u,
        ;
        lemma_short_of_end(n as int, i as int, f, t, len, u, off);
        // Now (n + n / 2^53) / u < len.
        if e < 0 {
            assert(num == n * v && den == u);
            assert(x.mant < len * v) by (nonlinear_arith)
                requires
                    w * (x.mant * den - num) <= num,
                    num == n * v,
                    den == u,
                    w * n + n < w * (len * u),
                    w == 0x20_0000_0000_0000,
                    u > 0,
                    v > 0,
            ;
            vstd::arithmetic::div_mod::lemma_fundamental_div_mod(x.mant, v);
            let q = x.mant / v;
            assert(0 <= q < len) by (nonlinear_arith)
                requires
                    x.mant == v * q + x.mant % v,
                    0 <= x.mant % v < v,
                    0 <= x.mant < len * v,
                    v > 0,
            ;
        } else {
            assert(num == n && den == u * v);
            assert(0 <= x.mant * v < len) by (nonlinear_arith)
                requires
                    w * (x.mant * den - num) <= num,
                    num == n,
                    den == u * v,
                    w * n + n < w * (len * u),
                    w == 0x20_0000_0000_0000,
                    u > 0,
                    v > 0,
                    x.mant >= 0,
            ;
        }
    }
}

/// What two roundings add to a position does not carry it to the end.
proof fn lemma_short_of_end(n: int, i: int, f: int, t: int, len: int, u: int, off: int)
    requires
        i > 0,
        f > 0,
        t > 0,
        u > 0,
        n > 0,
        n * t == i * (f * u) + i * off,
        0x20_0000_0000_0000 * off <= f * u,
        4 * (i * f) < 4 * (len * t) - f,
        len * t < f * 0x8000_0000_0000,
    ensures
        0x20_0000_0000_0000 * n + n < 0x20_0000_0000_0000 * (len * u),
{
    let w = 0x20_0000_0000_0000int;
    let fu = f * u;
    assert(i * off * w <= i * fu) by (nonlinear_arith)
        requires
            w * off <= fu,
            i > 0,
    ;
    // (w + 1) * n * t <= (w + 1)^2 / w * i * f * u, and i * f is below
    // len * t - f / 4.
    let m = i * f;
    assert(i * fu == m * u) by (nonlinear_arith)
        requires
            fu == f * u,
            m == i * f,
    ;
    assert(w * (n * t) <= (w + 1) * (m * u)) by (nonlinear_arith)
        requires
            n * t == i * fu + i * off,
            i * off * w <= i * fu,
            i * fu == m * u,
    ;
    assert((w + 1) * (w * (n * t)) <= (w + 1) * ((w + 1) * (m * u))) by (nonlinear_arith)
        requires
            w * (n * t) <= (w + 1) * (m * u),
            w > 0,
    ;
    let end = len * t;
    assert((w + 1) * ((w + 1) * m) < w * (w * end)) by {
        assert(4 * m < 4 * end - f);
        assert(end < f * 0x8000_0000_0000);
        assert(m < end);
        assert((w + 1) * ((w + 1) * m) == w * (w * m) + 2 * (w * m) + m) by (nonlinear_arith);
        assert(w * m < w * (f * 0x8000_0000_0000)) by (nonlinear_arith)
            requires
                m < f * 0x8000_0000_0000,
                w > 0,
        ;
        assert(4 * (w * (w * m)) <= 4 * (w * (w * end)) - w * (w * f)) by (nonlinear_arith)
            requires
                4 * m <= 4 * end - f,
                w > 0,
        ;
        assert(4 * (2 * (w * (f * 0x8000_0000_0000)) + f * 0x8000_0000_0000) < w * (w * f)) by (nonlinear_arith)
            requires
                w == 0x20_0000_0000_0000,
                f > 0,
        ;
    }
    assert((w + 1) * (w * n) < w * (w * (len * u))) by (nonlinear_arith)
        requires
            (w + 1) * (w * (n * t)) <= (w + 1) * ((w + 1) * (m * u)),
            (w + 1) * ((w + 1) * m) < w * (w * end),
            end == len * t,
            t > 0,
            u > 0,
    ;
    assert(w * n + n < w * (len * u)) by (nonlinear_arith)
        requires
            (w + 1) * (w * n) < w * (w * (len * u)),
            w > 0,
    ;
}

/// The length of a result is a length.
proof fn lemma_len_fits(len: nat, from_rate: nat, to_rate: nat)
    requires
        len > 0,
        0 < from_rate <= u32::MAX,
        to_rate <= u32::MAX,
    ensures
        0 <= resampled_len(len, from_rate, to_rate) <= usize::MAX,
{
    if to_rate > 0 {
        lemma_pow2_values();
        lemma_ratio_range(from_rate, to_rate);
        let count = rounded(len, 1, 53);
        let ratio = rate_ratio(from_rate, to_rate);
        lemma_rounded_normal(len, 1, 53);
        lemma_rounded_normal(count.mant as nat, ratio.mant as nat, 53);
        let x = quotient(count, ratio, 53);
        assert(x.mant >= 0);
        if x.exp >= 0 {
            let w = pow2(x.exp as nat) as int;
            assert(x.mant * w >= 0) by (nonlinear_arith)
                requires
                    x.mant >= 0,
                    w >= 0,
            ;
        } else {
            assert(0 * pow2((-x.exp) as nat) == 0) by (nonlinear_arith);
            lemma_half_away_at_least(x, 0);
        }
    }
}

/// A conversion to the same rate changes nothing, nor does one of no samples.
pub proof fn law_same_rate_is_identity(input: Seq<i16>, from_rate: nat, to_rate: nat)
    requires
        from_rate == to_rate || input.len() == 0,
    ensures
        resampled(input, from_rate, to_rate) == input,
{
}

/// A conversion never makes audio louder: no sample of the result exceeds the
/// peak of the input.
pub proof fn law_resampling_never_grows_peak(input: Seq<i16>, from_rate: nat, to_rate: nat, peak: int)
    requires
        0 < from_rate <= u32::MAX,
        to_rate <= u32::MAX,
        forall|i: int| 0 <= i < input.len() ==> -peak <= #[trigger] input[i] <= peak,
        peak >= 0,
    ensures
        forall|j: int|
            0 <= j < resampled(input, from_rate, to_rate).len() ==> -peak <= #[trigger] resampled(
                input,
                from_rate,
                to_rate,
            )[j] <= peak,
{
    let out = resampled(input, from_rate, to_rate);
    if from_rate != to_rate && input.len() > 0 {
        assert forall|j: int| 0 <= j < out.len() implies -peak <= #[trigger] out[j] <= peak by {
            lemma_pow2_values();
            lemma_len_fits(input.len(), from_rate, to_rate);
            lemma_position_range(j as nat, from_rate, to_rate);
            let pos = source_position(j as nat, from_rate, to_rate);
            let idx = floor_of(pos);
            lemma_floor_not_negative(pos);
            law_interpolation_stays_between(
                sample_at(input, idx) as int,
                sample_after(input, idx) as int,
                fraction_of(pos),
            );
        }
    }
}

/// The integer part of a position is not negative.
proof fn lemma_floor_not_negative(x: Dyadic)
    requires
        x.mant >= 0,
    ensures
        floor_of(x) >= 0,
{
    if x.exp >= 0 {
        let w = pow2(x.exp as nat) as int;
        assert(x.mant * w >= 0) by (nonlinear_arith)
            requires
                x.mant >= 0,
                w >= 0,
        ;
    } else {
        lemma_pow2_pos((-x.exp) as nat);
        vstd::arithmetic::div_mod::lemma_div_pos_is_pos(x.mant, pow2((-x.exp) as nat) as int);
    }
}

/// A conversion holds a constant: where all samples are the same, so are those
/// of the result.  A single sample is the simplest case.
pub proof fn law_resampling_holds_constant(input: Seq<i16>, from_rate: nat, to_rate: nat, value: i16)
    requires
        is_feasible(input.len(), from_rate, to_rate),
        forall|i: int| 0 <= i < input.len() ==> #[trigger] input[i] == value,
    ensures
        forall|j: int|
            0 <= j < resampled(input, from_rate, to_rate).len() ==> #[trigger] resampled(
                input,
                from_rate,
                to_rate,
            )[j] == value,
{
    let out = resampled(input, from_rate, to_rate);
    if from_rate != to_rate && input.len() > 0 {
        assert forall|j: int| 0 <= j < out.len() implies #[trigger] out[j] == value by {
            lemma_pow2_values();
            lemma_len_fits(input.len(), from_rate, to_rate);
            lemma_position_range(j as nat, from_rate, to_rate);
            law_resampling_stays_inside(input, from_rate, to_rate, j as nat);
            let pos = source_position(j as nat, from_rate, to_rate);
            law_interpolation_stays_between(value as int, value as int, fraction_of(pos));
        }
    }
}

/// The sum of the squares of `samples`.
pub open spec fn energy(samples: Seq<i16>) -> nat
    decreases samples.len(),
{
    if samples.len() == 0 {
        0
    } else {
        energy(samples.drop_last()) + (samples.last() * samples.last()) as nat
    }
}

/// The root mean square of `samples`, computed in double precision.
pub open spec fn rms(samples: Seq<i16>) -> Dyadic {
    square_root(
        quotient(rounded(energy(samples), 1, 53), rounded(samples.len(), 1, 53), 53),
        53,
    )
}

/// Samples in 20 ms.
pub open spec fn window_len(sample_rate: nat) -> nat {
    if sample_rate / 50 == 0 {
        1
    } else {
        sample_rate / 50
    }
}

/// Samples in 300 ms.
pub open spec fn padding_len(sample_rate: nat) -> nat {
    sample_rate / 1000 * 300
}

/// Where the window `i` ends.
pub open spec fn window_end(len: nat, window: nat, i: nat) -> nat {
    if (i + 1) * window <= len {
        (i + 1) * window
    } else {
        len
    }
}

/// The window `i` exists, and its root mean square exceeds the threshold.
pub open spec fn is_voiced(samples: Seq<i16>, window: nat, threshold: Double, i: nat) -> bool {
    &&& i * window < samples.len()
    &&& threshold.is_below(
        rms(
            samples.subrange(
                (i * window) as int,
                window_end(samples.len(), window, i) as int,
            ),
        ),
    )
}

/// `i` is the first voiced window.
pub open spec fn is_first_voiced(
    samples: Seq<i16>,
    window: nat,
    threshold: Double,
    i: nat,
) -> bool {
    &&& is_voiced(samples, window, threshold, i)
    &&& forall|j: nat| j < i ==> !is_voiced(samples, window, threshold, j)
}

/// `i` is the last voiced window.
pub open spec fn is_last_voiced(samples: Seq<i16>, window: nat, threshold: Double, i: nat) -> bool {
    &&& is_voiced(samples, window, threshold, i)
    &&& forall|j: nat| j > i ==> !is_voiced(samples, window, threshold, j)
}

/// Some window is voiced.
pub open spec fn has_voice(samples: Seq<i16>, window: nat, threshold: Double) -> bool {
    exists|i: nat| is_voiced(samples, window, threshold, i)
}

/// Where trimmed audio starts: the padding before the first voiced window.
pub open spec fn trim_start(samples: Seq<i16>, sample_rate: nat, threshold: Double) -> int {
    let window = window_len(sample_rate);
    let first = choose|i: nat| is_first_voiced(samples, window, threshold, i);
    let start = first * window - padding_len(sample_rate);
    if start < 0 {
        0
    } else {
        start
    }
}

/// Where trimmed audio ends: the padding after the last voiced window.
pub open spec fn trim_end(samples: Seq<i16>, sample_rate: nat, threshold: Double) -> int {
    let window = window_len(sample_rate);
    let last = choose|i: nat| is_last_voiced(samples, window, threshold, i);
    let end = window_end(samples.len(), window, last) + padding_len(sample_rate);
    if end > samples.len() {
        samples.len() as int
    } else {
        end as int
    }
}

/// `samples` without the silence at its two ends.
pub open spec fn trimmed(samples: Seq<i16>, sample_rate: nat, threshold: Double) -> Seq<i16> {
    if has_voice(samples, window_len(sample_rate), threshold) {
        samples.subrange(
            trim_start(samples, sample_rate, threshold),
            trim_end(samples, sample_rate, threshold),
        )
    } else {
        Seq::empty()
    }
}

/// The sum of the squares of `samples[start..end]`.
fn energy_of(samples: &[i16], start: usize, end: usize) -> (r: u64)
    requires
        start <= end <= samples@.len(),
        end - start < 0x1000_0000,
    ensures
        r == energy(samples@.subrange(start as int, end as int)),
        r <= (end - start) * 0x4000_0000,
{
    let mut total: u64 = 0;
    let mut i: usize = start;
    assert(samples@.subrange(start as int, start as int) =~= Seq::<i16>::empty());
    while i < end
        invariant
            start <= i <= end <= samples@.len(),
            end - start < 0x1000_0000,
            total == energy(samples@.subrange(start as int, i as int)),
            total <= (i - start) * 0x4000_0000,
        decreases end - i,
    {
        let s: i64 = samples[i] as i64;
        assert(0 <= s * s <= 0x4000_0000) by (nonlinear_arith)
            requires
                -32768 <= s <= 32767,
        ;
        proof {
            let next = samples@.subrange(start as int, i + 1);
            assert(next.drop_last() =~= samples@.subrange(start as int, i as int));
        }
        total = total + (s * s) as u64;
        i = i + 1;
    }
    total
}

/// Whether the root mean square of `samples[start..end]` exceeds the threshold.
fn window_voiced(samples: &[i16], start: usize, end: usize, threshold: Double) -> (r: bool)
    requires
        start < end <= samples@.len(),
        end - start < 0x1000_0000,
    ensures
        r == threshold.is_below(rms(samples@.subrange(start as int, end as int))),
{
    proof {
        lemma_pow2_values();
    }
    let total: u64 = energy_of(samples, start, end);
    let sum_sq: Magnitude = from_integer(total, DOUBLE);
    let count: Magnitude = from_integer((end - start) as u64, DOUBLE);
    let mean: Magnitude = divide(sum_sq, count, DOUBLE);
    if mean.mant == 0 {
        return threshold.below(mean);
    }
    proof {
        if sum_sq.mant > 0 {
            lemma_rounded_normal(sum_sq.mant as nat, count.mant as nat, 53);
        }
    }
    threshold.below(take_square_root(mean))
}

/// The first and the last voiced window are unique.
proof fn lemma_voiced_ends(
    samples: Seq<i16>,
    window: nat,
    threshold: Double,
    first: nat,
    last: nat,
)
    requires
        is_first_voiced(samples, window, threshold, first),
        is_last_voiced(samples, window, threshold, last),
    ensures
        first == choose|i: nat| is_first_voiced(samples, window, threshold, i),
        last == choose|i: nat| is_last_voiced(samples, window, threshold, i),
        has_voice(samples, window, threshold),
{
    let f = choose|i: nat| is_first_voiced(samples, window, threshold, i);
    let l = choose|i: nat| is_last_voiced(samples, window, threshold, i);
    assert(is_first_voiced(samples, window, threshold, f));
    assert(is_last_voiced(samples, window, threshold, l));
}

/// Trims leading and trailing silence, keeping 300 ms around what is left.
///
/// Only the outer edges are trimmed: a pause in the middle stays.
pub fn trim_silence(samples: &[i16], sample_rate: u32, threshold: Double) -> (out: Vec<i16>)
    ensures
        out@ == trimmed(samples@, sample_rate as nat, threshold),
{
    let window: usize = if sample_rate / 50 == 0 { 1 } else { (sample_rate / 50) as usize };
    let padding: usize = (sample_rate / 1000 * 300) as usize;
    let len: usize = samples.len();
    let mut first: Option<usize> = None;
    let mut last: Option<usize> = None;
    let ghost mut first_index: nat = 0;
    let ghost mut last_index: nat = 0;
    let ghost mut i: nat = 0;
    let mut start: usize = 0;
    while start < len
        invariant
            window == window_len(sample_rate as nat),
            len == samples@.len(),
            start == i * window || (start == len && i * window >= len),
            start <= len,
            first is Some <==> last is Some,
            first is None ==> forall|j: nat|
                j < i ==> !#[trigger] is_voiced(samples@, window as nat, threshold, j),
            first matches Some(s) ==> {
                &&& s == first_index * window
                &&& s <= start
                &&& is_first_voiced(samples@, window as nat, threshold, first_index)
            },
            last matches Some(e) ==> {
                &&& e == window_end(len as nat, window as nat, last_index)
                &&& e <= len
                &&& is_voiced(samples@, window as nat, threshold, last_index)
                &&& last_index < i
                &&& first matches Some(s) && s < e
                &&& forall|j: nat|
                    last_index < j < i ==> !#[trigger] is_voiced(samples@, window as nat, threshold, j)
            },
        decreases len - start,
    {
        let end: usize = if len - start < window { len } else { start + window };
        proof {
            assert((i + 1) * window == i * window + window) by (nonlinear_arith);
            assert(end == window_end(len as nat, window as nat, i));
        }
        if window_voiced(samples, start, end, threshold) {
            assert(is_voiced(samples@, window as nat, threshold, i));
            if first.is_none() {
                first = Some(start);
                proof {
                    first_index = i;
                }
            }
            last = Some(end);
            proof {
                last_index = i;
            }
        }
        start = end;
        proof {
            i = i + 1;
        }
    }
    let mut out: Vec<i16> = Vec::new();
    proof {
        assert forall|j: nat| j >= i implies !#[trigger] is_voiced(samples@, window as nat, threshold, j) by {
            assert(j * window >= i * window) by (nonlinear_arith)
                requires
                    j >= i,
            ;
        }
    }
    match (first, last) {
        (Some(s), Some(e)) => {
            proof {
                lemma_voiced_ends(samples@, window as nat, threshold, first_index, last_index);
            }
            let lo: usize = if s < padding { 0 } else { s - padding };
            let hi: usize = if len - e < padding { len } else { e + padding };
            out.extend_from_slice(&samples[lo..hi]);
            assert(out@ =~= samples@.subrange(lo as int, hi as int));
        },
        _ => {
            assert(out@ =~= Seq::<i16>::empty());
        },
    }
    out
}

/// The two ends of trimmed audio, in terms of its first and last voiced
/// window.
proof fn lemma_trim_ends(samples: Seq<i16>, sample_rate: nat, threshold: Double) -> (r: (nat, nat))
    requires
        has_voice(samples, window_len(sample_rate), threshold),
    ensures
        is_first_voiced(samples, window_len(sample_rate), threshold, r.0),
        is_last_voiced(samples, window_len(sample_rate), threshold, r.1),
        trim_start(samples, sample_rate, threshold) == (if r.0 * window_len(sample_rate) < padding_len(sample_rate) {
            0
        } else {
            r.0 * window_len(sample_rate) - padding_len(sample_rate)
        }),
        trim_end(samples, sample_rate, threshold) == (if window_end(
            samples.len(),
            window_len(sample_rate),
            r.1,
        ) + padding_len(sample_rate) > samples.len() {
            samples.len()
        } else {
            window_end(samples.len(), window_len(sample_rate), r.1) + padding_len(sample_rate)
        }),
{
    let window = window_len(sample_rate);
    let i = choose|i: nat| is_voiced(samples, window, threshold, i);
    let first = lemma_first_voiced(samples, window, threshold, i);
    let last = lemma_last_voiced(samples, window, threshold, i);
    lemma_voiced_ends(samples, window, threshold, first, last);
    (first, last)
}

proof fn lemma_first_voiced(samples: Seq<i16>, window: nat, threshold: Double, i: nat) -> (r: nat)
    requires
        is_voiced(samples, window, threshold, i),
    ensures
        is_first_voiced(samples, window, threshold, r),
        r <= i,
    decreases i,
{
    if exists|j: nat| j < i && is_voiced(samples, window, threshold, j) {
        let j = choose|j: nat| j < i && is_voiced(samples, window, threshold, j);
        lemma_first_voiced(samples, window, threshold, j)
    } else {
        i
    }
}

proof fn lemma_last_voiced(samples: Seq<i16>, window: nat, threshold: Double, i: nat) -> (r: nat)
    requires
        window > 0,
        is_voiced(samples, window, threshold, i),
    ensures
        is_last_voiced(samples, window, threshold, r),
        r >= i,
    decreases samples.len() - i,
{
    assert(i < samples.len()) by (nonlinear_arith)
        requires
            i * window < samples.len(),
            window > 0,
    ;
    if exists|j: nat| j > i && is_voiced(samples, window, threshold, j) {
        let j = choose|j: nat| j > i && is_voiced(samples, window, threshold, j);
        assert(j < samples.len()) by (nonlinear_arith)
            requires
                j * window < samples.len(),
                window > 0,
        ;
        lemma_last_voiced(samples, window, threshold, j)
    } else {
        i
    }
}

/// Trimming cuts only at the ends, and cuts no speech: what is left is one
/// stretch of the input that holds every voiced window, and where there is
/// none, nothing is left.
pub proof fn law_trimming_keeps_speech(samples: Seq<i16>, sample_rate: nat, threshold: Double)
    ensures
        ({
            let window = window_len(sample_rate);
            let (start, end) = (
                trim_start(samples, sample_rate, threshold),
                trim_end(samples, sample_rate, threshold),
            );
            if has_voice(samples, window, threshold) {
                &&& 0 <= start < end <= samples.len()
                &&& trimmed(samples, sample_rate, threshold) == samples.subrange(start, end)
                &&& forall|i: nat| #[trigger]
                    is_voiced(samples, window, threshold, i) ==> start <= i * window && window_end(
                        samples.len(),
                        window,
                        i,
                    ) <= end
            } else {
                trimmed(samples, sample_rate, threshold).len() == 0
            }
        }),
{
    let window = window_len(sample_rate);
    if has_voice(samples, window, threshold) {
        let (first, last) = lemma_trim_ends(samples, sample_rate, threshold);
        let (start, end) = (
            trim_start(samples, sample_rate, threshold),
            trim_end(samples, sample_rate, threshold),
        );
        assert forall|i: nat| #[trigger] is_voiced(samples, window, threshold, i) implies start <= i * window
            && window_end(samples.len(), window, i) <= end && start < end && end <= samples.len() by {
            lemma_windows_in_order(samples.len(), window, first, i);
            lemma_windows_in_order(samples.len(), window, i, last);
        }
        assert(is_voiced(samples, window, threshold, first));
    }
}

proof fn lemma_windows_in_order(len: nat, window: nat, i: nat, j: nat)
    requires
        i <= j,
        window > 0,
        j * window < len,
    ensures
        i * window <= j * window,
        window_end(len, window, i) <= window_end(len, window, j),
        j * window < window_end(len, window, j) <= len,
{
    assert(i * window <= j * window && (i + 1) * window <= (j + 1) * window) by (nonlinear_arith)
        requires
            i <= j,
    ;
    assert((j + 1) * window == j * window + window) by (nonlinear_arith);
}

/// Whether a window is voiced depends on what it holds alone, wherever in the
/// recording it lies.
pub proof fn law_window_is_judged_by_what_it_holds(
    samples: Seq<i16>,
    other: Seq<i16>,
    window: nat,
    threshold: Double,
    i: nat,
    j: nat,
)
    requires
        window > 0,
        (i + 1) * window <= samples.len(),
        (j + 1) * window <= other.len(),
        samples.subrange((i * window) as int, ((i + 1) * window) as int) == other.subrange(
            (j * window) as int,
            ((j + 1) * window) as int,
        ),
    ensures
        is_voiced(samples, window, threshold, i) <==> is_voiced(other, window, threshold, j),
{
    assert((i + 1) * window == i * window + window) by (nonlinear_arith);
    assert((j + 1) * window == j * window + window) by (nonlinear_arith);
}

/// What is left of a recording is what lies between its first and its last voiced
/// window of 20 ms, with 300 ms on either side as far as there are any.
pub proof fn law_trimming_leaves_300_ms_around_speech(
    samples: Seq<i16>,
    sample_rate: nat,
    threshold: Double,
    first: nat,
    last: nat,
)
    requires
        sample_rate >= 50,
        is_voiced(samples, sample_rate / 50, threshold, first),
        is_voiced(samples, sample_rate / 50, threshold, last),
        forall|i: nat| #[trigger] is_voiced(samples, sample_rate / 50, threshold, i) ==> first <= i <= last,
    ensures
        ({
            let window = sample_rate / 50;
            let padding = sample_rate / 1000 * 300;
            let start = first * window - padding;
            let end = (last + 1) * window + padding;
            trimmed(samples, sample_rate, threshold) == samples.subrange(
                if start < 0 {
                    0
                } else {
                    start
                },
                if end > samples.len() {
                    samples.len() as int
                } else {
                    end as int
                },
            )
        }),
{
    let window = sample_rate / 50;
    assert(window_len(sample_rate) == window);
    lemma_voiced_ends(samples, window, threshold, first, last);
}

/// A stretch that starts where a window does, and ends where one does or where
/// the samples do, has the windows of the samples.
proof fn lemma_shifted_window(samples: Seq<i16>, window: nat, threshold: Double, s: nat, hi: nat, e: nat, j: nat)
    requires
        window > 0,
        s * window <= hi <= samples.len(),
        hi == samples.len() || hi == e * window,
        j * window < hi - s * window,
    ensures
        ({
            let part = samples.subrange((s * window) as int, hi as int);
            &&& window_end(part.len(), window, j) + s * window == window_end(samples.len(), window, s + j)
            &&& is_voiced(part, window, threshold, j) <==> is_voiced(samples, window, threshold, s + j)
        }),
{
    let part = samples.subrange((s * window) as int, hi as int);
    assert((s + j) * window == s * window + j * window) by (nonlinear_arith);
    assert((s + j + 1) * window == s * window + (j + 1) * window) by (nonlinear_arith);
    if hi != samples.len() {
        assert((s + j + 1) * window <= hi) by (nonlinear_arith)
            requires
                hi == e * window,
                (s + j) * window < hi,
                window > 0,
        ;
    }
    lemma_windows_in_order(part.len(), window, j, j);
    assert(part.subrange((j * window) as int, window_end(part.len(), window, j) as int)
        =~= samples.subrange(
        ((s + j) * window) as int,
        window_end(samples.len(), window, s + j) as int,
    ));
}

/// Trimming what was trimmed changes nothing where the padding is a whole number
/// of windows, as it is at every rate that is a whole number of kilohertz.
pub proof fn law_trimming_twice_is_trimming_once(samples: Seq<i16>, sample_rate: nat, threshold: Double)
    requires
        sample_rate % 1000 == 0 || padding_len(sample_rate) % window_len(sample_rate) == 0,
    ensures
        trimmed(trimmed(samples, sample_rate, threshold), sample_rate, threshold) == trimmed(
            samples,
            sample_rate,
            threshold,
        ),
{
    let (w, padding) = (window_len(sample_rate) as int, padding_len(sample_rate) as int);
    if sample_rate % 1000 == 0 && sample_rate > 0 {
        assert(padding == 15 * w);
        vstd::arithmetic::div_mod::lemma_fundamental_div_mod_converse(padding, w, 15, 0);
    }
    vstd::arithmetic::div_mod::lemma_fundamental_div_mod(padding, w);
    vstd::arithmetic::div_mod::lemma_div_pos_is_pos(padding, w);
    let c = (padding / w) as nat;
    assert(padding == c * w) by (nonlinear_arith)
        requires
            padding == w * c,
    ;
    lemma_trimmed_twice(samples, sample_rate, threshold, c);
}

/// A stretch that holds the first and the last voiced window has them, counted
/// from where it starts.
proof fn lemma_part_voiced(
    samples: Seq<i16>,
    window: nat,
    threshold: Double,
    first: nat,
    last: nat,
    s: nat,
    hi: nat,
    e: nat,
)
    requires
        window > 0,
        is_first_voiced(samples, window, threshold, first),
        is_last_voiced(samples, window, threshold, last),
        s <= first <= last,
        last * window < hi <= samples.len(),
        hi == samples.len() || hi == e * window,
    ensures
        ({
            let part = samples.subrange((s * window) as int, hi as int);
            &&& is_first_voiced(part, window, threshold, (first - s) as nat)
            &&& is_last_voiced(part, window, threshold, (last - s) as nat)
            &&& window_end(part.len(), window, (last - s) as nat) + s * window == window_end(
                samples.len(),
                window,
                last,
            )
        }),
{
    let (f, l) = ((first - s) as nat, (last - s) as nat);
    lemma_windows_in_order(samples.len(), window, s, last);
    lemma_windows_in_order(samples.len(), window, first, last);
    let part = samples.subrange((s * window) as int, hi as int);
    assert(f * window == first * window - s * window) by (nonlinear_arith)
        requires
            f == first - s,
    ;
    assert(l * window == last * window - s * window) by (nonlinear_arith)
        requires
            l == last - s,
    ;
    assert forall|j: nat| j * window < part.len() implies (#[trigger] is_voiced(part, window, threshold, j)
        <==> is_voiced(samples, window, threshold, s + j)) by {
        lemma_shifted_window(samples, window, threshold, s, hi, e, j);
    }
    lemma_shifted_window(samples, window, threshold, s, hi, e, l);
    assert(is_voiced(part, window, threshold, f));
    assert(is_voiced(part, window, threshold, l));
    assert forall|j: nat| j < f implies !is_voiced(part, window, threshold, j) by {
        assert(!is_voiced(samples, window, threshold, s + j));
    }
    assert forall|j: nat| j > l implies !is_voiced(part, window, threshold, j) by {
        assert(!is_voiced(samples, window, threshold, s + j));
    }
}

/// With a padding of `c` windows, trimming what was trimmed changes nothing.
proof fn lemma_trimmed_twice(samples: Seq<i16>, sample_rate: nat, threshold: Double, c: nat)
    requires
        padding_len(sample_rate) == c * window_len(sample_rate),
    ensures
        trimmed(trimmed(samples, sample_rate, threshold), sample_rate, threshold) == trimmed(
            samples,
            sample_rate,
            threshold,
        ),
{
    let w = window_len(sample_rate);
    let part = trimmed(samples, sample_rate, threshold);
    law_trimming_keeps_speech(samples, sample_rate, threshold);
    if has_voice(samples, w, threshold) {
        let (first, last) = lemma_trim_ends(samples, sample_rate, threshold);
        let end = trim_end(samples, sample_rate, threshold) as nat;
        let s: nat = if first < c { 0 } else { (first - c) as nat };
        let e = last + 1 + c;
        assert(first * w < c * w <==> first < c) by (nonlinear_arith)
            requires
                w > 0,
        ;
        assert((first - c) * w == first * w - c * w) by (nonlinear_arith);
        assert(e * w == (last + 1) * w + c * w) by (nonlinear_arith)
            requires
                e == last + 1 + c,
        ;
        assert(0 * w == 0);
        assert(trim_start(samples, sample_rate, threshold) == s * w);
        assert(last >= first);
        lemma_windows_in_order(samples.len(), w, first, last);
        lemma_part_voiced(samples, w, threshold, first, last, s, end, e);
        let (f, l) = ((first - s) as nat, (last - s) as nat);
        lemma_voiced_ends(part, w, threshold, f, l);
        assert(f * w <= c * w) by (nonlinear_arith)
            requires
                f <= c,
        ;
        assert(trim_start(part, sample_rate, threshold) == 0);
        assert(trim_end(part, sample_rate, threshold) == part.len());
        assert(part.subrange(0, part.len() as int) =~= part);
    } else {
        assert(part =~= Seq::<i16>::empty());
        assert forall|i: nat| !is_voiced(part, w, threshold, i) by {
            assert(i * w >= 0);
        }
    }
}

/// A higher threshold trims at least as much: what it leaves lies inside what a
/// lower one leaves.
pub proof fn law_higher_threshold_trims_more(samples: Seq<i16>, sample_rate: nat, low: Double, high: Double)
    requires
        !low.is_nan(),
        high.is_nan() || low.is_at_most(high),
    ensures
        ({
            let window = window_len(sample_rate);
            has_voice(samples, window, high) ==> {
                &&& has_voice(samples, window, low)
                &&& trim_start(samples, sample_rate, low) <= trim_start(samples, sample_rate, high)
                &&& trim_end(samples, sample_rate, high) <= trim_end(samples, sample_rate, low)
            }
        }),
        trimmed(samples, sample_rate, high).len() <= trimmed(samples, sample_rate, low).len(),
{
    let window = window_len(sample_rate);
    law_trimming_keeps_speech(samples, sample_rate, low);
    law_trimming_keeps_speech(samples, sample_rate, high);
    if has_voice(samples, window, high) {
        let (first, last) = lemma_trim_ends(samples, sample_rate, high);
        assert forall|i: nat| is_voiced(samples, window, high, i) implies #[trigger] is_voiced(
            samples,
            window,
            low,
            i,
        ) by {
            let level = rms(
                samples.subrange((i * window) as int, window_end(samples.len(), window, i) as int),
            );
            if is_greater(level, high.magnitude()) && !is_greater(low.magnitude(), high.magnitude()) {
                lemma_greater_than_less(level, high.magnitude(), low.magnitude());
            }
        }
        assert(is_voiced(samples, window, low, first));
        assert(is_voiced(samples, window, low, last));
        let (low_first, low_last) = lemma_trim_ends(samples, sample_rate, low);
        lemma_windows_in_order(samples.len(), window, low_first, first);
        lemma_windows_in_order(samples.len(), window, last, low_last);
    }
}

/// The number of channels of a device: at least one.
pub open spec fn channel_count(channels: u16) -> nat {
    if channels == 0 {
        1
    } else {
        channels as nat
    }
}

/// The number of frames of `width` samples, the last of which may be short.
pub open spec fn frame_count(len: nat, width: nat) -> nat {
    (len + width - 1) as nat / width
}

/// Interleaved single-precision audio mixed down to mono PCM: the mean of each
/// frame.
pub open spec fn downmixed(data: Seq<Single>, width: nat) -> Seq<i16> {
    Seq::new(
        frame_count(data.len(), width),
        |i: int|
            pcm_sample(
                mean(data.subrange(i * width, window_end(data.len(), width, i as nat) as int)),
            ) as i16,
    )
}

/// A device has the channels that it says it has; one that says none has one.
pub proof fn law_device_has_its_channels(channels: u16)
    ensures
        channels > 0 ==> channel_count(channels) == channels,
        channel_count(0) == 1,
{
}

/// The frames up to `start` are those that start before it.
pub proof fn lemma_frames(len: nat, width: nat, i: nat)
    requires
        width > 0,
    ensures
        i * width < len ==> i < frame_count(len, width),
        i * width >= len ==> i >= frame_count(len, width),
{
    let n = (len + width - 1) as int;
    let w = width as int;
    let q = n / w;
    vstd::arithmetic::div_mod::lemma_fundamental_div_mod(n, w);
    assert(i * w < len ==> i < q) by (nonlinear_arith)
        requires
            n == w * q + n % w,
            0 <= n % w < w,
            n == len + w - 1,
            w > 0,
    ;
    assert(i * w >= len ==> i >= q) by (nonlinear_arith)
        requires
            n == w * q + n % w,
            0 <= n % w < w,
            n == len + w - 1,
            w > 0,
    ;
}

/// The frames of a recording are the frames of its first part and then those of
/// the rest, where the first part is whole frames.
proof fn lemma_frames_in_parts(len: nat, rest: nat, width: nat, n: nat, i: nat)
    requires
        width > 0,
        len == n * width,
    ensures
        frame_count(len, width) == n,
        frame_count(len + rest, width) == n + frame_count(rest, width),
        i < n ==> (i + 1) * width <= len && window_end(len, width, i) == (i + 1) * width && window_end(
            len + rest,
            width,
            i,
        ) == (i + 1) * width,
        (n + i) * width == len + i * width,
        window_end(len + rest, width, n + i) == len + window_end(rest, width, i),
{
    let (w, k) = (width as int, (rest + width - 1) as int);
    vstd::arithmetic::div_mod::lemma_fundamental_div_mod_converse(len + w - 1, w, n as int, w - 1);
    vstd::arithmetic::div_mod::lemma_fundamental_div_mod(k, w);
    assert(len + rest + w - 1 == (n + k / w) * w + k % w) by (nonlinear_arith)
        requires
            len == n * w,
            k == rest + w - 1,
            k == w * (k / w) + k % w,
    ;
    vstd::arithmetic::div_mod::lemma_fundamental_div_mod_converse(len + rest + w - 1, w, n + k / w, k % w);
    assert(i < n ==> (i + 1) * width <= len) by (nonlinear_arith)
        requires
            len == n * width,
    ;
    assert((n + i) * width == n * width + i * width) by (nonlinear_arith);
    assert((n + i + 1) * width == n * width + (i + 1) * width) by (nonlinear_arith);
}

/// Each frame is mixed on its own: what the microphone delivers in two parts is
/// mixed as it would be in one, as long as no frame is torn apart.
pub proof fn law_frames_are_mixed_one_by_one(data: Seq<Single>, rest: Seq<Single>, width: nat, n: nat)
    requires
        width > 0,
        data.len() == n * width,
    ensures
        downmixed(data + rest, width) == downmixed(data, width) + downmixed(rest, width),
        downmixed(data, width).len() == n,
{
    let whole = data + rest;
    let (a, b, c) = (downmixed(whole, width), downmixed(data, width), downmixed(rest, width));
    lemma_frames_in_parts(data.len(), rest.len(), width, n, 0);
    assert forall|i: int| 0 <= i < a.len() implies #[trigger] a[i] == (b + c)[i] by {
        if i < n {
            lemma_frames_in_parts(data.len(), rest.len(), width, n, i as nat);
            assert(0 <= i * width <= (i + 1) * width) by (nonlinear_arith)
                requires
                    i >= 0,
            ;
            assert(whole.subrange(i * width, (i + 1) * width) =~= data.subrange(i * width, (i + 1) * width));
        } else {
            let j = (i - n) as nat;
            lemma_frames_in_parts(data.len(), rest.len(), width, n, j);
            lemma_frames(rest.len(), width, j);
            let end = window_end(rest.len(), width, j) as int;
            assert(j * width <= end) by {
                assert((j + 1) * width == j * width + width) by (nonlinear_arith);
            }
            assert(j * width >= 0) by (nonlinear_arith);
            assert(whole.subrange(i * width, data.len() + end) =~= rest.subrange((j * width) as int, end));
        }
    }
    assert(a =~= b + c);
}

/// Mixes interleaved single-precision audio down to mono PCM.
pub fn downmix_to_mono_i16(data: &[Single], channels: u16) -> (out: Vec<i16>)
    ensures
        out@ == downmixed(data@, channel_count(channels)),
{
    let width: usize = if channels == 0 { 1 } else { channels as usize };
    let len: usize = data.len();
    let mut out: Vec<i16> = Vec::new();
    let mut start: usize = 0;
    let ghost mut i: nat = 0;
    while start < len
        invariant
            width == channel_count(channels),
            len == data@.len(),
            start == i * width || (start == len && i * width >= len),
            start <= len,
            out@.len() == i,
            forall|j: int|
                0 <= j < i ==> #[trigger] out@[j] == pcm_sample(
                    mean(data@.subrange(j * width, window_end(len as nat, width as nat, j as nat) as int)),
                ),
            i <= frame_count(len as nat, width as nat),
        decreases len - start,
    {
        let end: usize = if len - start < width { len } else { start + width };
        proof {
            assert((i + 1) * width == i * width + width) by (nonlinear_arith);
            assert(end == window_end(len as nat, width as nat, i));
            lemma_frames(len as nat, width as nat, i);
        }
        out.push(mix(data, start, end));
        start = end;
        proof {
            i = i + 1;
        }
    }
    proof {
        lemma_frames(len as nat, width as nat, i);
        assert(out@ =~= downmixed(data@, width as nat));
    }
    out
}

} // verus!
