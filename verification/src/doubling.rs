//! Conversions to twice a sample rate and back.
//!
//! The ratio of the two rates is a power of two, so nothing is rounded on the
//! way: every other sample of the result is a sample of the input.

use crate::audio::{
    lemma_position, lemma_pow2_values, lemma_stretched, rate_ratio, resampled, resampled_len, resampled_sample,
    sample_after, sample_at, source_position,
};
use crate::linearity::lemma_interpolation_at_sample;
use crate::rounding::{
    floor_of, fraction_of, lemma_rounded_common_factor, lemma_rounded_exact, lemma_rounded_normal,
    lemma_rounded_over_pow2, round_half_away, rounded, Dyadic,
};
use vstd::arithmetic::power2::{
    lemma2_to64, lemma_pow2_adds, lemma_pow2_pos, lemma_pow2_strictly_increases, pow2,
};
use vstd::prelude::*;

verus! {

/// An integer in double precision has itself as its integer part and as the
/// nearest integer, and no fraction.
proof fn lemma_whole(n: nat)
    requires
        n < pow2(53),
    ensures
        floor_of(rounded(n, 1, 53)) == n,
        fraction_of(rounded(n, 1, 53)).mant == 0,
        round_half_away(rounded(n, 1, 53)) == n,
{
    lemma_pow2_values();
    let x = rounded(n, 1, 53);
    if n == 0 {
        assert(0 * pow2(0) == 0);
    } else {
        lemma_rounded_exact(n, 53);
        let w = pow2((-x.exp) as nat) as int;
        lemma_pow2_pos((-x.exp) as nat);
        if x.exp == 0 {
            assert(n * 1 == n);
        } else {
            vstd::arithmetic::div_mod::lemma_fundamental_div_mod_converse(x.mant, w, n as int, 0);
            assert(2 * x.mant + w == n * (2 * w) + w) by (nonlinear_arith)
                requires
                    x.mant == n * w,
            ;
            vstd::arithmetic::div_mod::lemma_fundamental_div_mod_converse(2 * x.mant + w, 2 * w, n as int, w);
        }
    }
}

/// The ratio of a rate to its double, and of the double to the rate.
proof fn lemma_ratio(rate: nat)
    requires
        rate > 0,
    ensures
        rate_ratio(rate, 2 * rate) == (Dyadic { mant: pow2(52) as int, exp: -53 }),
        rate_ratio(2 * rate, rate) == (Dyadic { mant: pow2(52) as int, exp: -51 }),
{
    lemma_pow2_values();
    lemma2_to64();
    lemma_rounded_common_factor(1, 2, 53, rate);
    lemma_rounded_common_factor(2, 1, 53, rate);
    lemma_rounded_over_pow2(1, 53, 1);
    lemma_power_exp(1, 0);
    lemma_power_exp(2, 1);
}

/// A power of two in double precision.
proof fn lemma_power_exp(n: nat, t: nat)
    requires
        n == pow2(t),
        t <= 52,
    ensures
        rounded(n, 1, 53) == (Dyadic { mant: pow2(52) as int, exp: t - 52 }),
{
    lemma_pow2_pos(t);
    if t < 52 {
        lemma_pow2_strictly_increases(t, 52);
    }
    lemma_pow2_values();
    lemma_rounded_exact(n, 53);
    lemma_rounded_normal(n, 1, 53);
    let k = (-rounded(n, 1, 53).exp) as nat;
    lemma_pow2_adds(t, k);
    if t + k < 52 {
        lemma_pow2_strictly_increases(t + k, 52);
    }
    if t + k > 52 && t + k != 53 {
        lemma_pow2_strictly_increases(53, t + k);
    }
}

/// How long the two conversions make their input.
proof fn lemma_lengths(len: nat, rate: nat)
    requires
        0 < rate,
        2 * rate <= u32::MAX,
        0 < len,
        2 * len < pow2(53),
        2 * len <= usize::MAX,
    ensures
        resampled_len(len, rate, 2 * rate) == 2 * len,
        resampled_len(2 * len, 2 * rate, rate) == len,
{
    lemma_pow2_values();
    lemma_ratio(rate);
    lemma_stretched(len, rate, 2 * rate);
    lemma_stretched(2 * len, 2 * rate, rate);
    lemma_pow2_adds(1, 52);
    lemma_pow2_adds(1, 51);
    lemma2_to64();
    let (a, b) = (pow2(52), pow2(51));
    assert(len * pow2(53) == (2 * len) * a) by (nonlinear_arith)
        requires
            pow2(53) == 2 * a,
    ;
    assert((2 * len) * b == len * a) by (nonlinear_arith)
        requires
            a == 2 * b,
    ;
    assert(1 * a == a);
    lemma_rounded_common_factor(2 * len, 1, 53, a);
    lemma_rounded_common_factor(len, 1, 53, a);
    lemma_whole(2 * len);
    lemma_whole(len);
}

/// Where the even samples of the doubled audio lie in the input, and where the
/// samples of the halved audio do.
proof fn lemma_places(i: nat, rate: nat)
    requires
        0 < rate,
        2 * rate <= u32::MAX,
        2 * i < pow2(53),
    ensures
        source_position(2 * i, rate, 2 * rate) == rounded(i, 1, 53),
        source_position(i, 2 * rate, rate) == rounded(2 * i, 1, 53),
{
    lemma_pow2_values();
    lemma_ratio(rate);
    lemma_position(2 * i, rate, 2 * rate);
    lemma_position(i, 2 * rate, rate);
    lemma_pow2_adds(1, 52);
    lemma_pow2_adds(1, 51);
    lemma2_to64();
    let (a, b, c) = (pow2(52), pow2(51), pow2(53));
    assert((2 * i) * a == i * c) by (nonlinear_arith)
        requires
            c == 2 * a,
    ;
    assert(i * a == (2 * i) * b) by (nonlinear_arith)
        requires
            a == 2 * b,
    ;
    assert(1 * b == b && 1 * c == c);
    lemma_rounded_common_factor(i, 1, 53, c);
    lemma_rounded_common_factor(2 * i, 1, 53, b);
}

/// A sample whose place in the input is the sample `n` is that sample.
proof fn lemma_sample_kept(input: Seq<i16>, from_rate: nat, to_rate: nat, i: nat, n: nat)
    requires
        n < input.len(),
        n < pow2(53),
        source_position(i, from_rate, to_rate) == rounded(n, 1, 53),
    ensures
        resampled_sample(input, from_rate, to_rate, i) == input[n as int],
{
    lemma_whole(n);
    let x = rounded(n, 1, 53);
    lemma_interpolation_at_sample(
        sample_at(input, n as int) as int,
        sample_after(input, n as int) as int,
        fraction_of(x),
    );
}

/// A conversion to twice the rate keeps every sample, with one between each
/// two, and the conversion back undoes it.
///
/// The result has to fit in memory, and to be short of `2^53` samples, up to
/// which double precision counts.
pub proof fn law_doubling_is_undone(input: Seq<i16>, rate: nat)
    requires
        0 < rate,
        2 * rate <= u32::MAX,
        2 * input.len() < pow2(53),
        2 * input.len() <= usize::MAX,
    ensures
        ({
            let up = resampled(input, rate, 2 * rate);
            &&& up.len() == 2 * input.len()
            &&& forall|i: int| 0 <= i < input.len() ==> up[2 * i] == #[trigger] input[i]
            &&& resampled(up, 2 * rate, rate) == input
        }),
{
    if input.len() > 0 {
        let up = resampled(input, rate, 2 * rate);
        let back = resampled(up, 2 * rate, rate);
        lemma_lengths(input.len(), rate);
        assert forall|i: int| 0 <= i < input.len() implies up[2 * i] == #[trigger] input[i] by {
            lemma_places(i as nat, rate);
            lemma_sample_kept(input, rate, 2 * rate, (2 * i) as nat, i as nat);
        }
        assert forall|i: int| 0 <= i < input.len() implies #[trigger] back[i] == input[i] by {
            lemma_places(i as nat, rate);
            lemma_sample_kept(up, 2 * rate, rate, i as nat, (2 * i) as nat);
        }
        assert(back =~= input);
    }
}

} // verus!
