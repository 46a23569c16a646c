//! What counts as speech.
//!
//! A window is voiced where its root mean square, computed in double
//! precision, exceeds the threshold.  Here that is compared with the exact sum
//! of the squares.

use crate::audio::{energy, is_voiced, lemma_pow2_values, rms, window_end};
use crate::rounding::{
    at_least, at_most, integer, is_greater, is_nearest_root, lemma_greater_than_less, lemma_rounded_at_least,
    lemma_rounded_at_most, lemma_rounded_common_factor, lemma_rounded_exact, lemma_rounded_exp,
    lemma_rounded_normal, lemma_rounded_shift, nearest_root, quotient, rounded, scaled_num, square_root, Double,
    Dyadic,
};
use vstd::arithmetic::power2::{lemma_pow2_adds, lemma_pow2_pos, pow2};
use vstd::prelude::*;

verus! {

/// The exact sum of the squares of some samples.
pub open spec fn exact_energy(samples: Seq<i16>) -> int {
    samples.fold_left(0int, |sum: int, s: i16| sum + s * s)
}

proof fn lemma_exact_energy(samples: Seq<i16>)
    ensures
        energy(samples) == exact_energy(samples),
        energy(samples) <= samples.len() * 0x4000_0000,
    decreases samples.len(),
{
    if samples.len() > 0 {
        lemma_exact_energy(samples.drop_last());
        let s = samples.last() as int;
        assert(0 <= s * s <= 0x4000_0000) by (nonlinear_arith)
            requires
                -32768 <= s <= 32767,
        ;
    }
}

/// Every positive number has a nearest root.
proof fn lemma_nearest_root_exists(n: nat) -> (q: nat)
    requires
        n > 0,
    ensures
        is_nearest_root(n, q),
    decreases n,
{
    if n == 1 {
        assert(1 * 1 == 1);
        1
    } else {
        let q = lemma_nearest_root_exists((n - 1) as nat);
        if n <= q * q + q {
            q
        } else {
            assert((q + 1) * (q + 1) == q * q + 2 * q + 1) by (nonlinear_arith);
            q + 1
        }
    }
}

/// A square root in double precision does not cross an integer.
proof fn lemma_square_root_bounds(x: Dyadic, c: nat)
    requires
        pow2(52) <= x.mant < pow2(53),
        x.exp <= 0,
    ensures
        at_least(x, (c * c) as int) ==> at_least(square_root(x, 53), c as int),
        at_most(x, (c * c) as int) ==> at_most(square_root(x, 53), c as int),
        square_root(x, 53).exp < 0,
{
    lemma_pow2_values();
    let f = (x.exp + 52) / 2 - 52;
    let (j, k, s) = ((-x.exp) as nat, (-f) as nat, (x.exp - 2 * f) as nat);
    let m = x.mant as nat;
    let n = scaled_num(m, 2 * f - x.exp);
    assert(n == m * pow2(s));
    lemma_pow2_pos(s);
    assert(n > 0) by (nonlinear_arith)
        requires
            n == m * pow2(s),
            m > 0,
            pow2(s) > 0,
    ;
    let found = lemma_nearest_root_exists(n);
    let q = nearest_root(n);
    assert(is_nearest_root(n, q));
    let (u, v, w) = (pow2(k), pow2(j), pow2(s));
    lemma_pow2_adds(j, s);
    lemma_pow2_adds(k, k);
    assert(v * w == u * u);
    let d = c * u;
    assert((c * c * v) * w == d * d) by (nonlinear_arith)
        requires
            v * w == u * u,
            d == c * u,
    ;
    lemma_pow2_pos(k);
    if x.exp == 0 {
        assert(x.mant * v == m && c * c * v == c * c) by (nonlinear_arith)
            requires
                v == 1,
                m == x.mant,
        ;
    }
    if at_least(x, (c * c) as int) {
        assert(m >= c * c * v);
        assert(n >= d * d) by (nonlinear_arith)
            requires
                m >= c * c * v,
                n == m * w,
                (c * c * v) * w == d * d,
        ;
        assert(q >= d) by (nonlinear_arith)
            requires
                n <= q * q + q,
                n >= d * d,
        ;
    }
    if at_most(x, (c * c) as int) {
        assert(m <= c * c * v);
        assert(n <= d * d) by (nonlinear_arith)
            requires
                m <= c * c * v,
                n == m * w,
                (c * c * v) * w == d * d,
        ;
        assert(q <= d) by (nonlinear_arith)
            requires
                q * q < n + q,
                n <= d * d,
        ;
    }
    if q == pow2(53) {
        let h = (k - 1) as nat;
        lemma_pow2_adds(1, h);
        vstd::arithmetic::power2::lemma2_to64();
        assert(d == 2 * (c * pow2(h))) by (nonlinear_arith)
            requires
                d == c * u,
                u == 2 * pow2(h),
        ;
    }
}

/// The mean of the squares in double precision is one rounded quotient.
proof fn lemma_mean_square(total: nat, len: nat)
    requires
        0 < total < pow2(53),
        0 < len < pow2(53),
    ensures
        quotient(rounded(total, 1, 53), rounded(len, 1, 53), 53) == rounded(total, len, 53),
{
    lemma_pow2_values();
    lemma_rounded_exact(total, 53);
    lemma_rounded_exact(len, 53);
    let (x, y) = (rounded(total, 1, 53), rounded(len, 1, 53));
    let (a, b) = ((-x.exp) as nat, (-y.exp) as nat);
    lemma_pow2_pos(b);
    let d = len * pow2(b);
    assert(d > 0) by (nonlinear_arith)
        requires
            d == len * pow2(b),
            len > 0,
            pow2(b) > 0,
    ;
    lemma_rounded_shift(total, d, 53, a);
    lemma_rounded_shift(total, d, 53, b);
    lemma_rounded_common_factor(total, len, 53, pow2(b));
    lemma_rounded_normal(total, d, 53);
    lemma_rounded_normal(total, len, 53);
}

/// The loudness in double precision does not cross an integer.
proof fn lemma_rms_bounds(samples: Seq<i16>, c: nat)
    requires
        0 < samples.len() <= 0x40_0000,
        c <= 32768,
    ensures
        c * c * samples.len() <= exact_energy(samples) ==> !is_greater(integer(c as int), rms(samples)),
        exact_energy(samples) <= c * c * samples.len() ==> !is_greater(rms(samples), integer(c as int)),
{
    lemma_pow2_values();
    lemma_exact_energy(samples);
    let (total, len) = (energy(samples), samples.len());
    assert(c * c <= 0x4000_0000) by (nonlinear_arith)
        requires
            c <= 32768,
    ;
    if total == 0 {
        assert(rms(samples) == integer(0));
        assert(c > 0 ==> c * c * len > 0) by (nonlinear_arith)
            requires
                len > 0,
        ;
        assert(0 * pow2(0) == 0);
        assert(c * pow2(0) == c);
    } else {
        lemma_mean_square(total, len);
        let x = rounded(total, len, 53);
        lemma_rounded_normal(total, len, 53);
        // The mean is at most 2^30, so that its exponent is negative.
        lemma_pow2_adds(22, 31);
        vstd::arithmetic::power2::lemma2_to64();
        vstd::arithmetic::power2::lemma2_to64_rest();
        assert(total < len * pow2(31)) by (nonlinear_arith)
            requires
                total <= len * 0x4000_0000,
                pow2(31) == 0x8000_0000,
                len > 0,
        ;
        lemma_rounded_exp(total, len, 53, 31);
        lemma_square_root_bounds(x, c);
        if c * c * len <= total {
            lemma_rounded_at_least(total, len, 53, c * c);
        }
        if total <= c * c * len {
            lemma_rounded_at_most(total, len, 53, c * c);
        }
    }
}

/// A window is voiced by its loudness alone: where the sum of its squares is at
/// least that of a steady sound which is louder than the threshold, and not
/// where it is at most that of one which is not.
pub proof fn law_window_is_voiced_by_its_loudness(
    samples: Seq<i16>,
    window: nat,
    threshold: Double,
    i: nat,
    loudness: nat,
)
    requires
        0 < window <= 0x40_0000,
        i * window < samples.len(),
        !threshold.is_nan(),
        !threshold.is_infinite(),
        !threshold.is_below_zero(),
        loudness <= 32768,
    ensures
        ({
            let part = samples.subrange((i * window) as int, window_end(samples.len(), window, i) as int);
            let steady = loudness * loudness * part.len();
            &&& is_greater(integer(loudness as int), threshold.magnitude()) && exact_energy(part) >= steady
                ==> is_voiced(samples, window, threshold, i)
            &&& !is_greater(integer(loudness as int), threshold.magnitude()) && exact_energy(part) <= steady
                ==> !is_voiced(samples, window, threshold, i)
        }),
{
    let part = samples.subrange((i * window) as int, window_end(samples.len(), window, i) as int);
    assert((i + 1) * window == i * window + window && i * window >= 0) by (nonlinear_arith);
    lemma_rms_bounds(part, loudness);
    let (level, limit, c) = (rms(part), threshold.magnitude(), integer(loudness as int));
    if is_greater(c, limit) && !is_greater(level, limit) {
        lemma_greater_than_less(c, limit, level);
    }
    if !is_greater(c, limit) && is_greater(level, limit) {
        lemma_greater_than_less(level, limit, c);
    }
}

/// Everything exceeds a threshold below zero, and nothing exceeds one that is
/// infinite or no number.
pub proof fn law_odd_thresholds_take_all_or_nothing(
    samples: Seq<i16>,
    window: nat,
    threshold: Double,
    i: nat,
)
    requires
        i * window < samples.len(),
    ensures
        threshold.is_nan() ==> !is_voiced(samples, window, threshold, i),
        threshold.is_infinite() ==> (is_voiced(samples, window, threshold, i) <==> threshold.is_negative()),
        !threshold.is_nan() && !threshold.is_infinite() && threshold.is_below_zero() ==> is_voiced(
            samples,
            window,
            threshold,
            i,
        ),
{
}

} // verus!
