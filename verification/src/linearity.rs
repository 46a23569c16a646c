//! Sample-rate conversion is linear interpolation.
//!
//! [`resampled`] says what a conversion computes, rounding by rounding.  Here
//! it is compared with the line that joins the samples.

use crate::audio::{
    interpolated, is_feasible, law_interpolation_stays_between, law_resampling_never_grows_peak,
    law_resampling_stays_inside, lemma_half_away_negated, lemma_integer_kept, lemma_position,
    lemma_position_range, lemma_pow2_values, lemma_ratio_close, lemma_ratio_range, lemma_resampled_len,
    rate_ratio, resampled, resampled_len, sample_after, sample_at, source_position,
};
use crate::rounding::{
    floor_of, fraction_of, integer, lemma_integer_close, lemma_rounded_at_most, lemma_rounded_close,
    lemma_rounded_normal, lemma_rounded_over_pow2, product, round_at, round_half_away, rounded, sum, Dyadic,
};
use vstd::arithmetic::power2::{
    lemma2_to64_rest, lemma_pow2_pos, lemma_pow2_strictly_increases, pow2,
};
use vstd::prelude::*;

verus! {

/// Interpolation in double precision, rounded to an integer, is off the exact
/// value by at most 41/64.
proof fn lemma_interpolation_close(a: int, b: int, frac: Dyadic)
    requires
        -32768 <= a <= 32767,
        -32768 <= b <= 32767,
        frac.exp < 0,
        0 <= frac.mant < pow2((-frac.exp) as nat),
        frac.mant < pow2(53),
    ensures
        ({
            let w = pow2((-frac.exp) as nat) as int;
            let exact = a * w + (b - a) * frac.mant;
            -41 * w <= 64 * (interpolated(a, b, frac) * w - exact) <= 41 * w
        }),
{
    lemma_pow2_values();
    let diff = b - a;
    let up = if diff < 0 { (-diff) as nat } else { diff as nat };
    let n = up * frac.mant as nat;
    let k = (-frac.exp) as nat;
    let w = pow2(k) as int;
    lemma_pow2_pos(k);
    let exact = a * w + diff * frac.mant;
    let o = interpolated(a, b, frac);
    assert(diff * frac.mant == if diff < 0 { -(n as int) } else { n as int }) by (nonlinear_arith)
        requires
            up == (if diff < 0 { -diff } else { diff }),
            n == up * frac.mant,
    ;
    if n == 0 {
        assert(product(integer(diff), frac, 53) == integer(0));
        assert(sum(integer(a), integer(0), 53) == round_at(a * 1 + 0 * 1, 0, 53));
        lemma_integer_kept(a);
        assert(o * w - exact == 0);
    } else {
        lemma_rounded_over_pow2(n, 53, k);
        let mag = rounded(n, pow2(k), 53);
        assert(n <= up * w) by (nonlinear_arith)
            requires
                n == up * frac.mant,
                frac.mant <= w,
                up >= 0,
        ;
        lemma_rounded_at_most(n, pow2(k), 53, up);
        lemma_rounded_normal(n, pow2(k), 53);
        lemma_rounded_close(n, pow2(k), 53);
        if mag.exp >= 0 {
            lemma_pow2_pos(mag.exp as nat);
            assert(mag.mant * pow2(mag.exp as nat) >= mag.mant) by (nonlinear_arith)
                requires
                    pow2(mag.exp as nat) >= 1,
                    mag.mant >= 0,
            ;
            assert(false);
        }
        let u = pow2((-mag.exp) as nat) as int;
        lemma_pow2_pos((-mag.exp) as nat);
        let step = if diff < 0 { -mag.mant } else { mag.mant };
        let s = a * u + step;
        assert(step * 1 == step);
        assert(product(integer(diff), frac, 53) == (Dyadic { mant: step, exp: mag.exp }));
        assert(sum(integer(a), Dyadic { mant: step, exp: mag.exp }, 53) == round_at(s, mag.exp, 53));
        assert(-(up as int) * u <= step && step <= up * u) by (nonlinear_arith)
            requires
                step == (if diff < 0 { -mag.mant } else { mag.mant }),
                0 <= mag.mant <= up * u,
        ;
        lemma_round_close(s, (-mag.exp) as nat, up as int, a);
        let off = mag.mant * w - n * u;
        let wide = 0x20_0000_0000_0000int;
        assert(wide * off <= n * u && wide * (-off) <= n * u);
        assert(1024 * (n * u) <= wide * (w * u)) by (nonlinear_arith)
            requires
                n <= up * w,
                up <= 65535,
                wide == 0x20_0000_0000_0000,
                w > 0,
                u > 0,
                n >= 0,
        ;
        assert(1024 * off <= w * u && 1024 * (-off) <= w * u);
        let gap = o * w - exact;
        let signed_n = diff * frac.mant;
        assert(gap * u == (o * u - s) * w + (step * w - signed_n * u)) by (nonlinear_arith)
            requires
                gap == o * w - exact,
                exact == a * w + signed_n,
                s == a * u + step,
        ;
        let rest = step * w - signed_n * u;
        assert(rest == if diff < 0 { -off } else { off }) by (nonlinear_arith)
            requires
                rest == step * w - signed_n * u,
                off == mag.mant * w - n * u,
                step == (if diff < 0 { -mag.mant } else { mag.mant }),
                signed_n == (if diff < 0 { -(n as int) } else { n as int }),
        ;
        assert(-41 * w <= 64 * gap <= 41 * w) by (nonlinear_arith)
            requires
                gap * u == (o * u - s) * w + rest,
                -5 * u <= 8 * (o * u - s) <= 5 * u,
                1024 * rest <= w * u,
                1024 * (-rest) <= w * u,
                w > 0,
                u > 0,
        ;
    }
}

/// Rounding a signed number to double precision and then to an integer.
proof fn lemma_round_close(s: int, k: nat, room: int, a: int)
    requires
        -32768 <= a <= 32767,
        0 <= room <= 65535,
        -room * pow2(k) <= s - a * pow2(k) <= room * pow2(k),
    ensures
        -5 * pow2(k) <= 8 * (round_half_away(round_at(s, -(k as int), 53)) * pow2(k) - s) <= 5 * pow2(k),
{
    lemma_pow2_values();
    lemma2_to64_rest();
    lemma_pow2_pos(k);
    let u = pow2(k) as int;
    let n = if s < 0 { (-s) as nat } else { s as nat };
    assert(n < u * pow2(48)) by (nonlinear_arith)
        requires
            n == (if s < 0 { -s } else { s }),
            -room * u <= s - a * u <= room * u,
            -32768 <= a <= 32767,
            0 <= room <= 65535,
            u > 0,
            pow2(48) == 0x1_0000_0000_0000,
    ;
    lemma_rounded_over_pow2(n, 53, k);
    lemma_integer_close(n, pow2(k));
    let x = rounded(n, pow2(k), 53);
    if n > 0 {
        lemma_rounded_normal(n, pow2(k), 53);
    }
    if s < 0 {
        lemma_half_away_negated(x);
        let r = round_half_away(x);
        assert((-r) * u == -(r * u)) by (nonlinear_arith);
    }
}

/// The position that a number of samples becomes, scaled to an integer, and the
/// scale.
spec fn scaled_position(x: Dyadic) -> (int, int) {
    if x.exp >= 0 {
        (x.mant * pow2(x.exp as nat), 1)
    } else {
        (x.mant, pow2((-x.exp) as nat) as int)
    }
}

/// A source position is off the exact one by at most one part in `2^51`.
proof fn lemma_position_close(i: nat, from_rate: nat, to_rate: nat)
    requires
        i < pow2(53),
        0 < from_rate <= u32::MAX,
        0 < to_rate <= u32::MAX,
    ensures
        ({
            let (m, u) = scaled_position(source_position(i, from_rate, to_rate));
            let off = m * to_rate - i * from_rate * u;
            &&& u > 0
            &&& m >= 0
            &&& 0x8_0000_0000_0000 * off <= i * from_rate * u
            &&& 0x8_0000_0000_0000 * (-off) <= i * from_rate * u
        }),
{
    lemma_pow2_values();
    lemma_ratio_range(from_rate, to_rate);
    lemma_position(i, from_rate, to_rate);
    let x = source_position(i, from_rate, to_rate);
    let (m, u) = scaled_position(x);
    let ratio = rate_ratio(from_rate, to_rate);
    let v = pow2((-ratio.exp) as nat) as int;
    let d = ratio.mant;
    let (f, t) = (from_rate as int, to_rate as int);
    let slip = d * t - f * v;
    lemma_ratio_close(from_rate, to_rate, v, slip);
    lemma_pow2_pos((-x.exp) as nat);
    lemma_pow2_pos(x.exp as nat);
    if i == 0 {
        assert(0 * d == 0);
        assert(0 * pow2(0) == 0);
        assert(0 * f * u == 0) by (nonlinear_arith);
        assert(0 * t == 0);
    } else {
        let n = i * d as nat;
        assert(n > 0) by (nonlinear_arith)
            requires
                n == i * d,
                i > 0,
                d > 0,
        ;
        lemma_rounded_close(n, v as nat, 53);
        lemma_rounded_normal(n, v as nat, 53);
        let w = 0x20_0000_0000_0000int;
        // m / u is off n / v, and n / v is off i * f / t.
        let err = m * v - n * u;
        assert(w * err <= n * u && w * (-err) <= n * u) by {
            if x.exp >= 0 {
                let p = pow2(x.exp as nat) as int;
                assert(x.mant * (v * p) == (x.mant * p) * v) by (nonlinear_arith);
                assert(n * 1 == n);
            }
        }
        assert(m >= 0) by (nonlinear_arith)
            requires
                m == x.mant || m == x.mant * pow2(x.exp as nat),
                x.mant >= 0,
        ;
        lemma_two_errors(i as int, d, f, t, m, u, v, slip, err);
    }
}

/// Two errors of one part in `2^53` make at most one part in `2^51`.
proof fn lemma_two_errors(i: int, d: int, f: int, t: int, m: int, u: int, v: int, slip: int, err: int)
    requires
        i > 0,
        d > 0,
        f > 0,
        t > 0,
        u > 0,
        v > 0,
        slip == d * t - f * v,
        err == m * v - (i * d) * u,
        0x20_0000_0000_0000 * slip <= f * v,
        0x20_0000_0000_0000 * (-slip) <= f * v,
        0x20_0000_0000_0000 * err <= (i * d) * u,
        0x20_0000_0000_0000 * (-err) <= (i * d) * u,
    ensures
        ({
            let off = m * t - i * f * u;
            &&& 0x8_0000_0000_0000 * off <= i * f * u
            &&& 0x8_0000_0000_0000 * (-off) <= i * f * u
        }),
{
    let w = 0x20_0000_0000_0000int;
    let off = m * t - i * f * u;
    let base = i * f * u;
    let iu = i * u;
    assert(base == f * iu && (i * d) * u == d * iu) by (nonlinear_arith)
        requires
            base == i * f * u,
            iu == i * u,
    ;
    assert(iu > 0) by (nonlinear_arith)
        requires
            iu == i * u,
            i > 0,
            u > 0,
    ;
    // off * v = err * t + slip * iu.
    assert(off * v == (m * t) * v - (f * iu) * v) by (nonlinear_arith)
        requires
            off == m * t - f * iu,
    ;
    assert(err * t == (m * v) * t - (d * iu) * t) by (nonlinear_arith)
        requires
            err == m * v - d * iu,
    ;
    assert(slip * iu == (d * t) * iu - (f * v) * iu) by (nonlinear_arith)
        requires
            slip == d * t - f * v,
    ;
    assert((m * t) * v == (m * v) * t) by (nonlinear_arith);
    assert((f * iu) * v == (f * v) * iu) by (nonlinear_arith);
    assert((d * iu) * t == (d * t) * iu) by (nonlinear_arith);
    let whole = base * v;
    assert(whole == (f * v) * iu) by (nonlinear_arith)
        requires
            whole == base * v,
            base == f * iu,
    ;
    assert(w * (slip * iu) <= whole && w * (-(slip * iu)) <= whole) by (nonlinear_arith)
        requires
            w * slip <= f * v,
            w * (-slip) <= f * v,
            whole == (f * v) * iu,
            iu > 0,
    ;
    let dt = (d * t) * iu;
    assert(dt == whole + slip * iu) by (nonlinear_arith)
        requires
            dt == (d * t) * iu,
            whole == (f * v) * iu,
            slip == d * t - f * v,
    ;
    assert(w * (err * t) <= dt && w * (-(err * t)) <= dt) by (nonlinear_arith)
        requires
            w * err <= d * iu,
            w * (-err) <= d * iu,
            dt == (d * t) * iu,
            t > 0,
    ;
    let total = off * v;
    assert(0x8_0000_0000_0000 * total <= whole && 0x8_0000_0000_0000 * (-total) <= whole);
    assert(0x8_0000_0000_0000 * off <= base && 0x8_0000_0000_0000 * (-off) <= base) by (nonlinear_arith)
        requires
            0x8_0000_0000_0000 * total <= whole,
            0x8_0000_0000_0000 * (-total) <= whole,
            total == off * v,
            whole == base * v,
            v > 0,
    ;
}

/// The value, times `d`, at position `n / d` of the line that joins the samples
/// and goes on level behind the last.
pub open spec fn line_at(input: Seq<i16>, n: int, d: int) -> int {
    let (a, b) = (sample_at(input, n / d), sample_after(input, n / d));
    a * (d - n % d) + b * (n % d)
}

/// Where there is no fraction, interpolation gives the sample on the left.
pub proof fn lemma_interpolation_at_sample(a: int, b: int, frac: Dyadic)
    requires
        -32768 <= a <= 32767,
        -32768 <= b <= 32767,
        frac.mant == 0,
    ensures
        interpolated(a, b, frac) == a,
{
    lemma_pow2_values();
    assert((b - a) * 0 == 0);
    assert(product(integer(b - a), frac, 53) == integer(0));
    assert(sum(integer(a), integer(0), 53) == round_at(a * 1 + 0 * 1, 0, 53));
    lemma_integer_kept(a);
}

/// Two points of the line that are close have close values.
proof fn lemma_line_is_smooth(input: Seq<i16>, m: int, u: int, n: int, t: int)
    requires
        input.len() > 0,
        u > 0,
        t > 0,
        m >= 0,
        n >= 0,
        m / u < input.len(),
        n / t < input.len(),
        -t * u < m * t - n * u < t * u,
    ensures
        ({
            let off = m * t - n * u;
            let gap = line_at(input, m, u) * t - line_at(input, n, t) * u;
            &&& -65535 * (if off < 0 { -off } else { off }) <= gap
            &&& gap <= 65535 * (if off < 0 { -off } else { off })
        }),
{
    let off = m * t - n * u;
    let (p, f) = (m / u, m % u);
    let (q, r) = (n / t, n % t);
    vstd::arithmetic::div_mod::lemma_fundamental_div_mod(m, u);
    vstd::arithmetic::div_mod::lemma_fundamental_div_mod(n, t);
    vstd::arithmetic::div_mod::lemma_div_pos_is_pos(m, u);
    vstd::arithmetic::div_mod::lemma_div_pos_is_pos(n, t);
    assert(q - 1 <= p <= q + 1) by (nonlinear_arith)
        requires
            m == u * p + f,
            0 <= f < u,
            n == t * q + r,
            0 <= r < t,
            -t * u < m * t - n * u < t * u,
    ;
    let (a, b) = (sample_at(input, q) as int, sample_after(input, q) as int);
    let (c, d) = (sample_at(input, p) as int, sample_after(input, p) as int);
    let gap = line_at(input, m, u) * t - line_at(input, n, t) * u;
    let (ut, ft, ru) = (u * t, f * t, r * u);
    lemma_line_scaled(c, d, u, f, t);
    lemma_line_scaled(a, b, t, r, u);
    assert(u * t == t * u) by (nonlinear_arith);
    assert(gap == c * (ut - ft) + d * ft - (a * (ut - ru) + b * ru));
    assert(ft >= 0 && ut - ft >= 0 && ru >= 0 && ut - ru >= 0) by (nonlinear_arith)
        requires
            ut == u * t,
            ft == f * t,
            ru == r * u,
            0 <= f < u,
            0 <= r < t,
    ;
    assert(off == (p - q) * ut + ft - ru) by (nonlinear_arith)
        requires
            m == u * p + f,
            n == t * q + r,
            off == m * t - n * u,
            ut == u * t,
            ft == f * t,
            ru == r * u,
    ;
    if p == q {
        assert(off == ft - ru) by (nonlinear_arith)
            requires
                off == (p - q) * ut + ft - ru,
                p == q,
        ;
        assert(a * (ut - ft) + b * ft - (a * (ut - ru) + b * ru) == (b - a) * (ft - ru)) by (nonlinear_arith);
        lemma_slope(b - a, off);
    } else if p == q + 1 {
        assert(c == b);
        assert(off == ut + ft - ru) by (nonlinear_arith)
            requires
                off == (p - q) * ut + ft - ru,
                p == q + 1,
        ;
        assert(b * (ut - ft) + d * ft - (a * (ut - ru) + b * ru) == (d - b) * ft + (b - a) * (ut - ru))
            by (nonlinear_arith);
        lemma_slope(d - b, ft);
        lemma_slope(b - a, ut - ru);
    } else {
        assert(d == a);
        assert(off == -(ut - ft) - ru) by (nonlinear_arith)
            requires
                off == (p - q) * ut + ft - ru,
                p == q - 1,
        ;
        assert(c * (ut - ft) + a * ft - (a * (ut - ru) + b * ru) == (c - a) * (ut - ft) + (a - b) * ru)
            by (nonlinear_arith);
        lemma_slope(c - a, ut - ft);
        lemma_slope(a - b, ru);
    }
}

/// A point of a line, times a factor.
proof fn lemma_line_scaled(c: int, d: int, u: int, f: int, t: int)
    ensures
        (c * (u - f) + d * f) * t == c * (u * t - f * t) + d * (f * t),
{
    assert((c * (u - f) + d * f) * t == c * (u * t - f * t) + d * (f * t)) by (nonlinear_arith);
}

/// Two samples differ by at most 65535.
proof fn lemma_slope(diff: int, x: int)
    requires
        -65535 <= diff <= 65535,
    ensures
        -65535 * (if x < 0 { -x } else { x }) <= diff * x <= 65535 * (if x < 0 { -x } else { x }),
{
    assert(-65535 * (if x < 0 { -x } else { x }) <= diff * x && diff * x <= 65535 * (if x < 0 { -x } else { x }))
        by (nonlinear_arith)
        requires
            -65535 <= diff <= 65535,
    ;
}

/// A conversion is linear interpolation: every sample of the result is within
/// one of the exact value of the line at its place.
///
/// The input has at most `2^32` samples, which last three days; on longer ones
/// positions in double precision grow too coarse for steep sound.
pub proof fn law_resampling_is_linear(input: Seq<i16>, from_rate: nat, to_rate: nat, i: nat)
    requires
        input.len() <= pow2(32),
        is_feasible(input.len(), from_rate, to_rate),
        i < resampled(input, from_rate, to_rate).len(),
    ensures
        -(to_rate as int) < resampled(input, from_rate, to_rate)[i as int] * to_rate - line_at(
            input,
            (i * from_rate) as int,
            to_rate as int,
        ) < to_rate,
{
    lemma_pow2_values();
    let (f, t) = (from_rate as int, to_rate as int);
    let n = i * f;
    if from_rate == to_rate || input.len() == 0 {
        vstd::arithmetic::div_mod::lemma_fundamental_div_mod_converse(n, t, i as int, 0);
        assert(input[i as int] * (t - 0) == input[i as int] * t);
        assert(sample_after(input, i as int) * 0 == 0);
    } else {
        lemma_resampled_line(input, from_rate, to_rate, i);
    }
}

/// A conversion between two different rates is linear interpolation.
proof fn lemma_resampled_line(input: Seq<i16>, from_rate: nat, to_rate: nat, i: nat)
    requires
        0 < input.len() <= pow2(32),
        from_rate != to_rate,
        is_feasible(input.len(), from_rate, to_rate),
        i < resampled(input, from_rate, to_rate).len(),
    ensures
        -(to_rate as int) < resampled(input, from_rate, to_rate)[i as int] * to_rate - line_at(
            input,
            (i * from_rate) as int,
            to_rate as int,
        ) < to_rate,
{
    lemma_pow2_values();
    let (f, t) = (from_rate as int, to_rate as int);
    let n = i * f;
    let out = resampled(input, from_rate, to_rate)[i as int] as int;
    let len = input.len() as int;
    lemma_resampled_len(input.len(), from_rate, to_rate);
    lemma_pow2_strictly_increases(48, 53);
    lemma2_to64_rest();
    lemma_position_range(i, from_rate, to_rate);
    lemma_position_close(i, from_rate, to_rate);
    law_resampling_stays_inside(input, from_rate, to_rate, i);
    law_resampling_never_grows_peak(input, from_rate, to_rate, 32768);
    let x = source_position(i, from_rate, to_rate);
    let (m, u) = scaled_position(x);
    let off = m * t - n * u;
    let total = resampled_len(input.len(), from_rate, to_rate);
    assert(n < len * t && n >= 0) by (nonlinear_arith)
        requires
            n == i * f,
            i + 1 <= total,
            4 * (total * f - len * t) < 3 * f,
            f > 0,
    ;
    vstd::arithmetic::div_mod::lemma_fundamental_div_mod(n, t);
    assert(n / t < len) by (nonlinear_arith)
        requires
            n == t * (n / t) + n % t,
            0 <= n % t,
            n < len * t,
            t > 0,
    ;
    assert(n * u <= 0x1_0000_0000 * (t * u)) by (nonlinear_arith)
        requires
            n < len * t,
            len <= 0x1_0000_0000,
            u > 0,
            t > 0,
    ;
    let unit = t * u;
    assert(unit > 0) by (nonlinear_arith)
        requires
            unit == t * u,
            t > 0,
            u > 0,
    ;
    assert(-t * u == -unit) by (nonlinear_arith)
        requires
            unit == t * u,
    ;
    assert(0x8_0000 * off <= unit && 0x8_0000 * (-off) <= unit);
    assert(m / u == floor_of(x)) by {
        if x.exp >= 0 {
            assert(m / 1 == m);
        }
    }
    lemma_line_is_smooth(input, m, u, n, t);
    let (a, b) = (sample_at(input, m / u) as int, sample_after(input, m / u) as int);
    let frac = fraction_of(x);
    assert(out == interpolated(a, b, frac)) by {
        law_interpolation_stays_between(a, b, frac);
    }
    let line = line_at(input, m, u);
    assert(-41 * u <= 64 * (out * u - line) <= 41 * u) by {
        if x.exp >= 0 {
            assert(m % 1 == 0);
            assert(a * 1 + b * 0 == a);
            lemma_interpolation_at_sample(a, b, frac);
        } else {
            lemma_interpolation_close(a, b, frac);
            let w = m % u;
            assert(a * (u - w) + b * w == a * u + (b - a) * w) by (nonlinear_arith);
        }
    }
    let exact = line_at(input, n, t);
    let gap = out * t - exact;
    assert(64 * (gap * u) == (64 * (out * u - line)) * t + 64 * (line * t - exact * u)) by (nonlinear_arith)
        requires
            gap == out * t - exact,
    ;
    assert(-41 * unit <= (64 * (out * u - line)) * t && (64 * (out * u - line)) * t <= 41 * unit) by (nonlinear_arith)
        requires
            -41 * u <= 64 * (out * u - line) <= 41 * u,
            unit == t * u,
            t > 0,
    ;
    assert(-50 * unit <= 64 * (gap * u) <= 50 * unit);
    assert(-t < gap < t) by (nonlinear_arith)
        requires
            -50 * unit <= 64 * (gap * u) <= 50 * unit,
            unit == t * u,
            t > 0,
            u > 0,
    ;
}

} // verus!
