//! Mixing channels is averaging them.
//!
//! Sixteen-bit audio in single precision is made of multiples of `2^-15`.  Sums
//! of up to 256 of them are exact, so what a frame is mixed to can be compared
//! with the exact mean.

use crate::audio::{downmixed, lemma_frames};
use crate::rounding::{
    at_least, at_most, floor_of, integer, is_greater, lemma_rounded_at_least, lemma_rounded_at_most,
    lemma_rounded_common_factor, lemma_rounded_exact, lemma_rounded_normal, lemma_rounded_over_pow2,
    lemma_rounded_shift, round_at, rounded, shifted, Dyadic,
};
use crate::single::{absolute, held, mean, over, pcm_sample, plus, total, Number, Single};
use vstd::arithmetic::power2::{
    lemma2_to64, lemma_pow2_adds, lemma_pow2_pos, lemma_pow2_strictly_increases, pow2,
};
use vstd::prelude::*;

verus! {

/// `a` is the number `k * 2^-15`.
pub open spec fn is_steps(a: Dyadic, k: int) -> bool {
    if a.exp >= -15 {
        a.mant * pow2((a.exp + 15) as nat) == k
    } else {
        a.mant == k * pow2((-15 - a.exp) as nat)
    }
}

/// `x` is the number `k * 2^-15`.
pub open spec fn is_step(x: Number, k: int) -> bool {
    x matches Number::Finite(a) && is_steps(a, k)
}

/// A number at a lower exponent.
proof fn lemma_steps_lowered(a: Dyadic, k: int, e: int)
    requires
        is_steps(a, k),
        e <= a.exp,
    ensures
        is_steps(Dyadic { mant: a.mant * pow2((a.exp - e) as nat), exp: e }, k),
{
    let d = (a.exp - e) as nat;
    let m = a.mant;
    if e >= -15 {
        lemma_pow2_adds(d, (e + 15) as nat);
        let (u, v) = (pow2(d) as int, pow2((e + 15) as nat) as int);
        assert((m * u) * v == m * (u * v)) by (nonlinear_arith);
    } else if a.exp >= -15 {
        let (p, q) = ((a.exp + 15) as nat, (-15 - e) as nat);
        lemma_pow2_adds(p, q);
        let (u, v) = (pow2(p) as int, pow2(q) as int);
        assert(m * (u * v) == (m * u) * v) by (nonlinear_arith);
    } else {
        let p = (-15 - a.exp) as nat;
        lemma_pow2_adds(p, d);
        let (u, v) = (pow2(p) as int, pow2(d) as int);
        assert((k * u) * v == k * (u * v)) by (nonlinear_arith);
    }
}

/// A multiple of `2^-15` that is not too large keeps its value when it is
/// rounded.
proof fn lemma_steps_rounded(n: nat, e: int, k: nat)
    requires
        is_steps(Dyadic { mant: n as int, exp: e }, k as int),
        k < pow2(24),
    ensures
        is_steps(shifted(rounded(n, 1, 24), e), k as int),
        k > 0 ==> shifted(rounded(n, 1, 24), e) == shifted(rounded(k, 1, 24), -15),
        k == 0 ==> n == 0,
{
    lemma2_to64();
    if e >= -15 {
        let w = pow2((e + 15) as nat);
        lemma_pow2_pos((e + 15) as nat);
        lemma_rounded_shift(n, 1, 24, (e + 15) as nat);
        assert(n * w == k);
        assert(k == 0 ==> n == 0) by (nonlinear_arith)
            requires
                n * w == k,
                w > 0,
        ;
        assert(n == 0 ==> k == 0) by (nonlinear_arith)
            requires
                n * w == k,
        ;
    } else {
        let t = (-15 - e) as nat;
        let w = pow2(t);
        lemma_pow2_pos(t);
        lemma_rounded_shift(k, 1, 24, t);
        assert(k == 0 ==> n == 0) by (nonlinear_arith)
            requires
                n == k * w,
        ;
        assert(n == 0 ==> k == 0) by (nonlinear_arith)
            requires
                n == k * w,
                w > 0,
        ;
    }
    if k == 0 {
        assert(0 * pow2(15) == 0);
    } else {
        lemma_rounded_normal(k, 1, 24);
        lemma_rounded_normal(n, 1, 24);
        lemma_rounded_exact(k, 24);
        let x = rounded(k, 1, 24);
        let r = shifted(x, -15);
        if x.exp == 0 {
            assert(k * 1 == k);
            assert(x.mant * pow2(0) == k);
        }
    }
}

/// The format holds every multiple of `2^-15` that is not too large.
proof fn lemma_steps_held(x: Dyadic, k: int)
    requires
        is_steps(x, k),
        -pow2(24) < k < pow2(24),
        x.mant != 0 ==> pow2(23) <= x.mant < pow2(24) || -pow2(24) < x.mant <= -pow2(23),
        x.mant == 0 ==> x.exp == 0,
    ensures
        held(x) == Number::Finite(x),
{
    lemma2_to64();
    let m = x.mant;
    if m != 0 && x.exp > 104 {
        let w = pow2((x.exp + 15) as nat) as int;
        lemma_pow2_strictly_increases(1, (x.exp + 15) as nat);
        assert(m * w >= 2 * pow2(23) || m * w <= -2 * pow2(23)) by (nonlinear_arith)
            requires
                m >= pow2(23) || m <= -pow2(23),
                w >= 2,
        ;
    }
    if m != 0 && x.exp < -149 {
        let w = pow2((-15 - x.exp) as nat) as int;
        lemma_pow2_strictly_increases(24, (-15 - x.exp) as nat);
        assert(k != 0) by (nonlinear_arith)
            requires
                m == k * w,
                m != 0,
        ;
        assert(m >= w || m <= -w) by (nonlinear_arith)
            requires
                m == k * w,
                k >= 1 || k <= -1,
                w > 0,
        ;
    }
}

/// A sum of multiples of `2^-15` is exact.
proof fn lemma_plus_steps(x: Number, y: Number, j: int, k: int)
    requires
        is_step(x, j),
        is_step(y, k),
        -pow2(24) < j + k < pow2(24),
    ensures
        is_step(plus(x, y), j + k),
{
    let (a, b) = (x->Finite_0, y->Finite_0);
    let e = if a.exp <= b.exp { a.exp } else { b.exp };
    lemma_steps_lowered(a, j, e);
    lemma_steps_lowered(b, k, e);
    let (m, n) = (a.mant * pow2((a.exp - e) as nat), b.mant * pow2((b.exp - e) as nat));
    let s = m + n;
    if e >= -15 {
        let w = pow2((e + 15) as nat) as int;
        assert(s * w == m * w + n * w) by (nonlinear_arith)
            requires
                s == m + n,
        ;
    } else {
        let w = pow2((-15 - e) as nat) as int;
        assert((j + k) * w == j * w + k * w) by (nonlinear_arith);
    }
    lemma_round_steps(s, e, j + k);
    lemma_steps_held(round_at(s, e, 24), j + k);
}

/// Rounding keeps a multiple of `2^-15`, of either sign.
proof fn lemma_round_steps(n: int, e: int, k: int)
    requires
        is_steps(Dyadic { mant: n, exp: e }, k),
        -pow2(24) < k < pow2(24),
    ensures
        is_steps(round_at(n, e, 24), k),
        round_at(n, e, 24).mant != 0 ==> pow2(23) <= round_at(n, e, 24).mant < pow2(24) || -pow2(24)
            < round_at(n, e, 24).mant <= -pow2(23),
        round_at(n, e, 24).mant == 0 ==> round_at(n, e, 24).exp == 0,
{
    lemma2_to64();
    let w = if e >= -15 {
        pow2((e + 15) as nat) as int
    } else {
        pow2((-15 - e) as nat) as int
    };
    lemma_pow2_pos(if e >= -15 { (e + 15) as nat } else { (-15 - e) as nat });
    assert(n < 0 <==> k < 0) by (nonlinear_arith)
        requires
            n * w == k || n == k * w,
            w > 0,
    ;
    assert((-n) * w == -(n * w) && (-k) * w == -(k * w)) by (nonlinear_arith);
    let size = if n < 0 { (-n) as nat } else { n as nat };
    let steps = if k < 0 { (-k) as nat } else { k as nat };
    lemma_steps_rounded(size, e, steps);
    if size > 0 {
        lemma_rounded_normal(size, 1, 24);
    }
    let r = shifted(rounded(size, 1, 24), e);
    let v = if r.exp >= -15 {
        pow2((r.exp + 15) as nat) as int
    } else {
        pow2((-15 - r.exp) as nat) as int
    };
    assert((-r.mant) * v == -(r.mant * v) && (-steps) * v == -(steps * v)) by (nonlinear_arith);
}

/// `k` are the samples of a frame, in steps of `2^-15`.
pub open spec fn is_pcm_frame(frame: Seq<Single>, k: Seq<int>) -> bool {
    &&& frame.len() == k.len()
    &&& forall|i: int| 0 <= i < k.len() ==> -32768 <= #[trigger] k[i] <= 32768 && is_step(frame[i]@, k[i])
}

/// The exact sum of some numbers.
pub open spec fn exact_total(k: Seq<int>) -> int {
    k.fold_left(0int, |sum: int, x: int| sum + x)
}

proof fn lemma_total_steps(frame: Seq<Single>, k: Seq<int>)
    requires
        is_pcm_frame(frame, k),
        k.len() <= 256,
    ensures
        is_step(total(frame), exact_total(k)),
        -32768 * k.len() <= exact_total(k) <= 32768 * k.len(),
    decreases k.len(),
{
    lemma2_to64();
    if k.len() == 0 {
        assert(0 * pow2(15) == 0);
    } else {
        let (f, j) = (frame.drop_last(), k.drop_last());
        assert forall|i: int| 0 <= i < j.len() implies -32768 <= #[trigger] j[i] <= 32768 && is_step(
            f[i]@,
            j[i],
        ) by {
            assert(j[i] == k[i]);
        }
        lemma_total_steps(f, j);
        assert(k[k.len() - 1] == k.last());
        lemma_plus_steps(total(f), frame.last()@, exact_total(j), k.last());
    }
}

/// An exact mean is found exactly.
proof fn lemma_over_steps(x: Number, m: int, count: nat)
    requires
        is_step(x, m * count),
        0 < count <= 256,
        -32768 <= m <= 32768,
    ensures
        is_step(over(x, count), m),
{
    lemma2_to64();
    let a = x->Finite_0;
    let (size, e) = (absolute(a).mant as nat, a.exp);
    let steps = if m < 0 { (-m) as nat } else { m as nat };
    lemma_rounded_exact(count, 24);
    let c = rounded(count, 1, 24);
    let b = (-c.exp) as nat;
    lemma_pow2_pos(b);
    let d = count * pow2(b);
    assert(d > 0) by (nonlinear_arith)
        requires
            d == count * pow2(b),
            count > 0,
            pow2(b) > 0,
    ;
    let w = if e >= -15 {
        pow2((e + 15) as nat) as int
    } else {
        pow2((-15 - e) as nat) as int
    };
    lemma_pow2_pos(if e >= -15 { (e + 15) as nat } else { (-15 - e) as nat });
    let am = a.mant;
    assert(am < 0 <==> m < 0) by (nonlinear_arith)
        requires
            am * w == m * count || am == (m * count) * w,
            w > 0,
            count > 0,
    ;
    assert((-am) * w == -(am * w)) by (nonlinear_arith);
    assert((-m) * count == -(m * count)) by (nonlinear_arith);
    assert(((-m) * count) * w == -((m * count) * w)) by (nonlinear_arith);
    let z = shifted(rounded(size, d, 24), e + b);
    assert(z == shifted(rounded(steps, 1, 24), -15)) by {
        if e >= -15 {
            let k = (e + 15) as nat;
            assert(size * pow2(k) == steps * count);
            lemma_rounded_shift(size, d, 24, k);
            lemma_rounded_common_factor(steps, pow2(b), 24, count);
            assert(pow2(b) * count == d) by (nonlinear_arith)
                requires
                    d == count * pow2(b),
            ;
            lemma_rounded_over_pow2(steps, 24, b);
            assert(size == 0 <==> steps == 0) by (nonlinear_arith)
                requires
                    size * w == steps * count,
                    w > 0,
                    count > 0,
            ;
        } else {
            let t = (-15 - e) as nat;
            assert(size == (steps * count) * pow2(t));
            lemma_rounded_shift(steps * count, d, 24, t);
            lemma_rounded_common_factor(steps, pow2(b), 24, count);
            assert(pow2(b) * count == d) by (nonlinear_arith)
                requires
                    d == count * pow2(b),
            ;
            lemma_rounded_over_pow2(steps, 24, b);
            assert(size == 0 <==> steps == 0) by (nonlinear_arith)
                requires
                    size == (steps * count) * w,
                    w > 0,
                    count > 0,
            ;
        }
        if size > 0 {
            lemma_rounded_normal(size, d, 24);
            lemma_rounded_normal(steps, 1, 24);
        }
    }
    assert(is_steps(Dyadic { mant: steps as int, exp: -15 }, steps as int)) by {
        assert(steps * 1 == steps);
    }
    lemma_steps_rounded(steps, -15, steps);
    let v = if z.exp >= -15 {
        pow2((z.exp + 15) as nat) as int
    } else {
        pow2((-15 - z.exp) as nat) as int
    };
    assert((-z.mant) * v == -(z.mant * v) && (-steps) * v == -(steps * v)) by (nonlinear_arith);
}

/// The channels of a frame are averaged: where sixteen-bit samples have an exact
/// mean, up to 256 channels of them are mixed to exactly that.
pub proof fn law_channels_are_averaged(frame: Seq<Single>, k: Seq<int>, m: int)
    requires
        is_pcm_frame(frame, k),
        0 < k.len() <= 256,
        exact_total(k) == m * k.len(),
    ensures
        is_step(mean(frame), m),
{
    lemma_total_steps(frame, k);
    let n = k.len() as int;
    assert(-32768 <= m <= 32768) by (nonlinear_arith)
        requires
            -32768 * n <= m * n <= 32768 * n,
            n > 0,
    ;
    lemma_over_steps(total(frame), m, k.len());
}

/// A number between -1 and 1 becomes the sample that lies at its place in the
/// range: `32767` times the number, to within one, with its sign.
pub proof fn law_sample_is_the_number_in_its_range(x: Number, m: int)
    requires
        is_step(x, m),
        -32768 <= m <= 32768,
    ensures
        m >= 0 ==> m * 32767 / 32768 <= pcm_sample(x) <= m * 32767 / 32768 + 1,
        m < 0 ==> (-m) * 32767 / 32768 <= -pcm_sample(x) <= (-m) * 32767 / 32768 + 1,
        m == 0 ==> pcm_sample(x) == 0,
        -32767 <= pcm_sample(x) <= 32767,
{
    lemma2_to64();
    let a = x->Finite_0;
    let steps = if m < 0 { (-m) as nat } else { m as nat };
    let (size, e) = (absolute(a).mant as nat, a.exp);
    let am = a.mant;
    let w = if e >= -15 {
        pow2((e + 15) as nat) as int
    } else {
        pow2((-15 - e) as nat) as int
    };
    lemma_pow2_pos(if e >= -15 { (e + 15) as nat } else { (-15 - e) as nat });
    assert(am < 0 <==> m < 0) by (nonlinear_arith)
        requires
            am * w == m || am == m * w,
            w > 0,
    ;
    assert((-am) * w == -(am * w) && (-m) * w == -(m * w)) by (nonlinear_arith);
    assert(is_steps(absolute(a), steps as int));
    lemma_not_loudest(absolute(a), steps);
    let n = size * 32767;
    let top = steps * 32767;
    assert(round_at(n as int, e, 24) == rounded(top, pow2(15), 24)) by {
        lemma_rounded_over_pow2(top, 24, 15);
        if e >= -15 {
            lemma_rounded_shift(n, 1, 24, (e + 15) as nat);
            assert(n * w == top) by (nonlinear_arith)
                requires
                    size * w == steps,
                    n == size * 32767,
                    top == steps * 32767,
            ;
        } else {
            lemma_rounded_shift(top, 1, 24, (-15 - e) as nat);
            assert(n == top * w) by (nonlinear_arith)
                requires
                    size == steps * w,
                    n == size * 32767,
                    top == steps * 32767,
            ;
        }
        assert(n == 0 <==> top == 0) by (nonlinear_arith)
            requires
                n * w == top || n == top * w,
                w > 0,
        ;
        if n > 0 {
            lemma_rounded_normal(n, 1, 24);
            lemma_rounded_normal(top, 1, 24);
        }
    }
    let y = rounded(top, pow2(15), 24);
    let q = top / 32768;
    assert(q * 32768 <= top < (q + 1) * 32768);
    lemma_rounded_at_least(top, pow2(15), 24, q);
    lemma_rounded_at_most(top, pow2(15), 24, q + 1);
    lemma_rounded_at_most(top, pow2(15), 24, 32767);
    lemma_floor_between(y, q as int, q as int + 1);
    lemma_floor_between(y, q as int, 32767);
}

/// A number of at most one is not too loud.
proof fn lemma_not_loudest(a: Dyadic, k: nat)
    requires
        is_steps(a, k as int),
        k <= 32768,
    ensures
        !is_greater(a, integer(1)),
{
    lemma2_to64();
    let m = a.mant;
    if a.exp >= 0 {
        let (u, v) = (pow2(a.exp as nat) as int, pow2(15) as int);
        lemma_pow2_adds(a.exp as nat, 15);
        assert(m * u <= 1) by (nonlinear_arith)
            requires
                m * (u * v) <= 32768,
                v == 32768,
        ;
    } else if a.exp >= -15 {
        let (u, v) = (pow2((a.exp + 15) as nat) as int, pow2((-a.exp) as nat) as int);
        lemma_pow2_adds((a.exp + 15) as nat, (-a.exp) as nat);
        lemma_pow2_pos((a.exp + 15) as nat);
        assert(m <= 1 * v) by (nonlinear_arith)
            requires
                m * u <= 32768,
                u * v == 32768,
                u > 0,
        ;
    } else {
        let (u, v) = (pow2((-15 - a.exp) as nat) as int, pow2((-a.exp) as nat) as int);
        lemma_pow2_adds((-15 - a.exp) as nat, 15);
        assert(m <= 1 * v) by (nonlinear_arith)
            requires
                m == k * u,
                k <= 32768,
                v == u * 32768,
                u >= 0,
        ;
    }
}

proof fn lemma_floor_between(x: Dyadic, lo: int, hi: int)
    requires
        at_least(x, lo),
        at_most(x, hi),
    ensures
        lo <= floor_of(x) <= hi,
{
    if x.exp < 0 {
        let u = pow2((-x.exp) as nat) as int;
        lemma_pow2_pos((-x.exp) as nat);
        vstd::arithmetic::div_mod::lemma_fundamental_div_mod(x.mant, u);
        let (q, r) = (x.mant / u, x.mant % u);
        assert(lo <= q <= hi) by (nonlinear_arith)
            requires
                x.mant == u * q + r,
                0 <= r < u,
                lo * u <= x.mant <= hi * u,
                u > 0,
        ;
    }
}

/// What a microphone delivers is mixed to the means of its frames: where the
/// samples of frame `i` have the exact mean `m`, in steps of `2^-15`, the sample
/// `i` of the result is `32767` times that number, to within one.
pub proof fn law_recording_is_mixed_to_its_means(
    data: Seq<Single>,
    width: nat,
    i: nat,
    k: Seq<int>,
    m: int,
)
    requires
        0 < width <= 256,
        (i + 1) * width <= data.len(),
        is_pcm_frame(data.subrange((i * width) as int, ((i + 1) * width) as int), k),
        exact_total(k) == m * width,
    ensures
        i < downmixed(data, width).len(),
        m >= 0 ==> m * 32767 / 32768 <= downmixed(data, width)[i as int] <= m * 32767 / 32768 + 1,
        m < 0 ==> (-m) * 32767 / 32768 <= -downmixed(data, width)[i as int] <= (-m) * 32767 / 32768 + 1,
{
    assert((i + 1) * width == i * width + width && i * width >= 0) by (nonlinear_arith);
    let frame = data.subrange((i * width) as int, ((i + 1) * width) as int);
    lemma_frames(data.len(), width, i);
    law_channels_are_averaged(frame, k, m);
    lemma_total_steps(frame, k);
    let n = width as int;
    assert(-32768 <= m <= 32768) by (nonlinear_arith)
        requires
            -32768 * n <= m * n <= 32768 * n,
            n > 0,
    ;
    law_sample_is_the_number_in_its_range(mean(frame), m);
}

} // verus!
