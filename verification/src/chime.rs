//! Short tones that tell the user what happens, so that no sound files are
//! needed.
//!
//! A tone is a sine wave that fades in and out.  The sines themselves come from
//! the platform: [`chime_phases`] says of which angles, and [`chime_tone`]
//! makes samples of them.

use crate::audio::INPUT_SAMPLE_RATE;
use crate::rounding::{
    floor_of, floor_to_usize, integer, is_greater, lemma_rounded_at_most, lemma_rounded_exp,
    lemma_rounded_normal, lemma_rounded_over_pow2, lemma_rounded_shift, multiply, product, round_quotient,
    rounded, Dyadic, Magnitude, SINGLE,
};
use crate::single::{holds, signed, Single, Value};
use vstd::arithmetic::power2::{
    lemma2_to64, lemma2_to64_rest, lemma_pow2_adds, lemma_pow2_pos, lemma_pow2_strictly_increases, pow2,
};
use vstd::prelude::*;

verus! {

/// What a tone stands for.
#[derive(Debug, Clone, Copy, PartialEq, Eq, Structural)]
pub enum Chime {
    Start,
    Done,
    Error,
}

/// The frequency of a tone, in hertz.
pub open spec fn frequency(chime: Chime) -> nat {
    match chime {
        Chime::Start => 880,
        Chime::Done => 660,
        Chime::Error => 220,
    }
}

/// How long a tone is, in milliseconds.
pub open spec fn duration_ms(chime: Chime) -> nat {
    match chime {
        Chime::Start => 120,
        Chime::Done => 150,
        Chime::Error => 300,
    }
}

/// How many samples a tone has, at 16 kHz.
pub open spec fn chime_len(chime: Chime) -> nat {
    16 * duration_ms(chime)
}

/// Twice pi, in single precision.
pub open spec fn tau() -> Dyadic {
    Dyadic { mant: 13_176_795, exp: -21 }
}

/// The loudness of a tone, 0.2 in single precision.
pub open spec fn volume() -> Dyadic {
    Dyadic { mant: 13_421_773, exp: -26 }
}

/// The angle of sample `i`, computed in single precision: the time, times the
/// frequency, times twice pi.
pub open spec fn phase(chime: Chime, i: nat) -> Dyadic {
    product(product(rounded(i, 16_000, 24), integer(frequency(chime) as int), 24), tau(), 24)
}

/// How far sample `i` of `n` is faded in or out: linearly over 10 ms at both
/// ends, computed in single precision.
pub open spec fn envelope(i: nat, n: nat) -> Dyadic {
    let distance = if n - i < i {
        (n - i) as nat
    } else {
        i
    };
    if distance >= 160 {
        integer(1)
    } else {
        rounded(distance, 160, 24)
    }
}

/// The size of sample `i` of `n`, for the absolute value of its sine.
pub open spec fn tone_size(sine: Dyadic, i: nat, n: nat) -> int {
    floor_of(product(product(product(sine, volume(), 24), envelope(i, n), 24), integer(32767), 24))
}

/// Sample `i` of `n`, for its sine.
pub open spec fn tone_sample(sine: Single, i: nat, n: nat) -> int {
    let size = tone_size(sine.magnitude(), i, n);
    if sine.is_negative() {
        -size
    } else {
        size
    }
}

/// A number between -1 and 1.
pub open spec fn is_sine(x: Single) -> bool {
    x.biased_exponent() < 255 && !is_greater(x.magnitude(), integer(1))
}

/// `x <= 1/4`, for an `x` that is not negative.
spec fn is_quarter(x: Dyadic) -> bool {
    x.mant == 0 || (x.exp < 0 && 0 < 4 * x.mant <= pow2((-x.exp) as nat))
}

/// A quarter of something that is at most one is at most a quarter.
proof fn lemma_quarter_product(x: Dyadic, y: Dyadic)
    requires
        is_quarter(x),
        y.exp <= 0,
        0 <= y.mant <= pow2((-y.exp) as nat),
    ensures
        is_quarter(product(x, y, 24)),
        is_quarter(product(y, x, 24)),
{
    let n = (x.mant * y.mant) as nat;
    assert(x.mant * y.mant == y.mant * x.mant && x.mant * y.mant >= 0) by (nonlinear_arith)
        requires
            x.mant >= 0,
            y.mant >= 0,
    ;
    let r = product(x, y, 24);
    if n > 0 {
        assert(x.mant > 0) by {
            assert(0 * y.mant == 0);
        }
        let (a, b) = ((-x.exp) as nat, (-y.exp) as nat);
        lemma_pow2_adds(a, b);
        lemma_pow2_pos(a + b);
        lemma2_to64();
        let (u, v) = (pow2(a) as int, pow2(b) as int);
        assert(4 * n <= 1 * (u * v)) by (nonlinear_arith)
            requires
                n == x.mant * y.mant,
                0 < 4 * x.mant <= u,
                0 <= y.mant <= v,
        ;
        lemma_rounded_over_pow2(n, 24, a + b);
        assert(r == rounded(n, pow2(a + b), 24));
        lemma_rounded_shift(n, pow2(a + b), 24, 2);
        assert(n * pow2(2) == 4 * n) by (nonlinear_arith)
            requires
                pow2(2) == 4,
        ;
        lemma_rounded_at_most(4 * n, pow2(a + b), 24, 1);
        lemma_rounded_normal(n, pow2(a + b), 24);
        if r.exp + 2 >= 0 {
            let w = pow2((r.exp + 2) as nat);
            lemma_pow2_pos((r.exp + 2) as nat);
            assert(r.mant * w >= r.mant) by (nonlinear_arith)
                requires
                    w >= 1,
                    r.mant >= 0,
            ;
        } else {
            lemma_pow2_adds(2, (-r.exp - 2) as nat);
            let w = pow2((-r.exp - 2) as nat);
            assert(1 * w == w);
        }
    }
}

/// A quarter of the largest sample is at most 8191.
proof fn lemma_quarter_sample(x: Dyadic)
    requires
        is_quarter(x),
    ensures
        0 <= floor_of(product(x, integer(32767), 24)) <= 8191,
        product(x, integer(32767), 24).mant > 0 ==> product(x, integer(32767), 24).exp < 0,
{
    lemma2_to64();
    let n = (x.mant * 32767) as nat;
    let r = product(x, integer(32767), 24);
    if x.mant == 0 {
        assert(0 * pow2(0) == 0);
    } else {
        let a = (-x.exp) as nat;
        let u = pow2(a);
        lemma_pow2_pos(a);
        lemma_rounded_over_pow2(n, 24, a);
        lemma_rounded_shift(n, u, 24, 2);
        assert(n * pow2(2) == 4 * n) by (nonlinear_arith)
            requires
                pow2(2) == 4,
        ;
        lemma_rounded_at_most(4 * n, u, 24, 32767);
        lemma_rounded_normal(n, u, 24);
        if r.exp >= 0 {
            lemma_pow2_adds(r.exp as nat, 2);
            let w = pow2(r.exp as nat) as int;
            assert(r.mant * (w * 4) == 4 * (r.mant * w)) by (nonlinear_arith);
            lemma_pow2_pos(r.exp as nat);
            assert(r.mant * w >= r.mant) by (nonlinear_arith)
                requires
                    r.mant >= 0,
                    w >= 1,
            ;
            assert(false);
        } else {
            let k = (-r.exp) as nat;
            let w = pow2(k) as int;
            lemma_pow2_pos(k);
            assert(4 * r.mant <= 32767 * w) by {
                if k > 2 {
                    lemma_pow2_adds((k - 2) as nat, 2);
                } else if k == 2 {
                    assert(r.mant * pow2(0) == r.mant) by (nonlinear_arith)
                        requires
                            pow2(0) == 1,
                    ;
                } else {
                    assert(r.mant * pow2(1) == 2 * r.mant) by (nonlinear_arith)
                        requires
                            pow2(1) == 2,
                    ;
                }
            }
            vstd::arithmetic::div_mod::lemma_fundamental_div_mod(r.mant, w);
            let q = r.mant / w;
            assert(0 <= q <= 8191) by (nonlinear_arith)
                requires
                    r.mant == w * q + r.mant % w,
                    0 <= r.mant % w < w,
                    0 <= 4 * r.mant <= 32767 * w,
                    w > 0,
            ;
        }
    }
}

/// Fading is a factor between zero and one.
proof fn lemma_envelope(i: nat, n: nat)
    requires
        i <= n,
    ensures
        envelope(i, n).exp <= 0,
        0 <= envelope(i, n).mant <= pow2((-envelope(i, n).exp) as nat),
        envelope(i, n).mant < pow2(24),
        -120 <= envelope(i, n).exp,
{
    lemma2_to64();
    let distance = if n - i < i { (n - i) as nat } else { i };
    let x = envelope(i, n);
    if 0 < distance < 160 {
        lemma_rounded_normal(distance, 160, 24);
        lemma_rounded_at_most(distance, 160, 24, 1);
        assert(distance * pow2(8) >= 160);
        lemma_rounded_exp(distance, 160, 24, -8);
        if x.exp > 0 {
            let w = pow2(x.exp as nat);
            lemma_pow2_pos(x.exp as nat);
            assert(x.mant * w >= x.mant) by (nonlinear_arith)
                requires
                    w >= 1,
                    x.mant >= 0,
            ;
        } else {
            assert(1 * pow2((-x.exp) as nat) == pow2((-x.exp) as nat));
            if x.exp == 0 {
                assert(x.mant * pow2(0) == x.mant) by (nonlinear_arith)
                    requires
                        pow2(0) == 1,
                ;
            }
        }
    }
}

/// The chain of products behind a sample stays small.
proof fn lemma_tone_is_quiet(sine: Dyadic, i: nat, n: nat)
    requires
        sine.exp <= 0,
        0 <= sine.mant <= pow2((-sine.exp) as nat),
        i <= n,
    ensures
        is_quarter(product(sine, volume(), 24)),
        is_quarter(product(product(sine, volume(), 24), envelope(i, n), 24)),
        0 <= tone_size(sine, i, n) <= 8191,
{
    lemma2_to64();
    lemma_quarter_product(volume(), sine);
    lemma_envelope(i, n);
    lemma_quarter_product(product(sine, volume(), 24), envelope(i, n));
    lemma_quarter_sample(product(product(sine, volume(), 24), envelope(i, n), 24));
}

/// A sine is at most one.
proof fn lemma_sine_bound(x: Single)
    requires
        is_sine(x),
    ensures
        x.magnitude().exp <= 0,
        0 <= x.magnitude().mant <= pow2((-x.magnitude().exp) as nat),
        x.magnitude().mant < pow2(24),
        -149 <= x.magnitude().exp,
{
    lemma2_to64();
    let m = x.magnitude();
    lemma_pow2_pos((-m.exp) as nat);
    if m.exp > 0 {
        let w = pow2(m.exp as nat);
        lemma_pow2_strictly_increases(0, m.exp as nat);
        assert(m.mant * w >= w) by (nonlinear_arith)
            requires
                m.mant >= 1,
        ;
    } else {
        assert(1 * pow2((-m.exp) as nat) == pow2((-m.exp) as nat));
        if m.exp == 0 {
            assert(m.mant * 1 == m.mant);
        }
    }
}

/// No tone exceeds a quarter of the range of a sample.
pub proof fn law_chimes_never_clip(sine: Single, i: nat, n: nat)
    requires
        is_sine(sine),
        i < n,
    ensures
        -8191 <= tone_sample(sine, i, n) <= 8191,
        8191 <= i16::MAX / 4,
{
    lemma_sine_bound(sine);
    lemma_tone_is_quiet(sine.magnitude(), i, n);
}

/// How many samples a tone has.
fn samples_in(chime: Chime) -> (r: usize)
    ensures
        r == chime_len(chime),
{
    let ms: u32 = match chime {
        Chime::Start => 120,
        Chime::Done => 150,
        Chime::Error => 300,
    };
    (INPUT_SAMPLE_RATE / 1000 * ms) as usize
}

/// The size of a product.
proof fn lemma_product_exp(x: Dyadic, y: Dyadic, lo: nat, hi: nat)
    requires
        pow2(23) <= x.mant < pow2(24),
        pow2(lo) <= y.mant <= pow2(hi),
    ensures
        pow2(23) <= product(x, y, 24).mant < pow2(24),
        x.exp + y.exp + lo <= product(x, y, 24).exp <= x.exp + y.exp + hi + 1,
{
    let n = (x.mant * y.mant) as nat;
    lemma_pow2_pos(lo);
    lemma_pow2_adds(23, lo);
    lemma_pow2_adds(24, hi);
    let (a, b, c, d) = (pow2(23) as int, pow2(24) as int, pow2(lo) as int, pow2(hi) as int);
    lemma2_to64();
    assert(a * c <= x.mant * y.mant && x.mant * y.mant < b * d && x.mant * y.mant > 0) by (nonlinear_arith)
        requires
            a <= x.mant < b,
            c <= y.mant <= d,
            c > 0,
            a > 0,
    ;
    lemma_rounded_normal(n, 1, 24);
    assert(1 * pow2(23 + lo) == pow2(23 + lo));
    assert(1 * pow2(24 + hi) == pow2(24 + hi));
    lemma_rounded_exp(n, 1, 24, (23 + lo) as int);
    lemma_rounded_exp(n, 1, 24, (24 + hi) as int);
}

/// The angle of sample `i`.
fn phase_of(chime: Chime, i: usize) -> (r: Single)
    requires
        i < 4800,
    ensures
        holds(r, phase(chime, i as nat)),
{
    let freq: u64 = match chime {
        Chime::Start => 880,
        Chime::Done => 660,
        Chime::Error => 220,
    };
    proof {
        lemma2_to64();
        lemma2_to64_rest();
        lemma_pow2_strictly_increases(24, 53);
        lemma_pow2_strictly_increases(13, 120);
    }
    let t: Magnitude = round_quotient(i as u128, 16_000, SINGLE);
    let cycles: Magnitude = multiply(t, Magnitude { mant: freq, exp: 0 }, SINGLE);
    let angle: Magnitude = multiply(cycles, Magnitude { mant: 13_176_795, exp: -21 }, SINGLE);
    proof {
        assert(16_000 * pow2(0) == 16_000);
        if i > 0 {
            assert(i * pow2(14) >= 16_000);
            lemma_rounded_exp(i as nat, 16_000, 24, -14);
            lemma_rounded_exp(i as nat, 16_000, 24, 0);
            lemma_rounded_normal(i as nat, 16_000, 24);
            lemma_product_exp(t@, integer(freq as int), 7, 10);
            lemma_product_exp(cycles@, tau(), 23, 24);
        } else {
            assert(0 * freq == 0);
            assert(0 * 13_176_795 == 0);
        }
    }
    Single::from_magnitude(angle)
}

/// The angles whose sines make a tone.
pub fn chime_phases(chime: Chime) -> (r: Vec<Single>)
    ensures
        r@.len() == chime_len(chime),
        forall|i: int| 0 <= i < r@.len() ==> holds(#[trigger] r@[i], phase(chime, i as nat)),
{
    let n: usize = samples_in(chime);
    let mut r: Vec<Single> = Vec::new();
    let mut i: usize = 0;
    while i < n
        invariant
            n == chime_len(chime),
            i <= n,
            r@.len() == i,
            forall|j: int| 0 <= j < i ==> holds(#[trigger] r@[j], phase(chime, j as nat)),
        decreases n - i,
    {
        r.push(phase_of(chime, i));
        i = i + 1;
    }
    r
}

/// The fading of sample `i` of `n`.
fn fade(i: usize, n: usize) -> (r: Magnitude)
    requires
        i <= n,
    ensures
        r@ == envelope(i as nat, n as nat),
{
    let distance: usize = if n - i < i { n - i } else { i };
    if distance >= 160 {
        Magnitude { mant: 1, exp: 0 }
    } else {
        proof {
            lemma2_to64();
            lemma_pow2_strictly_increases(8, 120);
        }
        round_quotient(distance as u128, 160, SINGLE)
    }
}

/// The integer part of a number of at most 24 significant bits.
fn floor_of_small(x: Magnitude) -> (r: usize)
    requires
        x.mant < pow2(24),
        x.mant > 0 ==> x.exp < 0,
        x.mant == 0 ==> x.exp == 0,
        -2000 <= x.exp,
    ensures
        r == floor_of(x@),
{
    proof {
        if x.exp < 0 {
            let w = pow2((-x.exp) as nat) as int;
            lemma_pow2_pos((-x.exp) as nat);
            vstd::arithmetic::div_mod::lemma_div_is_ordered_by_denominator(x.mant as int, 1, w);
            assert(x.mant as int / 1 == x.mant);
        }
        lemma2_to64();
        lemma2_to64_rest();
        lemma_pow2_strictly_increases(24, 53);
    }
    if x.exp < -60 {
        proof {
            let k = (-x.exp) as nat;
            lemma_pow2_strictly_increases(24, k);
            vstd::arithmetic::div_mod::lemma_basic_div(x.mant as int, pow2(k) as int);
        }
        0
    } else {
        floor_to_usize(x)
    }
}

/// The size of sample `i` of `n`.
fn size_of_sample(sine: Magnitude, i: usize, n: usize) -> (r: i16)
    requires
        sine.mant < pow2(24),
        -149 <= sine.exp <= 0,
        sine.mant <= pow2((-sine.exp) as nat),
        i < n,
    ensures
        r == tone_size(sine@, i as nat, n as nat),
        0 <= r <= 8191,
{
    proof {
        lemma2_to64();
        lemma2_to64_rest();
        lemma_pow2_strictly_increases(24, 53);
        lemma_tone_is_quiet(sine@, i as nat, n as nat);
        lemma_envelope(i as nat, n as nat);
        lemma_quarter_sample(product(product(sine@, volume(), 24), envelope(i as nat, n as nat), 24));
    }
    let softer: Magnitude = multiply(sine, Magnitude { mant: 13_421_773, exp: -26 }, SINGLE);
    let faded: Magnitude = multiply(softer, fade(i, n), SINGLE);
    let scaled: Magnitude = multiply(faded, Magnitude { mant: 32767, exp: 0 }, SINGLE);
    floor_of_small(scaled) as i16
}

/// The samples of a tone at 16 kHz, by the sines of its angles.
pub fn chime_tone(chime: Chime, sines: &[Single]) -> (r: Vec<i16>)
    requires
        sines@.len() == chime_len(chime),
        forall|i: int| 0 <= i < sines@.len() ==> is_sine(#[trigger] sines@[i]),
    ensures
        r@.len() == chime_len(chime),
        forall|i: int|
            0 <= i < r@.len() ==> #[trigger] r@[i] == tone_sample(sines@[i], i as nat, chime_len(chime)),
{
    let n: usize = samples_in(chime);
    let mut r: Vec<i16> = Vec::new();
    let mut i: usize = 0;
    while i < n
        invariant
            n == chime_len(chime),
            sines@.len() == n,
            forall|j: int| 0 <= j < sines@.len() ==> is_sine(#[trigger] sines@[j]),
            i <= n,
            r@.len() == i,
            forall|j: int|
                0 <= j < i ==> #[trigger] r@[j] == tone_sample(sines@[j], j as nat, chime_len(chime)),
        decreases n - i,
    {
        let sine: Single = sines[i];
        proof {
            assert(is_sine(sines@[i as int]));
            lemma_sine_bound(sine);
        }
        let size: i16 = match sine.value() {
            Value::Finite { negative, size } => {
                assert(signed(negative, size@) == signed(sine.is_negative(), sine.magnitude()));
                assert(size@ == sine.magnitude());
                size_of_sample(size, i, n)
            },
            _ => 0,
        };
        if sine.bits >= 0x8000_0000 {
            r.push(-size);
        } else {
            r.push(size);
        }
        i = i + 1;
    }
    r
}

} // verus!
