//! Binary floating-point arithmetic on integers.
//!
//! A non-negative binary number is a significand times a power of two.  The
//! functions here round exact quotients, products, sums and square roots to a
//! given number of significant bits, to nearest with ties to even, which is
//! how IEEE 754 hardware rounds.  The exponent is unbounded: the audio code
//! that uses this module never comes near the overflow or underflow threshold
//! of the hardware formats.

use vstd::arithmetic::power2::{
    lemma_pow2_adds, lemma_pow2_pos, lemma_pow2_strictly_increases, lemma_pow2_unfold, pow2,
};
use vstd::prelude::*;

verus! {

/// The number `mant * 2^exp`, as a mathematical value.
pub struct Dyadic {
    pub mant: int,
    pub exp: int,
}

/// `n` scaled so that `scaled_num(n, e) / scaled_den(d, e)` is `n / d / 2^e`.
pub open spec fn scaled_num(n: nat, e: int) -> nat {
    if e < 0 {
        n * pow2((-e) as nat)
    } else {
        n
    }
}

/// `d` scaled so that `scaled_num(n, e) / scaled_den(d, e)` is `n / d / 2^e`.
pub open spec fn scaled_den(d: nat, e: int) -> nat {
    if e < 0 {
        d
    } else {
        d * pow2(e as nat)
    }
}

/// `n / d >= 2^t`.
pub open spec fn at_least_pow2(n: nat, d: nat, t: int) -> bool {
    scaled_den(d, t) <= scaled_num(n, t)
}

/// `2^t <= n / d < 2^(t + 1)`.
pub open spec fn in_binade(n: nat, d: nat, t: int) -> bool {
    at_least_pow2(n, d, t) && !at_least_pow2(n, d, t + 1)
}

/// The exponent of the largest power of two that does not exceed `n / d`.
pub open spec fn log2_floor(n: nat, d: nat) -> int {
    choose|t: int| in_binade(n, d, t)
}

/// `n / d` rounded to the nearest integer, ties to the even one.
pub open spec fn nearest_even(n: nat, d: nat) -> nat {
    let q = n / d;
    let r = n % d;
    if 2 * r < d || (2 * r == d && q % 2 == 0) {
        q
    } else {
        q + 1
    }
}

/// `n / d` rounded to `p` significant bits, ties to even.
///
/// A result other than zero has exactly `p` significant bits.
pub open spec fn rounded(n: nat, d: nat, p: nat) -> Dyadic {
    if n == 0 {
        Dyadic { mant: 0, exp: 0 }
    } else {
        let e = log2_floor(n, d) - p + 1;
        let m = nearest_even(scaled_num(n, e), scaled_den(d, e));
        if m == pow2(p) {
            Dyadic { mant: pow2((p - 1) as nat) as int, exp: e + 1 }
        } else {
            Dyadic { mant: m as int, exp: e }
        }
    }
}

/// `x * 2^k`; zero keeps its one form.
pub open spec fn shifted(x: Dyadic, k: int) -> Dyadic {
    if x.mant == 0 {
        x
    } else {
        Dyadic { mant: x.mant, exp: x.exp + k }
    }
}

/// `n * 2^exp` rounded to `p` significant bits, ties to even.
pub open spec fn round_at(n: int, exp: int, p: nat) -> Dyadic {
    if n < 0 {
        let r = shifted(rounded((-n) as nat, 1, p), exp);
        Dyadic { mant: -r.mant, exp: r.exp }
    } else {
        shifted(rounded(n as nat, 1, p), exp)
    }
}

/// The integer `n`, exactly.
pub open spec fn integer(n: int) -> Dyadic {
    Dyadic { mant: n, exp: 0 }
}

/// `x * y` rounded to `p` significant bits.
pub open spec fn product(x: Dyadic, y: Dyadic, p: nat) -> Dyadic {
    round_at(x.mant * y.mant, x.exp + y.exp, p)
}

/// `x / y` rounded to `p` significant bits, for a positive `y` and an `x` that
/// is not negative.
pub open spec fn quotient(x: Dyadic, y: Dyadic, p: nat) -> Dyadic {
    shifted(rounded(x.mant as nat, y.mant as nat, p), x.exp - y.exp)
}

/// `x + y` rounded to `p` significant bits.
pub open spec fn sum(x: Dyadic, y: Dyadic, p: nat) -> Dyadic {
    let e = if x.exp <= y.exp { x.exp } else { y.exp };
    round_at(
        x.mant * pow2((x.exp - e) as nat) + y.mant * pow2((y.exp - e) as nat),
        e,
        p,
    )
}

/// The integer part of an `x` that is not negative.
pub open spec fn floor_of(x: Dyadic) -> int {
    if x.exp >= 0 {
        x.mant * pow2(x.exp as nat)
    } else {
        x.mant / pow2((-x.exp) as nat) as int
    }
}

/// What an `x` that is not negative has beyond its integer part.
pub open spec fn fraction_of(x: Dyadic) -> Dyadic {
    if x.exp >= 0 {
        integer(0)
    } else {
        Dyadic { mant: x.mant % pow2((-x.exp) as nat) as int, exp: x.exp }
    }
}

/// The integer nearest to `x`, ties away from zero.
pub open spec fn round_half_away(x: Dyadic) -> int {
    if x.exp >= 0 {
        x.mant * pow2(x.exp as nat)
    } else {
        let unit = pow2((-x.exp) as nat) as int;
        if x.mant >= 0 {
            (2 * x.mant + unit) / (2 * unit)
        } else {
            -((-2 * x.mant + unit) / (2 * unit))
        }
    }
}

proof fn lemma_pow2_step(k: nat)
    ensures
        pow2(k + 1) == 2 * pow2(k),
        pow2(k) > 0,
{
    lemma_pow2_unfold(k + 1);
    lemma_pow2_pos(k);
}

proof fn lemma_at_least_step(n: nat, d: nat, t: int)
    requires
        at_least_pow2(n, d, t + 1),
    ensures
        at_least_pow2(n, d, t),
{
    if t >= 0 {
        lemma_pow2_step(t as nat);
        assert(d * pow2(t as nat) <= d * (2 * pow2(t as nat))) by (nonlinear_arith);
    } else {
        lemma_pow2_step((-t - 1) as nat);
        lemma_pow2_step(0);
        assert(pow2(0) == 1) by { vstd::arithmetic::power2::lemma2_to64(); }
        let x = pow2((-t - 1) as nat);
        assert(n * x <= n * (2 * x)) by (nonlinear_arith);
        assert(n * 1 == n) by (nonlinear_arith);
        assert(d * 1 == d) by (nonlinear_arith);
    }
}

/// `n / d >= 2^t` holds for every smaller `t` too.
pub proof fn lemma_at_least_down(n: nat, d: nat, s: int, t: int)
    requires
        at_least_pow2(n, d, t),
        s <= t,
    ensures
        at_least_pow2(n, d, s),
    decreases t - s,
{
    if s < t {
        lemma_at_least_step(n, d, t - 1);
        lemma_at_least_down(n, d, s, t - 1);
    }
}

/// The binade of `n / d` is unique.
pub proof fn lemma_binade_unique(n: nat, d: nat, t: int)
    requires
        in_binade(n, d, t),
    ensures
        log2_floor(n, d) == t,
{
    let u = log2_floor(n, d);
    assert(in_binade(n, d, u));
    if u < t {
        lemma_at_least_down(n, d, u + 1, t);
    }
    if t < u {
        lemma_at_least_down(n, d, t + 1, u);
    }
}

/// `n / d >= 2^(e + q)` is `n / d / 2^e >= 2^q`.
pub proof fn lemma_at_least_scaled(n: nat, d: nat, e: int, q: nat)
    ensures
        at_least_pow2(n, d, e + q) <==> pow2(q) * scaled_den(d, e) <= scaled_num(n, e),
{
    let t = e + q;
    if e >= 0 {
        lemma_pow2_adds(e as nat, q);
        let a = pow2(e as nat);
        let b = pow2(q);
        assert(d * (a * b) == b * (d * a)) by (nonlinear_arith);
    } else if t >= 0 {
        let k = (-e) as nat;
        lemma_pow2_adds(t as nat, k);
        let a = pow2(t as nat);
        let b = pow2(k);
        lemma_pow2_pos(k);
        assert(d * a <= n <==> (a * b) * d <= n * b) by (nonlinear_arith)
            requires b > 0;
    } else {
        let k = (-t) as nat;
        lemma_pow2_adds(k, q);
        let a = pow2(k);
        let b = pow2(q);
        lemma_pow2_pos(q);
        assert(d <= n * a <==> b * d <= n * (a * b)) by (nonlinear_arith)
            requires b > 0;
    }
}


proof fn lemma_nearest_ge(n: nat, d: nat, c: nat)
    requires
        d > 0,
        c * d <= n,
    ensures
        c <= nearest_even(n, d),
{
    let q = n / d;
    vstd::arithmetic::div_mod::lemma_fundamental_div_mod(n as int, d as int);
    assert(c <= q) by (nonlinear_arith)
        requires
            c * d <= n,
            n == d * q + n % d,
            n % d < d,
            d > 0;
}

proof fn lemma_nearest_le(n: nat, d: nat, c: nat)
    requires
        d > 0,
        n <= c * d,
    ensures
        nearest_even(n, d) <= c,
{
    let q = n / d;
    vstd::arithmetic::div_mod::lemma_fundamental_div_mod(n as int, d as int);
    assert(q < c || (q == c && n % d == 0)) by (nonlinear_arith)
        requires
            n <= c * d,
            n == d * q + n % d,
            0 <= n % d < d,
            d > 0;
}

proof fn lemma_pow2_exceeds(n: nat)
    ensures
        n < pow2(n),
    decreases n,
{
    if n == 0 {
        lemma_pow2_pos(0);
    } else {
        lemma_pow2_exceeds((n - 1) as nat);
        lemma_pow2_step((n - 1) as nat);
    }
}

proof fn lemma_binade_from(n: nat, d: nat, s: int)
    requires
        n > 0,
        d > 0,
        at_least_pow2(n, d, s),
    ensures
        exists|t: int| in_binade(n, d, t),
    decreases n - s,
{
    if s >= n {
        lemma_pow2_exceeds(s as nat);
        assert(d * pow2(s as nat) >= pow2(s as nat)) by (nonlinear_arith)
            requires
                d >= 1,
        ;
    } else if at_least_pow2(n, d, s + 1) {
        lemma_binade_from(n, d, s + 1);
    } else {
        assert(in_binade(n, d, s));
    }
}

/// Every positive quotient lies in a binade.
pub proof fn lemma_binade_exists(n: nat, d: nat)
    requires
        n > 0,
        d > 0,
    ensures
        in_binade(n, d, log2_floor(n, d)),
{
    lemma_pow2_exceeds(d);
    assert(n * pow2(d) >= pow2(d)) by (nonlinear_arith)
        requires
            n >= 1,
    ;
    assert(at_least_pow2(n, d, -(d as int)));
    lemma_binade_from(n, d, -(d as int));
}

/// A positive quotient, scaled by the exponent that it is rounded at, lies in
/// `[2^(p - 1), 2^p)`.
proof fn lemma_scaled_range(n: nat, d: nat, p: nat, t: int)
    requires
        d > 0,
        p > 0,
        in_binade(n, d, t),
    ensures
        scaled_den(d, t - p + 1) > 0,
        pow2((p - 1) as nat) * scaled_den(d, t - p + 1) <= scaled_num(n, t - p + 1),
        scaled_num(n, t - p + 1) < pow2(p) * scaled_den(d, t - p + 1),
{
    let e = t - p + 1;
    lemma_at_least_scaled(n, d, e, (p - 1) as nat);
    lemma_at_least_scaled(n, d, e, p);
    if e >= 0 {
        lemma_pow2_pos(e as nat);
        assert(d * pow2(e as nat) > 0) by (nonlinear_arith)
            requires
                d > 0,
                pow2(e as nat) > 0,
        ;
    }
}

/// A rounded positive quotient has exactly `p` significant bits.
pub proof fn lemma_rounded_normal(n: nat, d: nat, p: nat)
    requires
        n > 0,
        d > 0,
        p > 0,
    ensures
        pow2((p - 1) as nat) <= rounded(n, d, p).mant < pow2(p),
{
    let t = log2_floor(n, d);
    lemma_binade_exists(n, d);
    lemma_scaled_range(n, d, p, t);
    let e = t - p + 1;
    lemma_nearest_ge(scaled_num(n, e), scaled_den(d, e), pow2((p - 1) as nat));
    lemma_nearest_le(scaled_num(n, e), scaled_den(d, e), pow2(p));
    lemma_pow2_step((p - 1) as nat);
}

/// The number `mant * 2^exp`.
#[derive(Clone, Copy, Debug, PartialEq, Eq)]
pub struct Magnitude {
    pub mant: u64,
    pub exp: i32,
}

impl View for Magnitude {
    type V = Dyadic;

    open spec fn view(&self) -> Dyadic {
        Dyadic { mant: self.mant as int, exp: self.exp as int }
    }
}

proof fn lemma_shl_pow2(k: u32)
    requires
        k < 128,
    ensures
        (1u128 << k) == pow2(k as nat),
    decreases k,
{
    if k == 0 {
        assert(1u128 << 0u32 == 1u128) by (bit_vector);
        vstd::arithmetic::power2::lemma2_to64();
    } else {
        let j: u32 = (k - 1) as u32;
        lemma_shl_pow2(j);
        lemma_pow2_step(j as nat);
        assert((1u128 << k) == 2 * (1u128 << j)) by (bit_vector)
            requires
                k < 128,
                k == j + 1,
        ;
    }
}

/// `2^k`.
pub fn power_of_two(k: u32) -> (r: u128)
    requires
        k < 128,
    ensures
        r == pow2(k as nat),
        r > 0,
{
    proof {
        lemma_shl_pow2(k);
        lemma_pow2_pos(k as nat);
    }
    1u128 << k
}

/// The number of bits that `n` takes.
fn bit_length(n: u128) -> (k: u32)
    ensures
        k <= 128,
        n < pow2(k as nat),
        k == 0 <==> n == 0,
        k > 0 ==> pow2((k - 1) as nat) <= n,
{
    let mut x: u128 = n;
    let mut k: u32 = 0;
    let mut s: u32 = 64;
    proof {
        vstd::arithmetic::power2::lemma2_to64();
        lemma_pow2_adds(64, 64);
        assert(n as int / 1 == n);
    }
    while s > 0
        invariant
            s == 64 || s == 32 || s == 16 || s == 8 || s == 4 || s == 2 || s == 1 || s == 0,
            k <= 128 - (if s == 0 { 1int } else { 2 * s }),
            x < pow2(if s == 0 { 1 } else { (2 * s) as nat }),
            x == n as int / pow2(k as nat) as int,
            n > 0 ==> x > 0,
        decreases s,
    {
        let c: u128 = power_of_two(s);
        if x >= c {
            proof {
                lemma_pow2_adds(k as nat, s as nat);
                lemma_pow2_pos(k as nat);
                vstd::arithmetic::div_mod::lemma_div_denominator(n as int, pow2(k as nat) as int, c as int);
                lemma_pow2_adds(s as nat, s as nat);
                vstd::arithmetic::div_mod::lemma_fundamental_div_mod(x as int, c as int);
                let q = x as int / c as int;
                assert(0 < q < c) by (nonlinear_arith)
                    requires
                        x == c * q + x as int % c as int,
                        0 <= x as int % c as int,
                        (x as int % c as int) < c,
                        c <= x < c * c,
                        c > 0,
                ;
            }
            x = x / c;
            k = k + s;
        }
        s = s / 2;
    }
    proof {
        vstd::arithmetic::power2::lemma2_to64();
        lemma_pow2_pos(k as nat);
        lemma_pow2_step(k as nat);
        let w = pow2(k as nat) as int;
        vstd::arithmetic::div_mod::lemma_fundamental_div_mod(n as int, w);
        vstd::arithmetic::div_mod::lemma_mod_bound(n as int, w);
        let q = n as int / w;
        assert(q == 1 ==> w * q == w) by (nonlinear_arith);
    }
    if x == 0 {
        0
    } else {
        k + 1
    }
}

proof fn lemma_pow2_mono(a: nat, b: nat)
    requires
        a <= b,
    ensures
        pow2(a) <= pow2(b),
{
    if a < b {
        lemma_pow2_strictly_increases(a, b);
    }
}

/// `pow2(128)`, the first number past `u128`.
proof fn lemma_pow2_128()
    ensures
        pow2(128) == u128::MAX + 1,
{
    vstd::arithmetic::power2::lemma2_to64();
    lemma_pow2_adds(64, 64);
}

/// `2^a <= n` and `d <= 2^b` give `2^(a - b) <= n / d`.
proof fn lemma_at_least_from_bits(n: nat, d: nat, a: nat, b: nat)
    requires
        pow2(a) <= n,
        d <= pow2(b),
    ensures
        at_least_pow2(n, d, a - b),
{
    if a >= b {
        let k = (a - b) as nat;
        lemma_pow2_adds(b, k);
        let (x, y) = (pow2(b), pow2(k));
        assert(d * y <= x * y) by (nonlinear_arith)
            requires
                d <= x,
        ;
    } else {
        let k = (b - a) as nat;
        lemma_pow2_adds(a, k);
        let (x, y) = (pow2(a), pow2(k));
        assert(n * y >= x * y) by (nonlinear_arith)
            requires
                n >= x,
        ;
    }
}

/// `n < 2^a` and `2^b <= d` give `n / d < 2^(a - b)`.
proof fn lemma_below_from_bits(n: nat, d: nat, a: nat, b: nat)
    requires
        n < pow2(a),
        pow2(b) <= d,
    ensures
        !at_least_pow2(n, d, a - b),
{
    if a >= b {
        let k = (a - b) as nat;
        lemma_pow2_adds(b, k);
        let (x, y) = (pow2(b), pow2(k));
        assert(d * y >= x * y) by (nonlinear_arith)
            requires
                d >= x,
        ;
    } else {
        let k = (b - a) as nat;
        lemma_pow2_adds(a, k);
        lemma_pow2_pos(k);
        let (x, y) = (pow2(a), pow2(k));
        assert(n * y < x * y) by (nonlinear_arith)
            requires
                n < x,
                y > 0,
        ;
    }
}

/// `(scaled_num(n, e), scaled_den(d, e))`, where both fit.
fn scale_quotient(n: u128, d: u128, e: i32, ln: u32, ld: u32) -> (r: (u128, u128))
    requires
        n < pow2(ln as nat),
        d < pow2(ld as nat),
        e >= 0 ==> ld + e <= 127,
        e < 0 ==> ln - e <= 127,
        -127 <= e <= 127,
        ln <= 127,
        ld <= 127,
    ensures
        r.0 == scaled_num(n as nat, e as int),
        r.1 == scaled_den(d as nat, e as int),
        e >= 0 ==> r.1 <= pow2((ld + e) as nat),
        e < 0 ==> r.0 <= pow2((ln - e) as nat),
{
    proof {
        lemma_pow2_128();
    }
    if e >= 0 {
        let k: u128 = power_of_two(e as u32);
        proof {
            lemma_pow2_adds(ld as nat, e as nat);
            lemma_pow2_mono((ld + e) as nat, 127);
            lemma_pow2_strictly_increases(127, 128);
            let x = pow2(ld as nat);
            assert(d * k <= x * k) by (nonlinear_arith)
                requires
                    d <= x,
            ;
        }
        (n, d * k)
    } else {
        let k: u128 = power_of_two((-e) as u32);
        proof {
            lemma_pow2_adds(ln as nat, (-e) as nat);
            lemma_pow2_mono((ln - e) as nat, 127);
            lemma_pow2_strictly_increases(127, 128);
            let x = pow2(ln as nat);
            assert(n * k <= x * k) by (nonlinear_arith)
                requires
                    n <= x,
            ;
        }
        (n * k, d)
    }
}

/// Rounds `n / d` to `p` significant bits, ties to even.
pub fn round_quotient(n: u128, d: u128, p: u32) -> (r: Magnitude)
    requires
        0 < d < pow2(64),
        n < pow2(120),
        0 < p <= 53,
    ensures
        r@ == rounded(n as nat, d as nat, p as nat),
        r.mant < pow2(p as nat),
        n > 0 ==> r.mant >= pow2((p - 1) as nat),
        n == 0 ==> r.mant == 0 && r.exp == 0,
        -120 <= r.exp <= 120,
{
    if n == 0 {
        proof {
            lemma_pow2_pos(p as nat);
        }
        return Magnitude { mant: 0, exp: 0 };
    }
    let ln: u32 = bit_length(n);
    let ld: u32 = bit_length(d);
    proof {
        if ln > 120 {
            lemma_pow2_mono(120, (ln - 1) as nat);
        }
        if ld > 64 {
            lemma_pow2_mono(64, (ld - 1) as nat);
        }
        lemma_at_least_from_bits(n as nat, d as nat, (ln - 1) as nat, ld as nat);
        lemma_below_from_bits(n as nat, d as nat, ln as nat, (ld - 1) as nat);
    }
    let top: i32 = ln as i32 - ld as i32;
    let (top_num, top_den) = scale_quotient(n, d, top, ln, ld);
    let t: i32 = if top_den <= top_num { top } else { top - 1 };
    assert(in_binade(n as nat, d as nat, t as int));
    let e: i32 = t - p as i32 + 1;
    let (num, den) = scale_quotient(n, d, e, ln, ld);
    proof {
        lemma_binade_unique(n as nat, d as nat, t as int);
        lemma_scaled_range(n as nat, d as nat, p as nat, t as int);
        lemma_rounded_normal(n as nat, d as nat, p as nat);
        lemma_nearest_le(num as nat, den as nat, pow2(p as nat));
        lemma_pow2_mono(p as nat, 53);
        vstd::arithmetic::power2::lemma2_to64_rest();
        vstd::arithmetic::div_mod::lemma_fundamental_div_mod(num as int, den as int);
    }
    let q: u128 = num / den;
    let rem: u128 = num % den;
    let up: bool = rem > den - rem || (rem == den - rem && q % 2 == 1);
    let m: u128 = if up { q + 1 } else { q };
    assert(m == nearest_even(num as nat, den as nat));
    if m == power_of_two(p) {
        Magnitude { mant: power_of_two(p - 1) as u64, exp: e + 1 }
    } else {
        Magnitude { mant: m as u64, exp: e }
    }
}

proof fn lemma_nearest_common_factor(n: nat, d: nat, c: nat)
    requires
        d > 0,
        c > 0,
    ensures
        nearest_even(n * c, d * c) == nearest_even(n, d),
{
    let q = n as int / d as int;
    let r = n as int % d as int;
    vstd::arithmetic::div_mod::lemma_fundamental_div_mod(n as int, d as int);
    assert(n * c == q * (d * c) + r * c && 0 <= r * c < d * c && d * c > 0) by (nonlinear_arith)
        requires
            n == d * q + r,
            0 <= r < d,
            c > 0,
    ;
    vstd::arithmetic::div_mod::lemma_fundamental_div_mod_converse((n * c) as int, (d * c) as int, q, r * c);
    assert((2 * r < d <==> 2 * (r * c) < d * c) && (2 * r == d <==> 2 * (r * c) == d * c))
        by (nonlinear_arith)
        requires
            c > 0,
    ;
}

/// Two quotients of the same value are rounded alike.
proof fn lemma_nearest_same_value(n: nat, d: nat, m: nat, k: nat)
    requires
        d > 0,
        k > 0,
        n * k == m * d,
    ensures
        nearest_even(n, d) == nearest_even(m, k),
{
    lemma_nearest_common_factor(n, d, k);
    lemma_nearest_common_factor(m, k, d);
    assert(d * k == k * d) by (nonlinear_arith);
}

proof fn lemma_scaled_shift(n: nat, d: nat, e: int, k: nat)
    ensures
        scaled_num(n * pow2(k), e + k) * scaled_den(d, e) == scaled_num(n, e) * scaled_den(d, e + k),
{
    lemma_pow2_pos(k);
    if e >= 0 {
        lemma_pow2_adds(e as nat, k);
        let (a, b) = (pow2(e as nat), pow2(k));
        assert((n * b) * (d * a) == n * (d * (a * b))) by (nonlinear_arith);
    } else if e + k >= 0 {
        let j = (-e) as nat;
        let i = (e + k) as nat;
        lemma_pow2_adds(i, j);
        let (a, b) = (pow2(i), pow2(j));
        assert((n * (a * b)) * d == (n * b) * (d * a)) by (nonlinear_arith);
    } else {
        let j = (-(e + k)) as nat;
        lemma_pow2_adds(j, k);
        let (a, b) = (pow2(j), pow2(k));
        assert(((n * b) * a) * d == (n * (a * b)) * d) by (nonlinear_arith);
    }
}

/// Multiplying by a power of two commutes with rounding.
pub proof fn lemma_rounded_shift(n: nat, d: nat, p: nat, k: nat)
    requires
        d > 0,
        p > 0,
    ensures
        rounded(n * pow2(k), d, p) == shifted(rounded(n, d, p), k as int),
{
    lemma_pow2_pos(k);
    if n == 0 {
        assert(0 * pow2(k) == 0) by (nonlinear_arith);
    } else {
        let m = n * pow2(k);
        assert(m > 0) by (nonlinear_arith)
            requires
                m == n * pow2(k),
                n > 0,
                pow2(k) > 0,
        ;
        let t = log2_floor(n, d);
        lemma_binade_exists(n, d);
        lemma_at_least_shift(n, d, t, k);
        lemma_at_least_shift(n, d, t + 1, k);
        lemma_binade_unique(m, d, t + k);
        let e = t - p + 1;
        lemma_scaled_shift(n, d, e, k);
        lemma_scaled_range(n, d, p, t);
        lemma_scaled_range(m, d, p, t + k);
        lemma_nearest_same_value(
            scaled_num(m, e + k),
            scaled_den(d, e + k),
            scaled_num(n, e),
            scaled_den(d, e),
        );
        lemma_rounded_normal(n, d, p);
        lemma_pow2_pos((p - 1) as nat);
    }
}

proof fn lemma_at_least_shift(n: nat, d: nat, t: int, k: nat)
    ensures
        at_least_pow2(n * pow2(k), d, t + k) <==> at_least_pow2(n, d, t),
{
    lemma_pow2_pos(k);
    if t >= 0 {
        lemma_pow2_adds(t as nat, k);
        let (a, b) = (pow2(t as nat), pow2(k));
        assert(d * (a * b) <= n * b <==> d * a <= n) by (nonlinear_arith)
            requires
                b > 0,
        ;
    } else if t + k >= 0 {
        let j = (-t) as nat;
        let i = (t + k) as nat;
        lemma_pow2_adds(i, j);
        lemma_pow2_pos(i);
        let (a, b) = (pow2(i), pow2(j));
        assert(d * a <= n * (a * b) <==> d <= n * b) by (nonlinear_arith)
            requires
                a > 0,
        ;
    } else {
        let j = (-(t + k)) as nat;
        lemma_pow2_adds(j, k);
        let (a, b) = (pow2(j), pow2(k));
        assert((n * b) * a == n * (a * b)) by (nonlinear_arith);
    }
}

/// Rounding keeps what already fits.
pub proof fn lemma_rounded_exact(n: nat, p: nat)
    requires
        0 < n < pow2(p),
    ensures
        rounded(n, 1, p).exp <= 0,
        rounded(n, 1, p).mant == n * pow2((-rounded(n, 1, p).exp) as nat),
{
    let t = log2_floor(n, 1);
    lemma_binade_exists(n, 1);
    let e = t - p + 1;
    assert(p > 0) by {
        vstd::arithmetic::power2::lemma2_to64();
    }
    if e > 0 {
        lemma_at_least_down(n, 1, p as int, t);
    }
    lemma_scaled_range(n, 1, p, t);
    vstd::arithmetic::power2::lemma2_to64();
    let num = scaled_num(n, e);
    assert(scaled_den(1, e) == 1);
    assert(num / 1 == num && num % 1 == 0);
    assert(num < pow2(p)) by {
        assert(pow2(p) * 1 == pow2(p)) by (nonlinear_arith);
    }
    assert(nearest_even(num, 1) == num);
    if e == 0 {
        assert(n * pow2(0) == n) by (nonlinear_arith)
            requires
                pow2(0) == 1,
        ;
    }
}

/// The exponent of a rounded quotient follows its size.
pub proof fn lemma_rounded_exp(n: nat, d: nat, p: nat, t: int)
    requires
        n > 0,
        d > 0,
        p > 0,
    ensures
        at_least_pow2(n, d, t) ==> rounded(n, d, p).exp >= t - p + 1,
        !at_least_pow2(n, d, t) ==> rounded(n, d, p).exp <= t - p + 1,
{
    let u = log2_floor(n, d);
    lemma_binade_exists(n, d);
    if at_least_pow2(n, d, t) && u < t {
        lemma_at_least_down(n, d, u + 1, t);
    }
    if !at_least_pow2(n, d, t) && u >= t {
        lemma_at_least_down(n, d, t, u);
    }
}

/// A common factor does not change a rounded quotient.
pub proof fn lemma_rounded_common_factor(n: nat, d: nat, p: nat, c: nat)
    requires
        d > 0,
        p > 0,
        c > 0,
    ensures
        rounded(n * c, d * c, p) == rounded(n, d, p),
{
    if n == 0 {
        assert(0 * c == 0) by (nonlinear_arith);
    } else {
        let t = log2_floor(n, d);
        lemma_binade_exists(n, d);
        assert forall|u: int| at_least_pow2(n * c, d * c, u) <==> at_least_pow2(n, d, u) by {
            lemma_scaled_factor(n, d, u, c);
            let (a, b) = (scaled_num(n, u), scaled_den(d, u));
            assert(b * c <= a * c <==> b <= a) by (nonlinear_arith)
                requires
                    c > 0,
            ;
        }
        lemma_binade_unique(n * c, d * c, t);
        let e = t - p + 1;
        lemma_scaled_factor(n, d, e, c);
        lemma_scaled_range(n, d, p, t);
        lemma_nearest_common_factor(scaled_num(n, e), scaled_den(d, e), c);
        assert(n * c > 0) by (nonlinear_arith)
            requires
                n > 0,
                c > 0,
        ;
    }
}

proof fn lemma_scaled_factor(n: nat, d: nat, e: int, c: nat)
    ensures
        scaled_num(n * c, e) == scaled_num(n, e) * c,
        scaled_den(d * c, e) == scaled_den(d, e) * c,
{
    if e < 0 {
        let a = pow2((-e) as nat);
        assert((n * c) * a == (n * a) * c) by (nonlinear_arith);
    } else {
        let a = pow2(e as nat);
        assert((d * c) * a == (d * a) * c) by (nonlinear_arith);
    }
}

/// Dividing by a power of two commutes with rounding.
pub proof fn lemma_rounded_over_pow2(n: nat, p: nat, k: nat)
    requires
        p > 0,
    ensures
        shifted(rounded(n, 1, p), -k) == rounded(n, pow2(k), p),
{
    lemma_pow2_pos(k);
    lemma_rounded_common_factor(n, 1, p, pow2(k));
    assert(1 * pow2(k) == pow2(k));
    lemma_rounded_shift(n, pow2(k), p, k);
}

/// `x <= c`.
pub open spec fn at_most(x: Dyadic, c: int) -> bool {
    if x.exp >= 0 {
        x.mant * pow2(x.exp as nat) <= c
    } else {
        x.mant <= c * pow2((-x.exp) as nat)
    }
}

/// `x >= c`.
pub open spec fn at_least(x: Dyadic, c: int) -> bool {
    if x.exp >= 0 {
        x.mant * pow2(x.exp as nat) >= c
    } else {
        x.mant >= c * pow2((-x.exp) as nat)
    }
}

/// Rounding does not cross an integer of at most `p` bits from below.
pub proof fn lemma_rounded_at_most(n: nat, d: nat, p: nat, c: nat)
    requires
        d > 0,
        p > 0,
        n <= c * d,
        c < pow2(p),
    ensures
        at_most(rounded(n, d, p), c as int),
{
    vstd::arithmetic::power2::lemma2_to64();
    let x = rounded(n, d, p);
    assert(x.mant * pow2(0) == x.mant) by (nonlinear_arith)
        requires
            pow2(0) == 1,
    ;
    if n > 0 {
        let t = log2_floor(n, d);
        lemma_binade_exists(n, d);
        lemma_scaled_range(n, d, p, t);
        let e = t - p + 1;
        let (num, den) = (scaled_num(n, e), scaled_den(d, e));
        let m = nearest_even(num, den);
        lemma_pow2_step((p - 1) as nat);
        if e > 0 {
            // n / d would be at least 2^p.
            lemma_at_least_down(n, d, p as int, t);
            let x = pow2(p);
            assert(c * d < d * x) by (nonlinear_arith)
                requires
                    c < x,
                    d > 0,
            ;
            assert(false);
        } else if e == 0 {
            assert(den == d) by (nonlinear_arith)
                requires
                    den == d * pow2(0),
                    pow2(0) == 1,
            ;
            lemma_nearest_le(num, den, c);
            assert(m * 1 == m);
        } else {
            let u = pow2((-e) as nat);
            assert(num <= (c * u) * den) by (nonlinear_arith)
                requires
                    n <= c * d,
                    num == n * u,
                    den == d,
            ;
            lemma_nearest_le(num, den, c * u);
            if m == pow2(p) {
                lemma_half_bound(e, c, p);
            }
        }
    }
}

/// `2^p <= c * 2^k` gives `2^(p - 1) <= c * 2^(k - 1)`.
proof fn lemma_half_bound(e: int, c: nat, p: nat)
    requires
        e < 0,
        p > 0,
        pow2(p) <= c * pow2((-e) as nat),
    ensures
        e + 1 < 0 ==> pow2((p - 1) as nat) <= c * pow2((-e - 1) as nat),
        e + 1 == 0 ==> pow2((p - 1) as nat) <= c,
{
    lemma_pow2_step((p - 1) as nat);
    lemma_pow2_step((-e - 1) as nat);
    vstd::arithmetic::power2::lemma2_to64();
    let (a, b) = (pow2((p - 1) as nat), pow2((-e - 1) as nat));
    assert(a <= c * b) by (nonlinear_arith)
        requires
            2 * a <= c * (2 * b),
    ;
    assert(c * 1 == c);
}

/// Rounding does not cross an integer of at most `p` bits from above.
pub proof fn lemma_rounded_at_least(n: nat, d: nat, p: nat, c: nat)
    requires
        d > 0,
        p > 0,
        c * d <= n,
        c < pow2(p),
    ensures
        at_least(rounded(n, d, p), c as int),
{
    vstd::arithmetic::power2::lemma2_to64();
    let x = rounded(n, d, p);
    assert(x.mant * pow2(0) == x.mant) by (nonlinear_arith)
        requires
            pow2(0) == 1,
    ;
    if n == 0 {
        assert(c == 0) by (nonlinear_arith)
            requires
                c * d <= 0,
                d > 0,
        ;
    } else {
        let t = log2_floor(n, d);
        lemma_binade_exists(n, d);
        lemma_scaled_range(n, d, p, t);
        lemma_rounded_normal(n, d, p);
        let e = t - p + 1;
        let (num, den) = (scaled_num(n, e), scaled_den(d, e));
        let m = nearest_even(num, den);
        lemma_pow2_step((p - 1) as nat);
        lemma_nearest_le(num, den, pow2(p));
        if x.exp >= 1 {
            lemma_pow2_mono(1, x.exp as nat);
            let (a, b) = (pow2((p - 1) as nat), pow2(x.exp as nat));
            assert(x.mant * b >= 2 * a) by (nonlinear_arith)
                requires
                    x.mant >= a,
                    b >= 2,
            ;
        } else if e == 0 {
            assert(den == d) by (nonlinear_arith)
                requires
                    den == d * pow2(0),
                    pow2(0) == 1,
            ;
            lemma_nearest_ge(num, den, c);
        } else {
            let u = pow2((-e) as nat);
            assert(num >= (c * u) * den) by (nonlinear_arith)
                requires
                    n >= c * d,
                    num == n * u,
                    den == d,
            ;
            lemma_nearest_ge(num, den, c * u);
            if m == pow2(p) {
                lemma_pow2_step((-e - 1) as nat);
                let (a, b) = (pow2((p - 1) as nat), pow2((-e - 1) as nat));
                assert(a >= c * b) by (nonlinear_arith)
                    requires
                        2 * a >= c * (2 * b),
                ;
                assert(c * 1 == c);
            }
        }
    }
}

/// `x` with its exponent lowered by `j`: the same number.
pub open spec fn lowered(x: Dyadic, j: nat) -> Dyadic {
    Dyadic { mant: x.mant * pow2(j), exp: x.exp - j }
}

pub proof fn lemma_half_away_lowered(x: Dyadic, j: nat)
    requires
        x.exp <= 0,
    ensures
        round_half_away(lowered(x, j)) == round_half_away(x),
{
    vstd::arithmetic::power2::lemma2_to64();
    let k = (-x.exp) as nat;
    lemma_pow2_pos(j);
    lemma_pow2_pos(k);
    lemma_pow2_adds(k, j);
    let (a, b) = (pow2(k) as int, pow2(j) as int);
    lemma_half_away_factor(x.mant, a, b);
    lemma_half_away_factor(-x.mant, a, b);
    assert((-x.mant) * b == -(x.mant * b)) by (nonlinear_arith);
    assert(x.mant >= 0 <==> x.mant * b >= 0) by (nonlinear_arith)
        requires
            b > 0,
    ;
    if k == 0 {
        assert((2 * x.mant + 1) / 2 == x.mant);
        assert((-2 * x.mant + 1) / 2 == -x.mant);
        if j == 0 {
            assert(x.mant * 1 == x.mant);
        }
    }
}

proof fn lemma_half_away_factor(m: int, a: int, b: int)
    requires
        a > 0,
        b > 0,
    ensures
        (2 * (m * b) + a * b) / (2 * (a * b)) == (2 * m + a) / (2 * a),
{
    vstd::arithmetic::div_mod::lemma_fundamental_div_mod(2 * m + a, 2 * a);
    let q = (2 * m + a) / (2 * a);
    let r = (2 * m + a) % (2 * a);
    assert(2 * (m * b) + a * b == q * (2 * (a * b)) + r * b && 0 <= r * b < 2 * (a * b))
        by (nonlinear_arith)
        requires
            2 * m + a == (2 * a) * q + r,
            0 <= r < 2 * a,
            b > 0,
            a > 0,
    ;
    vstd::arithmetic::div_mod::lemma_fundamental_div_mod_converse(
        2 * (m * b) + a * b,
        2 * (a * b),
        q,
        r * b,
    );
}

/// The sum with an integer does not depend on how a number is written.
pub proof fn lemma_sum_lowered(a: int, x: Dyadic, p: nat, j: nat)
    requires
        x.exp <= 0,
        p > 0,
    ensures
        sum(integer(a), lowered(x, j), p) == sum(integer(a), x, p),
{
    vstd::arithmetic::power2::lemma2_to64();
    let k = (-x.exp) as nat;
    lemma_pow2_adds(k, j);
    let (u, v) = (pow2(k) as int, pow2(j) as int);
    let s = a * u + x.mant * 1;
    assert(a * (u * v) + (x.mant * v) * 1 == s * v) by (nonlinear_arith)
        requires
            s == a * u + x.mant * 1,
    ;
    lemma_pow2_pos(j);
    if s < 0 {
        lemma_rounded_shift((-s) as nat, 1, p, j);
        assert((-s) * v == -(s * v)) by (nonlinear_arith);
        assert(s * v < 0) by (nonlinear_arith)
            requires
                s < 0,
                v > 0,
        ;
    } else {
        lemma_rounded_shift(s as nat, 1, p, j);
        assert(s * v >= 0) by (nonlinear_arith)
            requires
                s >= 0,
                v > 0,
        ;
    }
}

/// Rounding to an integer does not cross an integer from below.
pub proof fn lemma_half_away_at_most(x: Dyadic, c: int)
    requires
        x.mant >= 0,
        at_most(x, c),
    ensures
        round_half_away(x) <= c,
        round_half_away(x) >= 0,
{
    if x.exp < 0 {
        let u = pow2((-x.exp) as nat) as int;
        lemma_pow2_pos((-x.exp) as nat);
        let q = (2 * x.mant + u) / (2 * u);
        vstd::arithmetic::div_mod::lemma_fundamental_div_mod(2 * x.mant + u, 2 * u);
        let r = (2 * x.mant + u) % (2 * u);
        assert(0 <= q <= c) by (nonlinear_arith)
            requires
                2 * x.mant + u == (2 * u) * q + r,
                0 <= r < 2 * u,
                x.mant <= c * u,
                x.mant >= 0,
                u > 0,
        ;
    } else {
        let u = pow2(x.exp as nat) as int;
        assert(x.mant * u >= 0) by (nonlinear_arith)
            requires
                x.mant >= 0,
                u >= 0,
        ;
    }
}

/// Rounding to an integer does not cross an integer from above.
pub proof fn lemma_half_away_at_least(x: Dyadic, c: int)
    requires
        x.mant >= 0,
        at_least(x, c),
    ensures
        round_half_away(x) >= c,
{
    if x.exp < 0 {
        let u = pow2((-x.exp) as nat) as int;
        lemma_pow2_pos((-x.exp) as nat);
        let q = (2 * x.mant + u) / (2 * u);
        vstd::arithmetic::div_mod::lemma_fundamental_div_mod(2 * x.mant + u, 2 * u);
        let r = (2 * x.mant + u) % (2 * u);
        assert(q >= c) by (nonlinear_arith)
            requires
                2 * x.mant + u == (2 * u) * q + r,
                0 <= r < 2 * u,
                x.mant >= c * u,
                u > 0,
        ;
    }
}

/// Rounding to `p` significant bits changes a number by at most one part in
/// `2^p`.
pub proof fn lemma_rounded_close(n: nat, d: nat, p: nat)
    requires
        n > 0,
        d > 0,
        p > 0,
    ensures
        ({
            let x = rounded(n, d, p);
            let (num, den) = (scaled_num(n, x.exp) as int, scaled_den(d, x.exp) as int);
            &&& pow2(p) * (x.mant * den - num) <= num
            &&& pow2(p) * (num - x.mant * den) <= num
        }),
{
    let t = log2_floor(n, d);
    lemma_binade_exists(n, d);
    lemma_scaled_range(n, d, p, t);
    let e = t - p + 1;
    let (num, den) = (scaled_num(n, e) as int, scaled_den(d, e) as int);
    let m = nearest_even(num as nat, den as nat) as int;
    vstd::arithmetic::div_mod::lemma_fundamental_div_mod(num, den);
    lemma_pow2_step((p - 1) as nat);
    let h = pow2((p - 1) as nat) as int;
    let w = 2 * h;
    let off = m * den - num;
    assert(-den <= 2 * off <= den) by (nonlinear_arith)
        requires
            off == m * den - num,
            num == den * (num / den) + num % den,
            0 <= num % den < den,
            m == num / den && 2 * (num % den) <= den || m == num / den + 1 && 2 * (num % den) >= den,
    ;
    assert(w * off <= num && w * (-off) <= num) by (nonlinear_arith)
        requires
            -den <= 2 * off <= den,
            h * den <= num,
            w == 2 * h,
            h >= 0,
    ;
    if m == pow2(p) {
        let (num2, den2) = (scaled_num(n, e + 1) as int, scaled_den(d, e + 1) as int);
        vstd::arithmetic::power2::lemma2_to64();
        if e < 0 {
            lemma_pow2_step((-e - 1) as nat);
            let u = pow2((-e - 1) as nat) as int;
            assert(n * (2 * u) == 2 * (n * u)) by (nonlinear_arith);
            assert(d * 1 == d);
            assert(n * 1 == n);
            assert(2 * num2 == num && den2 == den);
            assert(w * (h * den2 - num2) <= num2 && w * (num2 - h * den2) <= num2) by (nonlinear_arith)
                requires
                    off == w * den - num,
                    w * off <= num,
                    w * (-off) <= num,
                    w == 2 * h,
                    2 * num2 == num,
                    den2 == den,
            ;
        } else {
            lemma_pow2_step(e as nat);
            let u = pow2(e as nat) as int;
            assert(d * (2 * u) == 2 * (d * u)) by (nonlinear_arith);
            assert(num2 == num && den2 == 2 * den);
            assert(h * den2 == w * den) by (nonlinear_arith)
                requires
                    w == 2 * h,
                    den2 == 2 * den,
            ;
            assert(num - w * den == -off);
        }
    } else {
        assert(num - m * den == -off);
    }
}

/// Rounding to double precision and then to an integer changes a number by at
/// most one half and one part in `2^53`.
pub proof fn lemma_integer_closer(n: nat, d: nat)
    requires
        n > 0,
        d > 0,
    ensures
        ({
            let gap = round_half_away(rounded(n, d, 53)) * d - n;
            &&& 2 * (pow2(53) * gap) <= pow2(53) * d + 2 * n
            &&& -2 * (pow2(53) * gap) <= pow2(53) * d + 2 * n
        }),
{
    let x = rounded(n, d, 53);
    let p = pow2(53) as int;
    let r = round_half_away(x);
    let gap = r * d - n;
    lemma_rounded_normal(n, d, 53);
    lemma_rounded_close(n, d, 53);
    lemma_pow2_pos(53);
    if x.exp >= 0 {
        let v = pow2(x.exp as nat) as int;
        assert(r * d == x.mant * (d * v)) by (nonlinear_arith)
            requires
                r == x.mant * v,
        ;
        assert(p * (n - r * d) == -(p * gap)) by (nonlinear_arith)
            requires
                gap == r * d - n,
        ;
        assert(p * d >= 0) by (nonlinear_arith)
            requires
                p > 0,
                d > 0,
        ;
    } else {
        let w = pow2((-x.exp) as nat) as int;
        lemma_pow2_pos((-x.exp) as nat);
        vstd::arithmetic::div_mod::lemma_fundamental_div_mod(2 * x.mant + w, 2 * w);
        let q = (2 * x.mant + w) % (2 * w);
        let half = 2 * (r * w - x.mant);
        assert(half == w - q) by (nonlinear_arith)
            requires
                2 * x.mant + w == (2 * w) * r + q,
                half == 2 * (r * w - x.mant),
        ;
        let e = x.mant * d - n * w;
        assert(p * (n * w - x.mant * d) == -(p * e)) by (nonlinear_arith)
            requires
                e == x.mant * d - n * w,
        ;
        assert(2 * (gap * w) == half * d + 2 * e) by (nonlinear_arith)
            requires
                gap == r * d - n,
                half == 2 * (r * w - x.mant),
                e == x.mant * d - n * w,
        ;
        assert(-(w * d) <= half * d <= w * d) by (nonlinear_arith)
            requires
                -w <= half <= w,
                d > 0,
        ;
        let hd = half * d;
        let wd = w * d;
        assert(-(p * wd) <= p * hd <= p * wd) by (nonlinear_arith)
            requires
                -wd <= hd <= wd,
                p > 0,
        ;
        assert(2 * (p * (gap * w)) == p * hd + 2 * (p * e)) by (nonlinear_arith)
            requires
                2 * (gap * w) == hd + 2 * e,
        ;
        let (g, bound) = (2 * (p * gap), p * d + 2 * n);
        assert(g * w == 2 * (p * (gap * w))) by (nonlinear_arith)
            requires
                g == 2 * (p * gap),
        ;
        assert(bound * w == p * wd + 2 * (n * w)) by (nonlinear_arith)
            requires
                bound == p * d + 2 * n,
                wd == w * d,
        ;
        assert(g <= bound && -g <= bound) by (nonlinear_arith)
            requires
                g * w <= bound * w,
                -(g * w) <= bound * w,
                w > 0,
        ;
    }
}

/// Rounding to double precision and then to an integer changes a number by at
/// most five eighths.
pub proof fn lemma_integer_close(n: nat, d: nat)
    requires
        d > 0,
        n < d * pow2(48),
    ensures
        -5 * d <= 8 * (round_half_away(rounded(n, d, 53)) * d - n) <= 5 * d,
{
    vstd::arithmetic::power2::lemma2_to64();
    vstd::arithmetic::power2::lemma2_to64_rest();
    let x = rounded(n, d, 53);
    if n > 0 {
        lemma_rounded_normal(n, d, 53);
    }
    let a = (8 * n as int) / d as int;
    vstd::arithmetic::div_mod::lemma_fundamental_div_mod(8 * n as int, d as int);
    assert(a * d <= 8 * n && 8 * n < (a + 1) * d && 0 <= a && a + 1 < pow2(53)) by (nonlinear_arith)
        requires
            8 * n == d * a + (8 * n as int) % (d as int),
            0 <= (8 * n as int) % (d as int) < d,
            n < d * pow2(48),
            pow2(53) == 0x20_0000_0000_0000,
            pow2(48) == 0x1_0000_0000_0000,
            d > 0,
            n >= 0,
    ;
    lemma_rounded_shift(n, d, 53, 3);
    assert(n * pow2(3) == 8 * n) by (nonlinear_arith)
        requires
            pow2(3) == 8,
    ;
    lemma_rounded_at_least(8 * n, d, 53, a as nat);
    lemma_rounded_at_most(8 * n, d, 53, (a + 1) as nat);
    lemma_eighths(x, a);
    let r = round_half_away(x);
    assert(-5 * d <= 8 * (r * d - n) <= 5 * d) by (nonlinear_arith)
        requires
            a - 4 <= 8 * r <= a + 5,
            a * d <= 8 * n,
            8 * n < (a + 1) * d,
            d > 0,
    ;
}

/// `a <= 8 * x <= a + 1` bounds the integer nearest to `x`.
proof fn lemma_eighths(x: Dyadic, a: int)
    requires
        x.mant >= 0,
        at_least(shifted(x, 3), a),
        at_most(shifted(x, 3), a + 1),
    ensures
        a - 4 <= 8 * round_half_away(x) <= a + 5,
{
    vstd::arithmetic::power2::lemma2_to64();
    let m = x.mant;
    if x.exp >= 0 {
        lemma_pow2_adds(x.exp as nat, 3);
        let u = pow2(x.exp as nat) as int;
        assert(m * (u * 8) == 8 * (m * u)) by (nonlinear_arith);
        assert(m == 0 ==> m * u == 0) by (nonlinear_arith);
    } else {
        let k = (-x.exp) as nat;
        let u = pow2(k) as int;
        lemma_pow2_pos(k);
        assert(a * u <= 8 * m <= (a + 1) * u) by {
            if m == 0 {
                assert(a <= 0 && a + 1 >= 0) by {
                    lemma_zero_bounds(x, a);
                }
                assert(a * u <= 0 && (a + 1) * u >= 0) by (nonlinear_arith)
                    requires
                        a <= 0,
                        a + 1 >= 0,
                        u > 0,
                ;
            } else if k > 3 {
                lemma_pow2_adds((k - 3) as nat, 3);
                let v = pow2((k - 3) as nat) as int;
                assert(a * (v * 8) <= 8 * m <= (a + 1) * (v * 8)) by (nonlinear_arith)
                    requires
                        a * v <= m <= (a + 1) * v,
                ;
            } else {
                lemma_pow2_adds((3 - k) as nat, k);
                let v = pow2((3 - k) as nat) as int;
                assert(a * u <= 8 * m <= (a + 1) * u) by (nonlinear_arith)
                    requires
                        a <= m * v <= a + 1,
                        v * u == 8,
                        u > 0,
                ;
            }
        }
        let r = round_half_away(x);
        vstd::arithmetic::div_mod::lemma_fundamental_div_mod(2 * m + u, 2 * u);
        let rem = (2 * m + u) % (2 * u);
        assert(a - 4 <= 8 * r <= a + 5) by (nonlinear_arith)
            requires
                2 * m + u == (2 * u) * r + rem,
                0 <= rem < 2 * u,
                a * u <= 8 * m <= (a + 1) * u,
                u > 0,
        ;
    }
}

proof fn lemma_zero_bounds(x: Dyadic, a: int)
    requires
        x.mant == 0,
        at_least(x, a),
        at_most(x, a + 1),
    ensures
        a <= 0,
        a + 1 >= 0,
{
    if x.exp >= 0 {
        assert(0 * pow2(x.exp as nat) == 0) by (nonlinear_arith);
    } else {
        let u = pow2((-x.exp) as nat) as int;
        lemma_pow2_pos((-x.exp) as nat);
        assert(a <= 0 && a + 1 >= 0) by (nonlinear_arith)
            requires
                a * u <= 0,
                0 <= (a + 1) * u,
                u > 0,
        ;
    }
}

/// Significant bits of a double-precision number.
pub const DOUBLE: u32 = 53;

/// Significant bits of a single-precision number.
pub const SINGLE: u32 = 24;

/// What a cast to `usize` makes of an integer that is not negative.
pub open spec fn saturated(n: int) -> int {
    if n > usize::MAX {
        usize::MAX as int
    } else {
        n
    }
}

/// The integer part, cast to `usize`.
pub fn floor_to_usize(x: Magnitude) -> (r: usize)
    requires
        x.mant < pow2(53),
        -120 <= x.exp <= 60,
    ensures
        r == saturated(floor_of(x@)),
{
    let n: u128 = if x.exp >= 0 {
        let k: u128 = power_of_two(x.exp as u32);
        proof {
            lemma_mant_scaled(x.mant as nat, x.exp as nat);
        }
        x.mant as u128 * k
    } else {
        x.mant as u128 / power_of_two((-x.exp) as u32)
    };
    if n > usize::MAX as u128 {
        usize::MAX
    } else {
        n as usize
    }
}

proof fn lemma_mant_scaled(m: nat, k: nat)
    requires
        m < pow2(53),
        k <= 60,
    ensures
        m * pow2(k) < pow2(120),
        pow2(120) < u128::MAX,
{
    lemma_pow2_128();
    lemma_pow2_strictly_increases(120, 127);
    lemma_pow2_strictly_increases(127, 128);
    lemma_pow2_adds(53, 60);
    lemma_pow2_strictly_increases(113, 120);
    lemma_pow2_mono(k, 60);
    lemma_pow2_pos(k);
    let (a, b, c) = (pow2(53), pow2(k), pow2(60));
    assert(m * b <= a * c) by (nonlinear_arith)
        requires
            m <= a,
            b <= c,
    ;
}

/// The nearest integer, ties away from zero, cast to `usize`.
pub fn round_to_usize(x: Magnitude) -> (r: usize)
    requires
        x.mant < pow2(53),
        -120 <= x.exp <= 60,
    ensures
        r == saturated(round_half_away(x@)),
{
    let n: u128 = if x.exp >= 0 {
        let k: u128 = power_of_two(x.exp as u32);
        proof {
            lemma_mant_scaled(x.mant as nat, x.exp as nat);
        }
        x.mant as u128 * k
    } else {
        proof {
            lemma_pow2_strictly_increases(53, 120);
        }
        round_half_up(x.mant as u128, (-x.exp) as u32)
    };
    if n > usize::MAX as u128 {
        usize::MAX
    } else {
        n as usize
    }
}

/// `n / 2^k` rounded to the nearest integer, ties upwards.
pub fn round_half_up(n: u128, k: u32) -> (r: u128)
    requires
        n < pow2(120),
        0 <= k <= 120,
    ensures
        r == round_half_away(Dyadic { mant: n as int, exp: -k }),
{
    let unit: u128 = power_of_two(k);
    proof {
        lemma_pow2_128();
        lemma_pow2_mono(k as nat, 120);
        lemma_pow2_adds(120, 3);
        lemma_pow2_strictly_increases(123, 128);
        vstd::arithmetic::power2::lemma2_to64();
        if k == 0 {
            assert((2 * n + 1) / 2 == n);
            assert(n * 1 == n);
        }
    }
    (2 * n + unit) / (2 * unit)
}

/// The integer `n` rounded to `p` significant bits.
pub fn from_integer(n: u64, p: u32) -> (r: Magnitude)
    requires
        0 < p <= 53,
    ensures
        r@ == rounded(n as nat, 1, p as nat),
        r.mant < pow2(p as nat),
        n == 0 ==> r.mant == 0 && r.exp == 0,
        n > 0 ==> r.mant >= pow2((p - 1) as nat) && 1 - p <= r.exp <= 65 - p,
{
    proof {
        vstd::arithmetic::power2::lemma2_to64();
        lemma_pow2_strictly_increases(1, 64);
        lemma_pow2_strictly_increases(64, 120);
        lemma_pow2_pos(p as nat);
        if n > 0 {
            lemma_rounded_normal(n as nat, 1, p as nat);
            lemma_at_least_from_bits(n as nat, 1, 0, 0);
            lemma_below_from_bits(n as nat, 1, 64, 0);
            lemma_rounded_exp(n as nat, 1, p as nat, 0);
            lemma_rounded_exp(n as nat, 1, p as nat, 64);
        }
    }
    round_quotient(n as u128, 1, p)
}

/// `x * y` rounded to `p` significant bits.
pub fn multiply(x: Magnitude, y: Magnitude, p: u32) -> (r: Magnitude)
    requires
        0 < p <= 53,
        x.mant < pow2(53),
        y.mant < pow2(53),
        -1000 <= x.exp <= 1000,
        -1000 <= y.exp <= 1000,
    ensures
        r@ == product(x@, y@, p as nat),
        r.mant > 0 ==> x.exp + y.exp - 120 <= r.exp <= x.exp + y.exp + 120,
        r.mant == 0 ==> r.exp == 0,
        r.mant < pow2(p as nat),
{
    proof {
        let (a, b) = (x.mant, y.mant);
        let c = pow2(53);
        lemma_pow2_adds(53, 53);
        lemma_pow2_strictly_increases(106, 120);
        lemma_pow2_pos(53);
        assert(0 <= a * b < c * c) by (nonlinear_arith)
            requires
                0 <= a < c,
                0 <= b < c,
        ;
        lemma_pow2_128();
        lemma_pow2_strictly_increases(120, 128);
        vstd::arithmetic::power2::lemma2_to64();
        lemma_pow2_strictly_increases(1, 64);
        lemma_pow2_pos((p - 1) as nat);
        if a * b > 0 {
            lemma_rounded_normal((a * b) as nat, 1, p as nat);
        }
    }
    let r: Magnitude = round_quotient(x.mant as u128 * y.mant as u128, 1, p);
    if r.mant == 0 {
        r
    } else {
        Magnitude { mant: r.mant, exp: r.exp + x.exp + y.exp }
    }
}

/// `x / y` rounded to `p` significant bits.
pub fn divide(x: Magnitude, y: Magnitude, p: u32) -> (r: Magnitude)
    requires
        0 < p <= 53,
        x.mant < pow2(53),
        0 < y.mant < pow2(53),
        -1000 <= x.exp <= 1000,
        -1000 <= y.exp <= 1000,
    ensures
        r@ == quotient(x@, y@, p as nat),
        r.mant > 0 ==> x.exp - y.exp - 120 <= r.exp <= x.exp - y.exp + 120,
        r.mant == 0 ==> r.exp == 0,
        r.mant < pow2(p as nat),
{
    proof {
        lemma_pow2_strictly_increases(53, 64);
        lemma_pow2_strictly_increases(53, 120);
        lemma_pow2_pos((p - 1) as nat);
        if x.mant > 0 {
            lemma_rounded_normal(x.mant as nat, y.mant as nat, p as nat);
        }
    }
    let r: Magnitude = round_quotient(x.mant as u128, y.mant as u128, p);
    if r.mant == 0 {
        r
    } else {
        Magnitude { mant: r.mant, exp: r.exp + x.exp - y.exp }
    }
}

/// The integer nearest to the square root of `n`.
///
/// No square root of an integer lies halfway between two integers.
pub open spec fn nearest_root(n: nat) -> nat {
    choose|q: nat| is_nearest_root(n, q)
}

/// `q - 1/2 < sqrt(n) < q + 1/2`.
pub open spec fn is_nearest_root(n: nat, q: nat) -> bool {
    q * q < n + q && n <= q * q + q
}

/// The square root of `x`, which has `p` significant bits or is zero, rounded
/// to `p` significant bits.
pub open spec fn square_root(x: Dyadic, p: nat) -> Dyadic {
    if x.mant == 0 {
        x
    } else {
        let f = (x.exp + p - 1) / 2 - p + 1;
        let q = nearest_root(scaled_num(x.mant as nat, 2 * f - x.exp));
        if q == pow2(p) {
            Dyadic { mant: pow2((p - 1) as nat) as int, exp: f + 1 }
        } else {
            Dyadic { mant: q as int, exp: f }
        }
    }
}

proof fn lemma_nearest_root_unique(n: nat, q: nat)
    requires
        is_nearest_root(n, q),
    ensures
        nearest_root(n) == q,
{
    let r = nearest_root(n);
    assert(is_nearest_root(n, r));
    assert(r == q) by (nonlinear_arith)
        requires
            q * q < n + q,
            n <= q * q + q,
            r * r < n + r,
            n <= r * r + r,
            q >= 0,
            r >= 0,
    ;
}

/// The square root of a double-precision number.
pub fn take_square_root(x: Magnitude) -> (r: Magnitude)
    requires
        pow2(52) <= x.mant < pow2(53),
        -1000 <= x.exp <= 1000,
    ensures
        r@ == square_root(x@, 53),
        -600 <= r.exp <= 600,
        0 < r.mant < pow2(53),
{
    // A shift keeps the division on the side where it rounds down.
    let half: i32 = (x.exp + 52 + 2000) / 2 - 1000;
    let f: i32 = half - 52;
    let s: u32 = (x.exp - 2 * f) as u32;
    assert(s == 52 || s == 53);
    proof {
        vstd::arithmetic::power2::lemma2_to64();
        vstd::arithmetic::power2::lemma2_to64_rest();
        lemma_pow2_adds(53, 53);
        lemma_pow2_adds(52, 52);
        lemma_pow2_strictly_increases(52, 53);
        let (m, w) = (x.mant, pow2(s as nat));
        let (a, b, c) = (pow2(52), pow2(53), pow2(104));
        assert(c <= m * w < b * b) by (nonlinear_arith)
            requires
                a <= m < b,
                a <= w <= b,
                c == a * a,
        ;
        lemma_pow2_128();
        lemma_pow2_strictly_increases(106, 128);
    }
    let n: u128 = x.mant as u128 * power_of_two(s);
    // Binary search for the integer part of the root, a bit at a time.
    let mut q: u128 = 0;
    let mut k: u32 = 53;
    while k > 0
        invariant
            k <= 53,
            pow2(53) == 0x20_0000_0000_0000,
            q + pow2(k as nat) <= pow2(53),
            q * q <= n,
            n < (q + pow2(k as nat)) * (q + pow2(k as nat)),
        decreases k,
    {
        proof {
            lemma_pow2_step((k - 1) as nat);
        }
        let t: u128 = q + power_of_two(k - 1);
        proof {
            assert(t * t <= 0x20_0000_0000_0000 * 0x20_0000_0000_0000) by (nonlinear_arith)
                requires
                    0 <= t <= 0x20_0000_0000_0000,
            ;
        }
        if t * t <= n {
            q = t;
        }
        k = k - 1;
    }
    proof {
        let (a, b) = (pow2(52), pow2(53));
        assert(q >= a && q < b) by (nonlinear_arith)
            requires
                a * a <= n < (q + 1) * (q + 1),
                q + 1 <= b,
                q >= 0,
                a >= 0,
        ;
        assert((q + 1) * (q + 1) == q * q + 2 * q + 1) by (nonlinear_arith);
    }
    let r: u128 = if n - q * q > q { q + 1 } else { q };
    proof {
        lemma_nearest_root_unique(n as nat, r as nat);
    }
    if r == 0x20_0000_0000_0000 {
        Magnitude { mant: 0x10_0000_0000_0000, exp: f + 1 }
    } else {
        Magnitude { mant: r as u64, exp: f }
    }
}

/// A double-precision number by its bit pattern.
#[derive(Clone, Copy, Debug, PartialEq, Eq, Structural)]
pub struct Double {
    pub bits: u64,
}

impl Double {
    pub open spec fn biased_exponent(self) -> int {
        self.bits as int / 0x10_0000_0000_0000 % 2048
    }

    pub open spec fn significand_field(self) -> int {
        self.bits as int % 0x10_0000_0000_0000
    }

    pub open spec fn is_negative(self) -> bool {
        self.bits >= 0x8000_0000_0000_0000
    }

    pub open spec fn is_nan(self) -> bool {
        self.biased_exponent() == 2047 && self.significand_field() != 0
    }

    pub open spec fn is_infinite(self) -> bool {
        self.biased_exponent() == 2047 && self.significand_field() == 0
    }

    /// The absolute value of a finite number.
    pub open spec fn magnitude(self) -> Dyadic {
        if self.biased_exponent() == 0 {
            Dyadic { mant: self.significand_field(), exp: -1074 }
        } else {
            Dyadic {
                mant: self.significand_field() + 0x10_0000_0000_0000,
                exp: self.biased_exponent() - 1075,
            }
        }
    }

    /// `x > self` as hardware compares, for an `x` that is not negative.
    pub open spec fn is_below(self, x: Dyadic) -> bool {
        if self.is_nan() {
            false
        } else if self.is_infinite() {
            self.is_negative()
        } else if self.is_below_zero() {
            true
        } else {
            is_greater(x, self.magnitude())
        }
    }

    /// `self < 0`, for a finite number; negative zero is not.
    pub open spec fn is_below_zero(self) -> bool {
        self.is_negative() && self.magnitude().mant > 0
    }

    /// `self <= other`, where both are numbers.
    pub open spec fn is_at_most(self, other: Self) -> bool {
        if self.is_infinite() {
            self.is_negative() || (other.is_infinite() && !other.is_negative())
        } else if other.is_infinite() {
            !other.is_negative()
        } else if self.is_below_zero() {
            other.is_below_zero() ==> !is_greater(other.magnitude(), self.magnitude())
        } else {
            !other.is_below_zero() && !is_greater(self.magnitude(), other.magnitude())
        }
    }
}

/// `x > y`.
pub open spec fn is_greater(x: Dyadic, y: Dyadic) -> bool {
    if x.exp >= y.exp {
        x.mant * pow2((x.exp - y.exp) as nat) > y.mant
    } else {
        x.mant > y.mant * pow2((y.exp - x.exp) as nat)
    }
}

/// `x > y` and `z <= y` give `x > z`.
pub proof fn lemma_greater_than_less(x: Dyadic, y: Dyadic, z: Dyadic)
    requires
        is_greater(x, y),
        !is_greater(z, y),
    ensures
        is_greater(x, z),
{
    let e = if x.exp <= y.exp && x.exp <= z.exp {
        x.exp
    } else if y.exp <= z.exp {
        y.exp
    } else {
        z.exp
    };
    lemma_greater_at(x, y, e);
    lemma_greater_at(z, y, e);
    lemma_greater_at(x, z, e);
}

/// Numbers are compared by their significands at a common exponent.
proof fn lemma_greater_at(x: Dyadic, y: Dyadic, e: int)
    requires
        e <= x.exp,
        e <= y.exp,
    ensures
        is_greater(x, y) <==> x.mant * pow2((x.exp - e) as nat) > y.mant * pow2((y.exp - e) as nat),
{
    let (a, b) = ((x.exp - e) as nat, (y.exp - e) as nat);
    if a >= b {
        lemma_pow2_adds((a - b) as nat, b);
        lemma_pow2_pos(b);
        let (u, v) = (pow2((a - b) as nat) as int, pow2(b) as int);
        let (m, n) = (x.mant, y.mant);
        assert(m * u > n <==> m * (u * v) > n * v) by (nonlinear_arith)
            requires
                v > 0,
        ;
    } else {
        lemma_pow2_adds((b - a) as nat, a);
        lemma_pow2_pos(a);
        let (u, v) = (pow2((b - a) as nat) as int, pow2(a) as int);
        let (m, n) = (x.mant, y.mant);
        assert(m > n * u <==> m * v > n * (u * v)) by (nonlinear_arith)
            requires
                v > 0,
        ;
    }
}

/// `x > y`.
pub fn exceeds(x: Magnitude, y: Magnitude) -> (r: bool)
    requires
        x.mant < pow2(53),
        y.mant < pow2(53),
        -3000 <= x.exp <= 3000,
        -3000 <= y.exp <= 3000,
    ensures
        r == is_greater(x@, y@),
{
    proof {
        vstd::arithmetic::power2::lemma2_to64_rest();
        vstd::arithmetic::power2::lemma2_to64();
    }
    if x.exp >= y.exp {
        let k: u32 = (x.exp - y.exp) as u32;
        if k <= 60 {
            proof {
                lemma_mant_scaled(x.mant as nat, k as nat);
            }
            x.mant as u128 * power_of_two(k) > y.mant as u128
        } else {
            proof {
                lemma_pow2_mono(60, k as nat);
                let (m, w) = (x.mant, pow2(k as nat));
                assert(m > 0 ==> m * w >= w) by (nonlinear_arith);
                assert(m == 0 ==> m * w == 0) by (nonlinear_arith);
            }
            x.mant > 0
        }
    } else {
        let k: u32 = (y.exp - x.exp) as u32;
        if k <= 60 {
            proof {
                lemma_mant_scaled(y.mant as nat, k as nat);
            }
            x.mant as u128 > y.mant as u128 * power_of_two(k)
        } else {
            proof {
                lemma_pow2_mono(60, k as nat);
                let (m, w) = (y.mant, pow2(k as nat));
                assert(m > 0 ==> m * w >= w) by (nonlinear_arith);
                assert(m == 0 ==> m * w == 0) by (nonlinear_arith);
            }
            y.mant == 0 && x.mant > 0
        }
    }
}

impl Double {
    /// `x > self`.
    pub fn below(self, x: Magnitude) -> (r: bool)
        requires
            x.mant < pow2(53),
            -3000 <= x.exp <= 3000,
        ensures
            r == self.is_below(x@),
    {
        let field: u64 = self.bits % 0x10_0000_0000_0000;
        let biased: u64 = self.bits / 0x10_0000_0000_0000 % 2048;
        let negative: bool = self.bits >= 0x8000_0000_0000_0000;
        if biased == 2047 {
            return field == 0 && negative;
        }
        let size: Magnitude = if biased == 0 {
            Magnitude { mant: field, exp: -1074 }
        } else {
            Magnitude { mant: field + 0x10_0000_0000_0000, exp: biased as i32 - 1075 }
        };
        proof {
            vstd::arithmetic::power2::lemma2_to64_rest();
        }
        if negative && size.mant > 0 {
            return true;
        }
        exceeds(x, size)
    }
}

} // verus!
