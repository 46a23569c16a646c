//! Single-precision numbers on integers.
//!
//! Sound cards and some WAV files deliver samples as single-precision numbers.
//! They are taken by their bit patterns, and added, divided and scaled as the
//! hardware does it.

use crate::rounding::{
    at_most, divide, exceeds, floor_of, floor_to_usize, from_integer, integer, is_greater, lemma_binade_unique,
    lemma_rounded_at_most, lemma_rounded_exp, lemma_rounded_normal, lemma_rounded_over_pow2,
    lemma_rounded_shift, multiply, nearest_even, power_of_two, product, quotient, round_at, round_quotient,
    rounded, sum, Dyadic, Magnitude, SINGLE,
};
use vstd::arithmetic::power2::{
    lemma2_to64, lemma2_to64_rest, lemma_pow2_adds, lemma_pow2_pos, lemma_pow2_strictly_increases, pow2,
};
use vstd::prelude::*;

verus! {

/// What a floating-point value stands for.
pub enum Number {
    Nan,
    Infinite { negative: bool },
    Finite(Dyadic),
}

/// A single-precision number by its bit pattern.
#[derive(Clone, Copy, Debug, PartialEq, Eq, Structural)]
pub struct Single {
    pub bits: u32,
}

impl Single {
    pub open spec fn biased_exponent(self) -> int {
        self.bits as int / 0x80_0000 % 256
    }

    pub open spec fn significand_field(self) -> int {
        self.bits as int % 0x80_0000
    }

    pub open spec fn is_negative(self) -> bool {
        self.bits >= 0x8000_0000
    }

    /// The absolute value of a finite number.
    pub open spec fn magnitude(self) -> Dyadic {
        if self.biased_exponent() == 0 {
            Dyadic { mant: self.significand_field(), exp: -149 }
        } else {
            Dyadic { mant: self.significand_field() + 0x80_0000, exp: self.biased_exponent() - 150 }
        }
    }
}

impl View for Single {
    type V = Number;

    open spec fn view(&self) -> Number {
        if self.biased_exponent() == 255 {
            if self.significand_field() == 0 {
                Number::Infinite { negative: self.is_negative() }
            } else {
                Number::Nan
            }
        } else {
            Number::Finite(signed(self.is_negative(), self.magnitude()))
        }
    }
}

/// `x`, or its negation.
pub open spec fn signed(negative: bool, x: Dyadic) -> Dyadic {
    if negative {
        Dyadic { mant: -x.mant, exp: x.exp }
    } else {
        x
    }
}

/// `|x|`.
pub open spec fn absolute(x: Dyadic) -> Dyadic {
    signed(x.mant < 0, x)
}

/// A rounded number as the format holds it.
///
/// A rounded number other than zero has 24 significant bits, and the format
/// reaches up to the exponent 104: what is larger is infinite.  Down from the
/// exponent -149 the format has fewer bits; a sum has none beyond them.
pub open spec fn held(x: Dyadic) -> Number {
    if x.exp > 104 {
        Number::Infinite { negative: x.mant < 0 }
    } else if x.exp < -149 {
        let size = absolute(x).mant / pow2((-149 - x.exp) as nat) as int;
        Number::Finite(signed(x.mant < 0, Dyadic { mant: size, exp: -149 }))
    } else {
        Number::Finite(x)
    }
}

/// `x + y`.
pub open spec fn plus(x: Number, y: Number) -> Number {
    match (x, y) {
        (Number::Nan, _) => Number::Nan,
        (_, Number::Nan) => Number::Nan,
        (Number::Infinite { negative: a }, Number::Infinite { negative: b }) => if a == b {
            x
        } else {
            Number::Nan
        },
        (Number::Infinite { .. }, _) => x,
        (_, Number::Infinite { .. }) => y,
        (Number::Finite(a), Number::Finite(b)) => held(sum(a, b, 24)),
    }
}

/// The sum of some numbers, from the left.
pub open spec fn total(numbers: Seq<Single>) -> Number
    decreases numbers.len(),
{
    if numbers.len() == 0 {
        Number::Finite(integer(0))
    } else {
        plus(total(numbers.drop_last()), numbers.last()@)
    }
}

/// `x / count`.
///
/// A small quotient keeps all its bits here; the format loses some of them
/// below `2^-126`, which is far too quiet to make a sample.
pub open spec fn over(x: Number, count: nat) -> Number {
    match x {
        Number::Finite(a) => Number::Finite(
            signed(a.mant < 0, quotient(absolute(a), rounded(count, 1, 24), 24)),
        ),
        _ => x,
    }
}

/// The 16-bit sample for a number between -1 and 1: what lies outside is
/// brought to the nearer end, and what is no number is silent.
pub open spec fn pcm_sample(x: Number) -> int {
    match x {
        Number::Nan => 0,
        Number::Infinite { negative } => if negative {
            -32767
        } else {
            32767
        },
        Number::Finite(a) => {
            let loudest = is_greater(absolute(a), integer(1));
            let size = if loudest {
                32767
            } else {
                floor_of(product(absolute(a), integer(32767), 24))
            };
            if a.mant < 0 {
                -size
            } else {
                size
            }
        },
    }
}

/// The arithmetic mean of some numbers, computed in single precision.
pub open spec fn mean(numbers: Seq<Single>) -> Number {
    over(total(numbers), numbers.len())
}

/// A number in the course of a computation.
#[derive(Clone, Copy, Debug, PartialEq, Eq)]
pub enum Value {
    Nan,
    Infinite { negative: bool },
    Finite { negative: bool, size: Magnitude },
}

impl View for Value {
    type V = Number;

    open spec fn view(&self) -> Number {
        match *self {
            Value::Nan => Number::Nan,
            Value::Infinite { negative } => Number::Infinite { negative },
            Value::Finite { negative, size } => Number::Finite(signed(negative, size@)),
        }
    }
}

impl Value {
    /// The value is one that the format can hold.
    pub open spec fn is_valid(self) -> bool {
        self matches Value::Finite { negative, size } ==> {
            &&& size.mant < pow2(24)
            &&& -149 <= size.exp <= 104
            &&& size.exp > -149 ==> size.mant >= pow2(23) || size.mant == 0
        }
    }
}

/// A number far below the last bit of another does not change it.
proof fn lemma_absorbed(m: nat, d: nat, z: nat, p: nat)
    requires
        p > 0,
        d >= 2,
        pow2((p - 1) as nat) <= m < pow2(p),
        z < pow2((d - 2) as nat),
    ensures
        rounded(m * pow2(d) + z, 1, p) == (Dyadic { mant: m as int, exp: d as int }),
        z > 0 ==> rounded((m * pow2(d) - z) as nat, 1, p) == (Dyadic { mant: m as int, exp: d as int }),
{
    lemma_pow2_adds(2, (d - 2) as nat);
    lemma2_to64();
    lemma_pow2_adds(1, (p - 1) as nat);
    lemma_pow2_adds((p - 1) as nat, d);
    lemma_pow2_adds(p, d);
    lemma_pow2_pos(d);
    lemma_pow2_pos((p - 1) as nat);
    let u = pow2(d);
    let h = pow2((p - 1) as nat);
    let t = d + p - 1;
    assert(1 * pow2(t as nat) == pow2(t as nat));
    assert(1 * pow2((t + 1) as nat) == pow2((t + 1) as nat));
    assert(1 * u == u);
    let n = m * u + z;
    assert(h * u <= n && n < (2 * h) * u && n > 0) by (nonlinear_arith)
        requires
            n == m * u + z,
            h <= m < 2 * h,
            z < u,
            h > 0,
            u > 0,
    ;
    lemma_binade_unique(n, 1, t as int);
    assert(n as int == m * u + z);
    vstd::arithmetic::div_mod::lemma_fundamental_div_mod_converse(n as int, u as int, m as int, z as int);
    assert(nearest_even(n, u) == m);
    if z > 0 {
        let l = (m * u - z) as nat;
        assert(m * u - z >= 0) by (nonlinear_arith)
            requires
                m >= 1,
                z < u,
        ;
        if m > h {
            assert(h * u <= l && l < (2 * h) * u && l > 0) by (nonlinear_arith)
                requires
                    l == m * u - z,
                    h < m < 2 * h,
                    0 < z < u,
                    h > 0,
                    u > 0,
            ;
            lemma_binade_unique(l, 1, t as int);
            assert(l as int == (m - 1) * u + (u - z)) by (nonlinear_arith)
                requires
                    l == m * u - z,
            ;
            vstd::arithmetic::div_mod::lemma_fundamental_div_mod_converse(l as int, u as int, m - 1, u - z);
            assert(nearest_even(l, u) == m);
        } else {
            let v = pow2((d - 1) as nat);
            lemma_pow2_adds(1, (d - 1) as nat);
            lemma_pow2_adds((p - 1) as nat, (d - 1) as nat);
            let s = t - 1;
            assert(1 * v == v);
            assert(h * v <= l && l < h * u && l > 0) by (nonlinear_arith)
                requires
                    l == h * u - z,
                    u == 2 * v,
                    0 < z < v,
                    h > 0,
            ;
            assert(1 * pow2(s as nat) == pow2(s as nat));
            lemma_binade_unique(l, 1, s as int);
            assert(l as int == (2 * h - 1) * v + (v - z)) by (nonlinear_arith)
                requires
                    l == h * u - z,
                    u == 2 * v,
            ;
            vstd::arithmetic::div_mod::lemma_fundamental_div_mod_converse(l as int, v as int, 2 * h - 1, v - z);
            assert(nearest_even(l, v) == 2 * h);
        }
    }
}

impl Single {
    /// What the bit pattern stands for.
    pub fn value(self) -> (r: Value)
        ensures
            r@ == self@,
            r.is_valid(),
    {
        let field: u32 = self.bits % 0x80_0000;
        let biased: u32 = self.bits / 0x80_0000 % 256;
        let negative: bool = self.bits >= 0x8000_0000;
        proof {
            lemma2_to64();
        }
        if biased == 255 {
            if field == 0 {
                Value::Infinite { negative }
            } else {
                Value::Nan
            }
        } else if biased == 0 {
            Value::Finite { negative, size: Magnitude { mant: field as u64, exp: -149 } }
        } else {
            Value::Finite {
                negative,
                size: Magnitude { mant: (field + 0x80_0000) as u64, exp: biased as i32 - 150 },
            }
        }
    }
}

/// `n * 2^e`, or its negation, rounded to single precision.
fn hold(negative: bool, n: u128, e: i32) -> (r: Value)
    requires
        n < pow2(100),
        -149 <= e <= 104,
    ensures
        r@ == held(round_at(if negative { -(n as int) } else { n as int }, e as int, 24)),
        r.is_valid(),
{
    proof {
        lemma2_to64();
        lemma_pow2_strictly_increases(100, 120);
        lemma_pow2_strictly_increases(0, 64);
        if n > 0 {
            lemma_rounded_normal(n as nat, 1, 24);
            assert(1 * pow2(0) == 1);
            lemma_rounded_exp(n as nat, 1, 24, 0);
        }
    }
    let x: Magnitude = round_quotient(n, 1, SINGLE);
    if n == 0 {
        return Value::Finite { negative: false, size: Magnitude { mant: 0, exp: 0 } };
    }
    let exp: i32 = x.exp + e;
    if exp > 104 {
        Value::Infinite { negative }
    } else if exp < -149 {
        let unit: u128 = power_of_two((-149 - exp) as u32);
        let mant: u64 = (x.mant as u128 / unit) as u64;
        proof {
            vstd::arithmetic::div_mod::lemma_div_is_ordered_by_denominator(x.mant as int, 1, unit as int);
            assert(x.mant as int / 1 == x.mant);
        }
        Value::Finite { negative, size: Magnitude { mant, exp: -149 } }
    } else {
        Value::Finite { negative, size: Magnitude { mant: x.mant, exp } }
    }
}

/// Rounding does not depend on how a number is written.
proof fn lemma_round_at_shift(n: int, d: nat, e: int)
    ensures
        round_at(n * pow2(d), e, 24) == round_at(n, e + d, 24),
{
    lemma_pow2_pos(d);
    let u = pow2(d) as int;
    if n < 0 {
        lemma_rounded_shift((-n) as nat, 1, 24, d);
        assert((-n) * u == -(n * u)) by (nonlinear_arith);
        assert(n * u < 0) by (nonlinear_arith)
            requires
                n < 0,
                u > 0,
        ;
    } else {
        lemma_rounded_shift(n as nat, 1, 24, d);
        assert(n * u >= 0) by (nonlinear_arith)
            requires
                n >= 0,
                u > 0,
        ;
    }
}

/// Adding zero rounds, and does nothing else.
proof fn lemma_sum_with_zero(a: Dyadic, b: Dyadic)
    requires
        b.mant == 0,
    ensures
        sum(a, b, 24) == round_at(a.mant, a.exp, 24),
        sum(b, a, 24) == round_at(a.mant, a.exp, 24),
{
    let e = if a.exp <= b.exp { a.exp } else { b.exp };
    let d = (a.exp - e) as nat;
    lemma_round_at_shift(a.mant, d, e);
    assert(0 * pow2((b.exp - e) as nat) == 0) by (nonlinear_arith);
}

/// Adding what is far below the last bit changes nothing.
proof fn lemma_sum_absorbs(a: Dyadic, b: Dyadic)
    requires
        pow2(23) <= absolute(a).mant < pow2(24),
        absolute(b).mant < pow2(24),
        a.exp > b.exp + 60,
    ensures
        sum(a, b, 24) == a,
        sum(b, a, 24) == a,
{
    let d = (a.exp - b.exp) as nat;
    let m = absolute(a).mant as nat;
    let z = absolute(b).mant as nat;
    lemma2_to64();
    lemma_pow2_strictly_increases(24, (d - 2) as nat);
    lemma_absorbed(m, d, z, 24);
    let u = pow2(d) as int;
    lemma_pow2_strictly_increases(24, d);
    let n = a.mant * u + b.mant * 1;
    assert(m * u > z) by (nonlinear_arith)
        requires
            m >= 1,
            u > z,
    ;
    assert(a.mant * u == if a.mant < 0 { -(m * u) } else { m * u }) by (nonlinear_arith)
        requires
            m == (if a.mant < 0 { -a.mant } else { a.mant }),
    ;
    assert(sum(a, b, 24) == round_at(n, b.exp, 24));
    assert(sum(b, a, 24) == round_at(n, b.exp, 24));
    if a.mant < 0 {
        assert(n < 0);
        if b.mant > 0 {
            assert(-n == m * u - z);
        } else {
            assert(-n == m * u + z);
        }
    } else {
        if b.mant < 0 {
            assert(n == m * u - z);
        } else {
            assert(n == m * u + z);
        }
    }
}

/// The sum of two finite numbers, the first of which has the larger exponent.
fn add_ordered(an: bool, a: Magnitude, bn: bool, b: Magnitude) -> (r: Value)
    requires
        (Value::Finite { negative: an, size: a }).is_valid(),
        (Value::Finite { negative: bn, size: b }).is_valid(),
        a.exp >= b.exp,
    ensures
        r@ == held(sum(signed(an, a@), signed(bn, b@), 24)),
        r@ == held(sum(signed(bn, b@), signed(an, a@), 24)),
        r.is_valid(),
{
    let ghost x = signed(an, a@);
    let ghost y = signed(bn, b@);
    proof {
        lemma2_to64();
        lemma2_to64_rest();
        lemma_pow2_strictly_increases(24, 100);
    }
    if a.mant == 0 {
        proof {
            lemma_sum_with_zero(y, x);
        }
        return hold(bn, b.mant as u128, b.exp);
    }
    if b.mant == 0 {
        proof {
            lemma_sum_with_zero(x, y);
        }
        return hold(an, a.mant as u128, a.exp);
    }
    let d: u32 = (a.exp - b.exp) as u32;
    if d > 60 {
        proof {
            lemma_sum_absorbs(x, y);
        }
        return Value::Finite { negative: an, size: a };
    }
    let unit: u128 = power_of_two(d);
    let m: u64 = a.mant;
    proof {
        lemma_pow2_adds(24, 60);
        lemma_pow2_strictly_increases(84, 99);
        lemma_pow2_adds(1, 99);
        lemma_pow2_adds(60, 40);
        if d < 60 {
            lemma_pow2_strictly_increases(d as nat, 60);
        }
        assert(m * unit <= 0x100_0000 * 0x1000_0000_0000_0000) by (nonlinear_arith)
            requires
                0 <= m <= 0x100_0000,
                0 <= unit <= 0x1000_0000_0000_0000,
        ;
        assert(x.mant * unit == if an { -(m * unit) } else { m * unit }) by (nonlinear_arith)
            requires
                x.mant == (if an { -(m as int) } else { m as int }),
        ;
        assert(y.mant * 1 == y.mant);
    }
    let big: u128 = m as u128 * unit;
    let small: u128 = b.mant as u128;
    if an == bn {
        hold(an, big + small, b.exp)
    } else if big >= small {
        hold(an, big - small, b.exp)
    } else {
        hold(bn, small - big, b.exp)
    }
}

/// `x + y`.
fn add_values(x: Value, y: Value) -> (r: Value)
    requires
        x.is_valid(),
        y.is_valid(),
    ensures
        r@ == plus(x@, y@),
        r.is_valid(),
{
    match (x, y) {
        (Value::Nan, _) => Value::Nan,
        (_, Value::Nan) => Value::Nan,
        (Value::Infinite { negative: a }, Value::Infinite { negative: b }) => if a == b {
            x
        } else {
            Value::Nan
        },
        (Value::Infinite { .. }, _) => x,
        (_, Value::Infinite { .. }) => y,
        (Value::Finite { negative: an, size: a }, Value::Finite { negative: bn, size: b }) => {
            if a.exp >= b.exp {
                add_ordered(an, a, bn, b)
            } else {
                add_ordered(bn, b, an, a)
            }
        },
    }
}

/// A number below one, by its size, is silent.
proof fn lemma_silent(x: Dyadic)
    requires
        0 <= x.mant < pow2(24),
        x.exp < -64,
    ensures
        floor_of(product(x, integer(32767), 24)) == 0,
{
    lemma2_to64();
    let n = (x.mant * 32767) as nat;
    let r = rounded(n, 1, 24);
    if n > 0 {
        lemma_rounded_normal(n, 1, 24);
        lemma_pow2_strictly_increases(24, 39);
        lemma_pow2_adds(24, 15);
        assert(1 * pow2(39) == pow2(39));
        lemma_rounded_exp(n, 1, 24, 39);
        let k = (-(r.exp + x.exp)) as nat;
        assert(k > 24);
        lemma_pow2_strictly_increases(24, k);
        vstd::arithmetic::div_mod::lemma_basic_div(r.mant, pow2(k) as int);
    }
}

/// The 16-bit sample for a number between -1 and 1.
fn sample_of(x: Value) -> (r: i16)
    requires
        x matches Value::Finite { negative, size } ==> size.mant < pow2(24) && -400 <= size.exp <= 400,
    ensures
        r == pcm_sample(x@),
        -32767 <= r <= 32767,
{
    proof {
        lemma2_to64();
        lemma2_to64_rest();
        lemma_pow2_strictly_increases(24, 53);
    }
    match x {
        Value::Nan => 0,
        Value::Infinite { negative } => if negative {
            -32767
        } else {
            32767
        },
        Value::Finite { negative, size } => {
            proof {
                assert(absolute(signed(negative, size@)) == size@);
                assert(0 * pow2(size.exp as nat) == 0) by (nonlinear_arith);
                lemma_pow2_pos((-size.exp) as nat);
            }
            let loud: i16 = if exceeds(size, Magnitude { mant: 1, exp: 0 }) {
                32767
            } else if size.exp < -64 {
                proof {
                    lemma_silent(size@);
                }
                0
            } else {
                scale_sample(size)
            };
            if negative {
                -loud
            } else {
                loud
            }
        },
    }
}

/// The 16-bit sample for a size of at most one.
fn scale_sample(size: Magnitude) -> (r: i16)
    requires
        size.mant < pow2(24),
        -64 <= size.exp <= 400,
        !is_greater(size@, integer(1)),
    ensures
        r == floor_of(product(size@, integer(32767), 24)),
        0 <= r <= 32767,
        size.mant == 0 ==> r == 0,
{
    proof {
        lemma2_to64();
        lemma2_to64_rest();
        lemma_pow2_strictly_increases(24, 53);
    }
    let n: u64 = size.mant * 32767;
    if n == 0 {
        assert(product(size@, integer(32767), 24) == integer(0));
        assert(0 * pow2(0) == 0);
        return 0;
    }
    let scaled: Magnitude = multiply(size, Magnitude { mant: 32767, exp: 0 }, SINGLE);
    proof {
        // A size of at most one has a non-positive exponent.
        if size.exp > 0 {
            let w = pow2(size.exp as nat);
            lemma_pow2_pos(size.exp as nat);
            lemma_pow2_strictly_increases(0, size.exp as nat);
            assert(size.mant * w >= w) by (nonlinear_arith)
                requires
                    size.mant >= 1,
            ;
        }
        let k = (-size.exp) as nat;
        lemma_rounded_over_pow2(n as nat, 24, k);
        let w = pow2(k);
        lemma_pow2_pos(k);
        assert(size.mant <= w) by {
            assert(1 * w == w);
            if k == 0 {
                assert(size.mant * 1 == size.mant);
            }
        }
        assert(n <= 32767 * w) by (nonlinear_arith)
            requires
                n == size.mant * 32767,
                size.mant <= w,
        ;
        lemma_rounded_at_most(n as nat, w, 24, 32767);
        lemma_floor_at_most(scaled@, 32767);
        lemma_rounded_normal(n as nat, 1, 24);
        lemma_pow2_adds(24, 15);
        assert(1 * pow2(39) == pow2(39));
        assert(1 * pow2(0) == 1);
        lemma_rounded_exp(n as nat, 1, 24, 39);
        lemma_rounded_exp(n as nat, 1, 24, 0);
    }
    floor_to_usize(scaled) as i16
}

/// The integer part of a number does not exceed an integer that the number
/// does not exceed.
proof fn lemma_floor_at_most(x: Dyadic, c: int)
    requires
        x.mant >= 0,
        at_most(x, c),
    ensures
        0 <= floor_of(x) <= c,
{
    if x.exp >= 0 {
        let u = pow2(x.exp as nat) as int;
        assert(x.mant * u >= 0) by (nonlinear_arith)
            requires
                x.mant >= 0,
                u >= 0,
        ;
    } else {
        let u = pow2((-x.exp) as nat) as int;
        lemma_pow2_pos((-x.exp) as nat);
        vstd::arithmetic::div_mod::lemma_fundamental_div_mod(x.mant, u);
        let q = x.mant / u;
        assert(0 <= q <= c) by (nonlinear_arith)
            requires
                x.mant == u * q + x.mant % u,
                0 <= x.mant % u < u,
                0 <= x.mant <= c * u,
                u > 0,
        ;
    }
}

/// `x / count`, as a sample.
fn mean_sample(x: Value, count: u64) -> (r: i16)
    requires
        x.is_valid(),
        count > 0,
    ensures
        r == pcm_sample(over(x@, count as nat)),
        -32767 <= r <= 32767,
{
    match x {
        Value::Finite { negative, size } => {
            let divisor: Magnitude = from_integer(count, SINGLE);
            proof {
                lemma2_to64();
                lemma_pow2_strictly_increases(24, 53);
            }
            let share: Magnitude = divide(size, divisor, SINGLE);
            assert(absolute(signed(negative, size@)) == size@);
            sample_of(Value::Finite { negative: negative && size.mant > 0, size: share })
        },
        _ => sample_of(x),
    }
}

/// The 16-bit sample for the mean of `data[start..end]`.
pub fn mix(data: &[Single], start: usize, end: usize) -> (r: i16)
    requires
        start < end <= data@.len(),
    ensures
        r == pcm_sample(mean(data@.subrange(start as int, end as int))),
        -32767 <= r <= 32767,
{
    let mut sum: Value = Value::Finite { negative: false, size: Magnitude { mant: 0, exp: 0 } };
    let mut i: usize = start;
    proof {
        lemma2_to64();
        assert(data@.subrange(start as int, start as int) =~= Seq::<Single>::empty());
    }
    while i < end
        invariant
            start <= i <= end <= data@.len(),
            sum.is_valid(),
            sum@ == total(data@.subrange(start as int, i as int)),
        decreases end - i,
    {
        proof {
            let next = data@.subrange(start as int, i + 1);
            assert(next.drop_last() =~= data@.subrange(start as int, i as int));
        }
        sum = add_values(sum, data[i].value());
        i = i + 1;
    }
    mean_sample(sum, (end - start) as u64)
}

impl Single {
    /// The 16-bit sample for a number between -1 and 1.
    pub fn to_pcm(self) -> (r: i16)
        ensures
            r == pcm_sample(self@),
            -32767 <= r <= 32767,
    {
        sample_of(self.value())
    }
}

/// `s` is the number `x`, which is not negative.
pub open spec fn holds(s: Single, x: Dyadic) -> bool {
    if x.mant == 0 {
        s.bits == 0
    } else {
        s@ == Number::Finite(x)
    }
}

impl Single {
    /// The bit pattern of a number that is zero or has 24 significant bits.
    pub fn from_magnitude(x: Magnitude) -> (r: Self)
        requires
            x.mant == 0 || pow2(23) <= x.mant < pow2(24),
            x.mant > 0 ==> -149 <= x.exp <= 104,
        ensures
            holds(r, x@),
    {
        if x.mant == 0 {
            return Single { bits: 0 };
        }
        proof {
            lemma2_to64();
        }
        let biased: u32 = (x.exp + 150) as u32;
        let field: u32 = (x.mant - 0x80_0000) as u32;
        let r: Single = Single { bits: biased * 0x80_0000 + field };
        assert(r.biased_exponent() == biased && r.significand_field() == field);
        r
    }
}

} // verus!
