//! IEEE 754 single-precision numbers, computed exactly on integers.
//!
//! Every finite single-precision number is a whole multiple of 2^-149, the
//! smallest subnormal.  Here a finite number is that multiple, an integer, so
//! that what an operation returns can be stated without approximation: the
//! exact result, rounded to the nearest number that has a 24-bit significand,
//! ties to even.

use vstd::prelude::*;
use vstd::arithmetic::power2::*;

use crate::audio::samples;

verus! {

/// A single-precision number.  Zero has no sign here: nothing in this crate
/// divides by it.
pub enum Value {
    NotANumber,
    Infinity(bool),
    Finite(int),
}

/// The number that a 32-bit pattern stands for.
pub open spec fn value_of_bits(bits: u32) -> Value {
    let negative = bits >= 0x8000_0000u32;
    let exponent = (bits as nat / 0x80_0000) % 256;
    let fraction = bits as nat % 0x80_0000;
    if exponent == 255 {
        if fraction == 0 {
            Value::Infinity(negative)
        } else {
            Value::NotANumber
        }
    } else if exponent == 0 {
        Value::Finite(signed(negative, fraction))
    } else {
        Value::Finite(signed(negative, (fraction + 0x80_0000) * pow2((exponent - 1) as nat)))
    }
}

/// `n`, or `-n`.
pub open spec fn signed(negative: bool, n: nat) -> int {
    if negative {
        -(n as int)
    } else {
        n as int
    }
}

/// The integer nearest to `n / d`; of two that are equally near, the even one.
pub open spec fn nearest(n: nat, d: nat) -> nat {
    let q = n / d;
    let r = n % d;
    if 2 * r > d || (2 * r == d && q % 2 == 1) {
        q + 1
    } else {
        q
    }
}

/// The number nearest to `n / d` among those with a significand of at most 24
/// bits: below 2^24 every integer, above it every second one, then every
/// fourth, and so on.
pub open spec fn rounded(n: nat, d: nat) -> nat
    decreases n - d,
{
    if d == 0 {
        0
    } else if n < 0x100_0000 * d {
        nearest(n, d)
    } else {
        2 * rounded(n, 2 * d)
    }
}

/// The single-precision result whose exact value is `n / d`, with the given
/// sign: rounded, and infinite where no finite number is that large.
pub open spec fn to_single(negative: bool, n: nat, d: nat) -> Value {
    if rounded(n, d) >= pow2(277) {
        Value::Infinity(negative)
    } else {
        Value::Finite(signed(negative, rounded(n, d)))
    }
}

/// The distance of `v` from zero.
pub open spec fn distance(v: int) -> nat {
    if v < 0 {
        (-v) as nat
    } else {
        v as nat
    }
}

/// The sum of two numbers.
pub open spec fn sum(a: Value, b: Value) -> Value {
    match (a, b) {
        (Value::NotANumber, _) => Value::NotANumber,
        (_, Value::NotANumber) => Value::NotANumber,
        (Value::Infinity(x), Value::Infinity(y)) => if x == y {
            Value::Infinity(x)
        } else {
            Value::NotANumber
        },
        (Value::Infinity(x), Value::Finite(_)) => Value::Infinity(x),
        (Value::Finite(_), Value::Infinity(y)) => Value::Infinity(y),
        (Value::Finite(x), Value::Finite(y)) => to_single(x + y < 0, distance(x + y), 1),
    }
}

/// The quotient of a number and a positive whole number.
pub open spec fn divided(a: Value, count: nat) -> Value {
    match a {
        Value::NotANumber => Value::NotANumber,
        Value::Infinity(x) => Value::Infinity(x),
        Value::Finite(x) => to_single(x < 0, distance(x), count),
    }
}

/// The 16-bit sample of a number, where 1.0 is full scale: the number times
/// 32768, clamped and cut toward zero.  Scaling by a power of two is exact, and
/// what is not a number becomes silence.
pub open spec fn sample_of_value(v: Value) -> int {
    match v {
        Value::NotANumber => 0,
        Value::Infinity(negative) => if negative {
            -32768
        } else {
            32767
        },
        Value::Finite(x) => samples::clamp_sample(
            signed(x < 0, distance(x) / pow2(134)),
        ),
    }
}

/// The 32-bit word at index `i` of a little-endian byte string.
pub open spec fn word_at(bytes: Seq<u8>, i: int) -> u32 {
    (bytes[4 * i] + 0x100 * bytes[4 * i + 1] + 0x1_0000 * bytes[4 * i + 2] + 0x100_0000 * bytes[4
        * i + 3]) as u32
}

/// All whole numbers in `bytes`; trailing bytes that make up no whole one are
/// ignored.
pub open spec fn decode(bytes: Seq<u8>) -> Seq<Value> {
    Seq::new(bytes.len() / 4, |i: int| value_of_bits(word_at(bytes, i)))
}

/// The sum of `n` numbers of `s` from index `from` on, added up in order and
/// starting from zero.
pub open spec fn sum_from(s: Seq<Value>, from: int, n: nat) -> Value
    decreases n,
{
    if n == 0 {
        Value::Finite(0)
    } else {
        sum(sum_from(s, from, (n - 1) as nat), s[from + n - 1])
    }
}

/// A single-precision number taken apart.
#[derive(Clone, Copy)]
pub enum Single {
    NotANumber,
    Infinity { negative: bool },
    Finite { negative: bool, significand: u32, exponent: u32 },
}

impl View for Single {
    type V = Value;

    open spec fn view(&self) -> Value {
        match *self {
            Single::NotANumber => Value::NotANumber,
            Single::Infinity { negative } => Value::Infinity(negative),
            Single::Finite { negative, significand, exponent } => Value::Finite(
                signed(negative, significand as nat * pow2(exponent as nat)),
            ),
        }
    }
}

impl Single {
    /// The significand has 24 bits, unless the number is too small for that,
    /// and the exponent is one that a finite number can have.
    pub open spec fn wf(&self) -> bool {
        match *self {
            Single::Finite { negative, significand, exponent } => {
                &&& significand < 0x100_0000
                &&& exponent <= 253
                &&& exponent > 0 ==> significand >= 0x80_0000
            },
            _ => true,
        }
    }
}

/// Equal fractions have equal nearest integers.
proof fn lemma_nearest_ratio(a: nat, b: nat, c: nat, d: nat)
    requires
        0 < b,
        0 < d,
        a * d == c * b,
    ensures
        nearest(a, b) == nearest(c, d),
{
    let q = a / b;
    let r = a % b;
    vstd::arithmetic::div_mod::lemma_fundamental_div_mod(a as int, b as int);
    let s = c - d * q;
    assert(b * s == r * d) by (nonlinear_arith)
        requires
            a == b * q + r,
            a * d == c * b,
            s == c - d * q,
    ;
    assert(0 <= s < d) by (nonlinear_arith)
        requires
            b * s == r * d,
            0 <= r < b,
            0 < b,
            0 < d,
    ;
    vstd::arithmetic::div_mod::lemma_fundamental_div_mod_converse(
        c as int,
        d as int,
        q as int,
        s,
    );
    assert((2 * r > b <==> 2 * s > d) && (2 * r == b <==> 2 * s == d)) by (nonlinear_arith)
        requires
            b * s == r * d,
            0 < b,
            0 < d,
    ;
}

/// Rounding is done at the power of two at which 24 bits are left.
proof fn lemma_rounded_at(n: nat, d: nat, e: nat)
    requires
        0 < d,
        n < 0x100_0000 * (d * pow2(e)),
        e > 0 ==> 0x80_0000 * (d * pow2(e)) <= n,
    ensures
        0 < d * pow2(e),
        rounded(n, d) == pow2(e) * nearest(n, d * pow2(e)),
    decreases e,
{
    lemma_pow2_pos(e);
    assert(0 < d * pow2(e)) by (nonlinear_arith)
        requires
            0 < d,
            0 < pow2(e),
    ;
    if e == 0 {
        lemma2_to64();
        assert(d * pow2(0) == d) by (nonlinear_arith)
            requires
                pow2(0) == 1,
        ;
    } else {
        let f = (e - 1) as nat;
        lemma_pow2_pos(f);
        lemma_pow2_unfold(e);
        assert(d * pow2(e) == 2 * d * pow2(f)) by (nonlinear_arith)
            requires
                pow2(e) == 2 * pow2(f),
        ;
        assert(2 * d * pow2(f) >= 2 * d) by (nonlinear_arith)
            requires
                pow2(f) >= 1,
        ;
        lemma_rounded_at(n, 2 * d, f);
        let m = nearest(n, d * pow2(e));
        assert(2 * (pow2(f) * m) == pow2(e) * m) by (nonlinear_arith)
            requires
                pow2(e) == 2 * pow2(f),
        ;
    }
}

/// Adding or taking away far less than half a unit in the last place leaves a
/// number as it is.
proof fn lemma_absorbed(m: nat, e: nat, small: nat)
    requires
        0x80_0000 <= m < 0x100_0000,
        2 <= e,
        4 * small < pow2(e),
    ensures
        m * pow2(e) >= small,
        rounded(m * pow2(e) + small, 1) == m * pow2(e),
        rounded((m * pow2(e) - small) as nat, 1) == m * pow2(e),
{
    let p = pow2(e);
    let h = pow2((e - 1) as nat);
    lemma_pow2_pos(e);
    lemma_pow2_pos((e - 1) as nat);
    lemma_pow2_unfold(e);
    assert(1 * p == p && 1 * h == h);
    assert(m * p >= 0x80_0000 * p) by (nonlinear_arith)
        requires
            m >= 0x80_0000,
    ;
    assert((m + 1) * p == m * p + p && (m - 1) * p == m * p - p && m * p == p * m)
        by (nonlinear_arith);
    let up = m * p + small;
    assert(m * p + p <= 0x100_0000 * p) by (nonlinear_arith)
        requires
            m + 1 <= 0x100_0000,
    ;
    lemma_rounded_at(up, 1, e);
    vstd::arithmetic::div_mod::lemma_fundamental_div_mod_converse(
        up as int,
        p as int,
        m as int,
        small as int,
    );
    let down = (m * p - small) as nat;
    if small == 0 {
    } else if m > 0x80_0000 {
        assert(m * p - p >= 0x80_0000 * p) by (nonlinear_arith)
            requires
                m - 1 >= 0x80_0000,
        ;
        lemma_rounded_at(down, 1, e);
        vstd::arithmetic::div_mod::lemma_fundamental_div_mod_converse(
            down as int,
            p as int,
            m - 1,
            p - small,
        );
        assert(nearest(down, p) == m);
    } else {
        // The unit in the last place is half as large just below a power of two.
        assert(down == 0x100_0000 * h - small);
        lemma_rounded_at(down, 1, (e - 1) as nat);
        assert(0xff_ffff * h + (h - small) == down);
        assert(0xff_ffff * h == h * 0xff_ffff);
        vstd::arithmetic::div_mod::lemma_fundamental_div_mod_converse(
            down as int,
            h as int,
            0xff_ffff,
            h - small,
        );
        assert(nearest(down, h) == 0x100_0000);
        assert(h * 0x100_0000 == p * 0x80_0000);
    }
}

/// Takes a 32-bit pattern apart.
pub fn from_bits(bits: u32) -> (v: Single)
    ensures
        v.wf(),
        v@ == value_of_bits(bits),
{
    let negative: bool = bits >= 0x8000_0000u32;
    let exponent: u32 = (bits / 0x80_0000) % 256;
    let fraction: u32 = bits % 0x80_0000;
    if exponent == 255 {
        if fraction == 0 {
            Single::Infinity { negative }
        } else {
            Single::NotANumber
        }
    } else if exponent == 0 {
        proof {
            lemma2_to64();
            assert(fraction as nat * pow2(0) == fraction) by (nonlinear_arith)
                requires
                    pow2(0) == 1,
            ;
        }
        Single::Finite { negative, significand: fraction, exponent: 0 }
    } else {
        Single::Finite { negative, significand: fraction + 0x80_0000, exponent: exponent - 1 }
    }
}

/// Puts a rounded significand together with its exponent.
fn assemble(negative: bool, significand: u32, exponent: u32) -> (v: Single)
    requires
        significand <= 0x100_0000,
        exponent > 0 ==> significand >= 0x80_0000,
        exponent < 1000,
    ensures
        v.wf(),
        v@ == (if significand as nat * pow2(exponent as nat) >= pow2(277) {
            Value::Infinity(negative)
        } else {
            Value::Finite(signed(negative, significand as nat * pow2(exponent as nat)))
        }),
{
    let (m, e): (u32, u32) = if significand == 0x100_0000 {
        (0x80_0000, exponent + 1)
    } else {
        (significand, exponent)
    };
    proof {
        let p = pow2(exponent as nat);
        lemma_pow2_unfold((exponent + 1) as nat);
        assert(0x100_0000 * p == 0x80_0000 * (2 * p));
        assert(significand as nat * p == m as nat * pow2(e as nat));
        lemma2_to64();
        if e > 253 {
            lemma_pow2_adds(23, e as nat);
            if 277 < 23 + e {
                lemma_pow2_strictly_increases(277, (23 + e) as nat);
            }
            assert(m as nat * pow2(e as nat) >= 0x80_0000 * pow2(e as nat)) by (nonlinear_arith)
                requires
                    m >= 0x80_0000,
            ;
        } else {
            lemma_pow2_adds(24, 253);
            if e < 253 {
                lemma_pow2_strictly_increases(e as nat, 253);
            }
            lemma_pow2_pos(e as nat);
            assert(m as nat * pow2(e as nat) < 0x100_0000 * pow2(e as nat)) by (nonlinear_arith)
                requires
                    m < 0x100_0000,
                    0 < pow2(e as nat),
            ;
            assert(0x100_0000 * pow2(e as nat) <= 0x100_0000 * pow2(253));
        }
    }
    if e > 253 {
        Single::Infinity { negative }
    } else {
        Single::Finite { negative, significand: m, exponent: e }
    }
}

/// Rounds `n * 2^exponent / d`.
fn round_ratio(negative: bool, n: u64, d: u64, exponent: u32) -> (v: Single)
    requires
        0 < d < 0x1_0000,
        n < 0x8000_0000_0000_0000,
        exponent <= 253,
    ensures
        v.wf(),
        v@ == to_single(negative, n as nat * pow2(exponent as nat), d as nat),
{
    let ghost whole = n as nat * pow2(exponent as nat);
    let mut num: u64 = n;
    let mut den: u64 = d;
    let mut e: u32 = exponent;
    proof {
        lemma2_to64();
    }
    // Widen the unit until at most 24 bits are left.
    while num >= den * 0x100_0000
        invariant
            0 < d <= den < 0x100_0000_0000,
            num == n < 0x8000_0000_0000_0000,
            exponent <= e,
            den > d ==> num >= den * 0x80_0000,
            (num as nat * pow2(e as nat)) * d == whole * den,
            exponent <= 253,
            e - exponent < 40,
            pow2((e - exponent) as nat) <= den,
        decreases num - den,
    {
        proof {
            lemma_pow2_unfold((e + 1) as nat);
            lemma_pow2_unfold((e + 1 - exponent) as nat);
            let p = pow2(e as nat);
            assert((num as nat * (2 * p)) * d == 2 * ((num as nat * p) * d)) by (nonlinear_arith);
            assert(whole * (2 * den) == 2 * (whole * den)) by (nonlinear_arith);
            if e + 1 - exponent == 40 {
                lemma2_to64();
                lemma_pow2_adds(20, 20);
            }
        }
        den = den * 2;
        e = e + 1;
    }
    // Narrow the unit while bits are free.
    while num < den * 0x80_0000 && e > 0
        invariant
            0 < d <= den < 0x100_0000_0000,
            num < den * 0x100_0000,
            (num as nat * pow2(e as nat)) * d == whole * den,
            e <= 253 + 40,
        decreases e,
    {
        proof {
            lemma_pow2_unfold(e as nat);
            let p = pow2((e - 1) as nat);
            assert((num as nat * (2 * p)) * d == (2 * num as nat * p) * d) by (nonlinear_arith);
        }
        num = num * 2;
        e = e - 1;
    }
    let q: u64 = num / den;
    let r: u64 = num % den;
    let up: bool = r > den - r || (r == den - r && q % 2 == 1);
    proof {
        vstd::arithmetic::div_mod::lemma_fundamental_div_mod(num as int, den as int);
        assert(q < 0x100_0000) by (nonlinear_arith)
            requires
                num == den * q + r,
                num < den * 0x100_0000,
                0 <= r,
                0 < den,
        ;
        if e > 0 {
            assert(q >= 0x80_0000) by (nonlinear_arith)
                requires
                    num == den * q + r,
                    num >= den * 0x80_0000,
                    r < den,
                    0 < den,
            ;
        }
    }
    let significand: u32 = if up { q as u32 + 1 } else { q as u32 };
    proof {
        let p = pow2(e as nat);
        let unit = d as nat * p;
        lemma_pow2_pos(e as nat);
        assert(0 < unit) by (nonlinear_arith)
            requires
                0 < d,
                0 < p,
                unit == d as nat * p,
        ;
        assert(whole * den == num as nat * unit) by (nonlinear_arith)
            requires
                (num as nat * p) * d == whole * den,
                unit == d as nat * p,
        ;
        assert(whole < 0x100_0000 * unit) by (nonlinear_arith)
            requires
                whole * den == num as nat * unit,
                num < den * 0x100_0000,
                0 < unit,
                0 < den,
        ;
        if e > 0 {
            assert(0x80_0000 * unit <= whole) by (nonlinear_arith)
                requires
                    whole * den == num as nat * unit,
                    num >= den * 0x80_0000,
                    0 < unit,
                    0 < den,
            ;
        }
        lemma_nearest_ratio(whole, unit, num as nat, den as nat);
        lemma_rounded_at(whole, d as nat, e as nat);
        assert(nearest(num as nat, den as nat) == significand);
        assert(p * significand as nat == significand as nat * p) by (nonlinear_arith);
    }
    assemble(negative, significand, e)
}

/// A finite number that is well formed is its own rounding.
proof fn lemma_representable(significand: u32, exponent: u32)
    requires
        significand < 0x100_0000,
        exponent <= 253,
        exponent > 0 ==> significand >= 0x80_0000,
    ensures
        rounded(significand as nat * pow2(exponent as nat), 1) == significand as nat * pow2(
            exponent as nat,
        ),
        significand as nat * pow2(exponent as nat) < pow2(277),
{
    let p = pow2(exponent as nat);
    let n = significand as nat * p;
    lemma_pow2_pos(exponent as nat);
    assert(1 * p == p);
    assert(n < 0x100_0000 * p && (exponent > 0 ==> 0x80_0000 * p <= n)) by (nonlinear_arith)
        requires
            n == significand as nat * p,
            significand < 0x100_0000,
            exponent > 0 ==> significand >= 0x80_0000,
            0 < p,
    ;
    lemma_rounded_at(n, 1, exponent as nat);
    lemma_nearest_ratio(n, p, significand as nat, 1);
    assert(nearest(significand as nat, 1) == significand);
    assert(n == p * significand as nat) by (nonlinear_arith)
        requires
            n == significand as nat * p,
    ;
    lemma2_to64();
    lemma_pow2_adds(24, 253);
    if exponent < 253 {
        lemma_pow2_strictly_increases(exponent as nat, 253);
    }
    assert(0x100_0000 * p <= 0x100_0000 * pow2(253));
}

/// Adds two finite numbers, the first of which has the larger exponent.
fn add_ordered(
    negative: bool,
    significand: u32,
    exponent: u32,
    other_negative: bool,
    other_significand: u32,
    other_exponent: u32,
) -> (v: Single)
    requires
        significand < 0x100_0000,
        other_exponent <= exponent <= 253,
        exponent > 0 ==> significand >= 0x80_0000,
        other_significand < 0x100_0000,
    ensures
        v.wf(),
        ({
            let exact = signed(negative, significand as nat * pow2(exponent as nat)) + signed(
                other_negative,
                other_significand as nat * pow2(other_exponent as nat),
            );
            v@ == to_single(exact < 0, distance(exact), 1)
        }),
{
    let ghost large = significand as nat * pow2(exponent as nat);
    let ghost small = other_significand as nat * pow2(other_exponent as nat);
    let ghost exact = signed(negative, large) + signed(other_negative, small);
    let shift: u32 = exponent - other_exponent;
    if shift > 38 {
        proof {
            lemma_pow2_pos(exponent as nat);
            lemma_pow2_adds(other_exponent as nat, shift as nat);
            lemma2_to64();
            lemma_pow2_adds(26, 13);
            if shift > 39 {
                lemma_pow2_strictly_increases(39, shift as nat);
            }
            let low = pow2(other_exponent as nat);
            lemma_pow2_pos(other_exponent as nat);
            assert(4 * small < pow2(exponent as nat)) by (nonlinear_arith)
                requires
                    small == other_significand as nat * low,
                    other_significand < 0x100_0000,
                    pow2(exponent as nat) == low * pow2(shift as nat),
                    pow2(shift as nat) >= 0x400_0000,
                    0 < low,
            ;
            lemma_absorbed(significand as nat, exponent as nat, small);
            lemma_representable(significand, exponent);
            assert(large > 0) by (nonlinear_arith)
                requires
                    large == significand as nat * pow2(exponent as nat),
                    significand > 0,
                    pow2(exponent as nat) > 0,
            ;
            assert(large > small) by (nonlinear_arith)
                requires
                    large == significand as nat * pow2(exponent as nat),
                    significand > 1,
                    4 * small < pow2(exponent as nat),
            ;
        }
        return Single::Finite { negative, significand, exponent };
    }
    proof {
        let p = pow2(shift as nat);
        lemma2_to64();
        lemma_pow2_adds(20, 18);
        if shift < 38 {
            lemma_pow2_strictly_increases(shift as nat, 38);
        }
        assert(significand as nat * p < 0x100_0000 * 0x40_0000_0000) by (nonlinear_arith)
            requires
                significand < 0x100_0000,
                p <= 0x40_0000_0000,
        ;
        vstd::bits::lemma_u64_shl_is_mul(significand as u64, shift as u64);
        lemma_pow2_adds(shift as nat, other_exponent as nat);
    }
    let a: u64 = (significand as u64) << (shift as u64);
    let b: u64 = other_significand as u64;
    let ghost low = pow2(other_exponent as nat);
    proof {
        assert(large == a as nat * low) by (nonlinear_arith)
            requires
                large == significand as nat * pow2(exponent as nat),
                a == significand as nat * pow2(shift as nat),
                pow2(exponent as nat) == pow2(shift as nat) * low,
        ;
    }
    let (result_negative, n): (bool, u64) = if negative == other_negative {
        (negative, a + b)
    } else if a >= b {
        (negative, a - b)
    } else {
        (other_negative, b - a)
    };
    proof {
        lemma_pow2_pos(other_exponent as nat);
        let unit = n as nat * low;
        assert(signed(negative, a as nat) + signed(other_negative, b as nat) == signed(
            result_negative,
            n as nat,
        ));
        assert(exact == signed(result_negative, unit)) by (nonlinear_arith)
            requires
                large == a as nat * low,
                small == b as nat * low,
                unit == n as nat * low,
                exact == signed(negative, large) + signed(other_negative, small),
                signed(negative, a as nat) + signed(other_negative, b as nat) == signed(
                    result_negative,
                    n as nat,
                ),
        ;
    }
    let v: Single = round_ratio(result_negative, n, 1, other_exponent);
    proof {
        if n == 0 {
            assert(0nat * low == 0) by (nonlinear_arith);
            assert(nearest(0, 1) == 0);
            lemma_pow2_pos(277);
        } else {
            assert(n as nat * low > 0) by (nonlinear_arith)
                requires
                    n > 0,
                    low > 0,
            ;
        }
    }
    v
}

/// Adds two numbers.
pub fn plus(a: Single, b: Single) -> (v: Single)
    requires
        a.wf(),
        b.wf(),
    ensures
        v.wf(),
        v@ == sum(a@, b@),
{
    match (a, b) {
        (Single::NotANumber, _) => Single::NotANumber,
        (_, Single::NotANumber) => Single::NotANumber,
        (Single::Infinity { negative: x }, Single::Infinity { negative: y }) => {
            if x == y {
                Single::Infinity { negative: x }
            } else {
                Single::NotANumber
            }
        },
        (Single::Infinity { negative }, Single::Finite { .. }) => Single::Infinity { negative },
        (Single::Finite { .. }, Single::Infinity { negative }) => Single::Infinity { negative },
        (
            Single::Finite { negative: an, significand: am, exponent: ae },
            Single::Finite { negative: bn, significand: bm, exponent: be },
        ) => {
            if ae >= be {
                add_ordered(an, am, ae, bn, bm, be)
            } else {
                add_ordered(bn, bm, be, an, am, ae)
            }
        },
    }
}

/// Divides a number by a positive whole number.
pub fn divide(a: Single, count: u16) -> (v: Single)
    requires
        a.wf(),
        0 < count,
    ensures
        v.wf(),
        v@ == divided(a@, count as nat),
{
    match a {
        Single::NotANumber => Single::NotANumber,
        Single::Infinity { negative } => Single::Infinity { negative },
        Single::Finite { negative, significand, exponent } => {
            let v: Single = round_ratio(negative, significand as u64, count as u64, exponent);
            proof {
                let n = significand as nat * pow2(exponent as nat);
                lemma_pow2_pos(277);
                if n == 0 {
                    assert(nearest(0, count as nat) == 0) by {
                        assert(0nat / count as nat == 0 && 0nat % count as nat == 0)
                            by (nonlinear_arith)
                            requires
                                0 < count,
                        ;
                    }
                }
            }
            v
        },
    }
}

/// The 16-bit sample of a number, where 1.0 is full scale.
pub fn to_sample(a: Single) -> (v: i16)
    requires
        a.wf(),
    ensures
        v == sample_of_value(a@),
{
    match a {
        Single::NotANumber => 0,
        Single::Infinity { negative } => if negative {
            -32768
        } else {
            32767
        },
        Single::Finite { negative, significand, exponent } => {
            let ghost n = significand as nat * pow2(exponent as nat);
            proof {
                lemma_pow2_pos(134);
                lemma_pow2_pos(exponent as nat);
                if n == 0 {
                    assert(0nat / pow2(134) == 0) by (nonlinear_arith)
                        requires
                            0 < pow2(134),
                    ;
                }
            }
            let level: u32 = if exponent >= 134 {
                proof {
                    let p = pow2(134);
                    if exponent > 134 {
                        lemma_pow2_strictly_increases(134, exponent as nat);
                    }
                    assert(n / p >= 0x80_0000) by (nonlinear_arith)
                        requires
                            n == significand as nat * pow2(exponent as nat),
                            significand >= 0x80_0000,
                            pow2(exponent as nat) >= p,
                            0 < p,
                    ;
                }
                0x80_0000
            } else {
                let shift: u32 = 134 - exponent;
                let ghost low = pow2(exponent as nat);
                let ghost q = pow2(shift as nat);
                proof {
                    lemma_pow2_adds(exponent as nat, shift as nat);
                    lemma_pow2_pos(shift as nat);
                    assert(n / pow2(134) == significand as nat / q) by {
                        assert(n == low * significand as nat) by (nonlinear_arith)
                            requires
                                n == significand as nat * low,
                        ;
                        vstd::arithmetic::div_mod::lemma_div_multiples_vanish(
                            significand as int,
                            low as int,
                        );
                        vstd::arithmetic::div_mod::lemma_div_denominator(
                            n as int,
                            low as int,
                            q as int,
                        );
                    }
                }
                if shift >= 24 {
                    proof {
                        lemma2_to64();
                        if shift > 24 {
                            lemma_pow2_strictly_increases(24, shift as nat);
                        }
                        vstd::arithmetic::div_mod::lemma_basic_div(significand as int, q as int);
                    }
                    0
                } else {
                    proof {
                        vstd::bits::lemma_u32_shr_is_div(significand, shift);
                    }
                    significand >> shift
                }
            };
            if negative {
                if level > 32768 {
                    -32768
                } else {
                    (-(level as i32)) as i16
                }
            } else if level > 32767 {
                32767
            } else {
                level as i16
            }
        },
    }
}

/// Reads the number at index `i` of a little-endian byte string.
pub fn read_single(bytes: &[u8], i: usize) -> (v: Single)
    requires
        4 * i + 3 < bytes@.len(),
    ensures
        v.wf(),
        v@ == decode(bytes@)[i as int],
{
    assert(bytes.len() == bytes@.len());
    let at: usize = 4 * i;
    from_bits(
        bytes[at] as u32 + 0x100 * (bytes[at + 1] as u32) + 0x1_0000 * (bytes[at + 2] as u32)
            + 0x100_0000 * (bytes[at + 3] as u32),
    )
}

/// What a frame of one channel adds up to, and averages to, is that channel.
pub proof fn law_one_channel_unchanged(bits: u32)
    ensures
        divided(sum(Value::Finite(0), value_of_bits(bits)), 1) == value_of_bits(bits),
{
    let exponent = (bits as nat / 0x80_0000) % 256;
    let fraction = bits as nat % 0x80_0000;
    if exponent == 0 {
        lemma_representable(fraction as u32, 0);
        lemma2_to64();
        assert(fraction * pow2(0) == fraction) by (nonlinear_arith)
            requires
                pow2(0) == 1,
        ;
    } else if exponent < 255 {
        lemma_representable((fraction + 0x80_0000) as u32, (exponent - 1) as u32);
        lemma_pow2_pos((exponent - 1) as nat);
        assert((fraction + 0x80_0000) * pow2((exponent - 1) as nat) > 0) by (nonlinear_arith)
            requires
                pow2((exponent - 1) as nat) > 0,
        ;
    }
}

/// A number that is exactly `v / 32768` becomes the sample `v`.
pub proof fn law_sample_scale(v: int)
    requires
        samples::is_sample(v),
    ensures
        sample_of_value(Value::Finite(v * pow2(134))) == v,
{
    let p = pow2(134);
    lemma_pow2_pos(134);
    let d = distance(v) as int;
    assert(distance(v * p) == p * d && (v * p < 0 <==> v < 0)) by (nonlinear_arith)
        requires
            0 < p,
            d == (if v < 0 { -v } else { v }),
    ;
    vstd::arithmetic::div_mod::lemma_div_multiples_vanish(d, p as int);
}

/// Every number has a sample, and the sample fits 16 bits.
pub proof fn law_sample_fits(v: Value)
    ensures
        samples::is_sample(sample_of_value(v)),
{
}

/// The nearest integer is at most half a unit away, and an odd one less.
pub proof fn law_nearest_is_half_a_unit_away(n: nat, d: nat)
    requires
        0 < d,
    ensures
        (2 * nearest(n, d) - 1) * d <= 2 * n <= (2 * nearest(n, d) + 1) * d,
        nearest(n, d) % 2 == 1 ==> (2 * nearest(n, d) - 1) * d < 2 * n < (2 * nearest(n, d) + 1)
            * d,
{
    let q = n / d;
    let r = n % d;
    let k = nearest(n, d);
    vstd::arithmetic::div_mod::lemma_fundamental_div_mod(n as int, d as int);
    if k == q {
        assert((2 * k - 1) * d == 2 * (d * q) - d && (2 * k + 1) * d == 2 * (d * q) + d)
            by (nonlinear_arith)
            requires
                k == q,
        ;
    } else {
        assert((2 * k - 1) * d == 2 * (d * q) + d && (2 * k + 1) * d == 2 * (d * q) + 3 * d)
            by (nonlinear_arith)
            requires
                k == q + 1,
        ;
    }
}

/// Of two fractions the larger has no smaller nearest integer.
proof fn lemma_nearest_monotone(a: nat, b: nat, c: nat, d: nat)
    requires
        0 < b,
        0 < d,
        a * d <= c * b,
    ensures
        nearest(a, b) <= nearest(c, d),
{
    let q = nearest(a, b) as int;
    let p = nearest(c, d) as int;
    law_nearest_is_half_a_unit_away(a, b);
    law_nearest_is_half_a_unit_away(c, d);
    if q > p {
        let low = (2 * q - 1) * b;
        let high = (2 * p + 1) * d;
        assert((2 * q - 1) * b * d <= (2 * p + 1) * d * b) by (nonlinear_arith)
            requires
                (2 * q - 1) * b <= 2 * a,
                2 * c <= (2 * p + 1) * d,
                a * d <= c * b,
                0 < b,
                0 < d,
        ;
        assert((2 * q - 1) * b * d == (2 * q - 1) * (b * d) && (2 * p + 1) * d * b == (2 * p + 1)
            * (b * d)) by (nonlinear_arith);
        assert(b * d > 0) by (nonlinear_arith)
            requires
                0 < b,
                0 < d,
        ;
        assert(2 * q - 1 <= 2 * p + 1) by (nonlinear_arith)
            requires
                (2 * q - 1) * (b * d) <= (2 * p + 1) * (b * d),
                b * d > 0,
        ;
        assert(q == p + 1);
        if q % 2 == 1 {
            assert((2 * q - 1) * b * d < (2 * p + 1) * d * b) by (nonlinear_arith)
                requires
                    (2 * q - 1) * b < 2 * a,
                    2 * c <= (2 * p + 1) * d,
                    a * d <= c * b,
                    0 < b,
                    0 < d,
            ;
        } else {
            assert((2 * q - 1) * b * d < (2 * p + 1) * d * b) by (nonlinear_arith)
                requires
                    (2 * q - 1) * b <= 2 * a,
                    2 * c < (2 * p + 1) * d,
                    a * d <= c * b,
                    0 < b,
                    0 < d,
            ;
        }
        assert(false);
    }
}

proof fn lemma_nearest_whole(y: nat, d: nat)
    requires
        0 < d,
    ensures
        nearest(y * d, d) == y,
{
    vstd::arithmetic::div_mod::lemma_fundamental_div_mod_converse(
        (y * d) as int,
        d as int,
        y as int,
        0,
    );
}

/// What is not below 2^24 is not rounded below it.
proof fn lemma_rounded_large(n: nat, d: nat)
    requires
        0 < d,
        0x100_0000 * d <= n,
    ensures
        0x100_0000 <= rounded(n, d),
    decreases n - d,
{
    if n < 0x100_0000 * (2 * d) {
        lemma_nearest_whole(0x80_0000, 2 * d);
        assert((0x80_0000nat * (2 * d)) * (2 * d) <= n * (2 * d)) by (nonlinear_arith)
            requires
                0x80_0000nat * (2 * d) <= n,
        ;
        lemma_nearest_monotone(0x80_0000 * (2 * d), 2 * d, n, 2 * d);
        assert(rounded(n, 2 * d) == nearest(n, 2 * d));
    } else {
        lemma_rounded_large(n, 2 * d);
    }
}

/// Rounding keeps the order: of two fractions the larger is not rounded to the
/// smaller number.
pub proof fn law_rounding_keeps_order(a: nat, b: nat, c: nat, d: nat)
    requires
        0 < b,
        0 < d,
        a * d <= c * b,
    ensures
        rounded(a, b) <= rounded(c, d),
    decreases a + c - b - d,
{
    if a < 0x100_0000 * b && c < 0x100_0000 * d {
        lemma_nearest_monotone(a, b, c, d);
    } else if a < 0x100_0000 * b {
        lemma_rounded_large(c, d);
        assert(a * b <= (0x100_0000 * b) * b) by (nonlinear_arith)
            requires
                a <= 0x100_0000 * b,
        ;
        lemma_nearest_monotone(a, b, 0x100_0000 * b, b);
        lemma_nearest_whole(0x100_0000, b);
    } else {
        assert(c >= 0x100_0000 * d) by (nonlinear_arith)
            requires
                a >= 0x100_0000 * b,
                a * d <= c * b,
                0 < b,
                0 < d,
        ;
        assert(a * (2 * d) <= c * (2 * b)) by (nonlinear_arith)
            requires
                a * d <= c * b,
        ;
        law_rounding_keeps_order(a, 2 * b, c, 2 * d);
    }
}

/// A number with a significand of at most 24 bits is its own rounding, however
/// the fraction that stands for it is written.
pub proof fn law_short_numbers_are_exact(m: nat, e: nat, d: nat)
    requires
        0 < d,
        m <= 0x100_0000,
    ensures
        rounded(m * pow2(e) * d, d) == m * pow2(e),
    decreases e,
{
    let y = m * pow2(e);
    let n = y * d;
    if n < 0x100_0000 * d {
        lemma_nearest_whole(y, d);
    } else if e == 0 {
        lemma2_to64();
        assert(y == m) by (nonlinear_arith)
            requires
                y == m * pow2(e),
                pow2(e) == 1,
        ;
        assert(m >= 0x100_0000) by (nonlinear_arith)
            requires
                m * d >= 0x100_0000 * d,
                0 < d,
        ;
        assert(n == 0x80_0000 * (2 * d));
        lemma_nearest_whole(0x80_0000, 2 * d);
        assert(rounded(n, 2 * d) == nearest(n, 2 * d));
    } else {
        let f = (e - 1) as nat;
        lemma_pow2_unfold(e);
        law_short_numbers_are_exact(m, f, 2 * d);
        assert(m * pow2(f) * (2 * d) == n && y == 2 * (m * pow2(f))) by (nonlinear_arith)
            requires
                n == m * pow2(e) * d,
                y == m * pow2(e),
                pow2(e) == 2 * pow2(f),
        ;
    }
}

/// No number with a significand of at most 24 bits is nearer to a fraction than
/// its rounding.
pub proof fn law_rounding_is_nearest(n: nat, d: nat, m: nat, e: nat)
    requires
        0 < d,
        m <= 0x100_0000,
    ensures
        ({
            let off = rounded(n, d) * d - n;
            let other = m * pow2(e) * d - n;
            (if off < 0 { -off } else { off }) <= (if other < 0 { -other } else { other })
        }),
    decreases n - d,
{
    let y = m * pow2(e);
    let k = rounded(n, d) as int;
    if n < 0x100_0000 * d {
        law_nearest_is_half_a_unit_away(n, d);
        assert((2 * k - 1) * d == 2 * (k * d) - d && (2 * k + 1) * d == 2 * (k * d) + d)
            by (nonlinear_arith);
        if y < k {
            assert(y * d <= k * d - d) by (nonlinear_arith)
                requires
                    y <= k - 1,
                    0 < d,
            ;
        } else if y > k {
            assert(y * d >= k * d + d) by (nonlinear_arith)
                requires
                    y >= k + 1,
                    0 < d,
            ;
        }
    } else {
        let half = rounded(n, 2 * d);
        assert(k * d == half * (2 * d)) by (nonlinear_arith)
            requires
                k == 2 * half,
        ;
        if e == 0 {
            lemma2_to64();
            law_rounding_is_nearest(n, 2 * d, 0x80_0000, 0);
            assert(0x80_0000nat * pow2(0) * (2 * d) == 0x100_0000 * d) by (nonlinear_arith)
                requires
                    pow2(0) == 1,
            ;
            assert(y == m) by (nonlinear_arith)
                requires
                    y == m * pow2(e),
                    pow2(e) == 1,
            ;
            assert(y * d <= 0x100_0000 * d) by (nonlinear_arith)
                requires
                    y <= 0x100_0000,
                    0 < d,
            ;
        } else {
            let f = (e - 1) as nat;
            lemma_pow2_unfold(e);
            law_rounding_is_nearest(n, 2 * d, m, f);
            assert(m * pow2(f) * (2 * d) == y * d) by (nonlinear_arith)
                requires
                    y == m * pow2(e),
                    pow2(e) == 2 * pow2(f),
            ;
        }
    }
}

/// `a` is at most `b`, where both are numbers.
pub open spec fn at_most(a: Value, b: Value) -> bool {
    match (a, b) {
        (Value::NotANumber, _) => false,
        (_, Value::NotANumber) => false,
        (Value::Infinity(true), _) => true,
        (_, Value::Infinity(false)) => true,
        (Value::Finite(x), Value::Finite(y)) => x <= y,
        _ => false,
    }
}

proof fn lemma_to_single_keeps_order(x: int, y: int, d: nat)
    requires
        0 < d,
        x <= y,
    ensures
        at_most(to_single(x < 0, distance(x), d), to_single(y < 0, distance(y), d)),
{
    if x < 0 && y < 0 {
        assert(distance(y) * d <= distance(x) * d) by (nonlinear_arith)
            requires
                distance(y) <= distance(x),
        ;
        law_rounding_keeps_order(distance(y), d, distance(x), d);
    } else if x >= 0 {
        assert(distance(x) * d <= distance(y) * d) by (nonlinear_arith)
            requires
                distance(x) <= distance(y),
        ;
        law_rounding_keeps_order(distance(x), d, distance(y), d);
    }
}

/// Adding keeps the order: larger numbers do not add up to less.
pub proof fn law_sum_keeps_order(a: Value, b: Value, x: int, y: int)
    requires
        at_most(a, b),
        x <= y,
    ensures
        at_most(sum(a, Value::Finite(x)), sum(b, Value::Finite(y))),
{
    if let (Value::Finite(p), Value::Finite(q)) = (a, b) {
        lemma_to_single_keeps_order(p + x, q + y, 1);
    }
}

/// Dividing keeps the order.
pub proof fn law_quotient_keeps_order(a: Value, b: Value, count: nat)
    requires
        at_most(a, b),
        0 < count,
    ensures
        at_most(divided(a, count), divided(b, count)),
{
    if let (Value::Finite(p), Value::Finite(q)) = (a, b) {
        lemma_to_single_keeps_order(p, q, count);
    }
}

/// The sample of a number keeps the order.
pub proof fn law_sample_keeps_order(a: Value, b: Value)
    requires
        at_most(a, b),
    ensures
        sample_of_value(a) <= sample_of_value(b),
{
    if let (Value::Finite(p), Value::Finite(q)) = (a, b) {
        let u = pow2(134) as int;
        lemma_pow2_pos(134);
        if p >= 0 {
            vstd::arithmetic::div_mod::lemma_div_is_ordered(p, q, u);
        } else if q < 0 {
            vstd::arithmetic::div_mod::lemma_div_is_ordered(-q, -p, u);
        } else {
            vstd::arithmetic::div_mod::lemma_div_pos_is_pos(-p, u);
            vstd::arithmetic::div_mod::lemma_div_pos_is_pos(q, u);
        }
    }
}

/// A number from `k / 32768` up to the next such step has the sample `k`, below
/// zero as above it, and what lies beyond full scale has the last sample.
pub proof fn law_sample_steps(x: int, k: int)
    requires
        0 <= k,
        k * pow2(134) <= x < (k + 1) * pow2(134),
    ensures
        sample_of_value(Value::Finite(x)) == (if k <= 32767 { k } else { 32767 }),
        sample_of_value(Value::Finite(-x)) == (if k <= 32768 { -k } else { -32768 }),
        sample_of_value(Value::NotANumber) == 0,
        sample_of_value(Value::Infinity(false)) == 32767,
        sample_of_value(Value::Infinity(true)) == -32768,
{
    let u = pow2(134) as int;
    lemma_pow2_pos(134);
    assert(k * u >= 0) by (nonlinear_arith)
        requires
            0 <= k,
            0 < u,
    ;
    assert((k + 1) * u == k * u + u) by (nonlinear_arith);
    assert(k * u == u * k) by (nonlinear_arith);
    vstd::arithmetic::div_mod::lemma_fundamental_div_mod_converse(x, u, k, x - k * u);
}

/// A sum of finite numbers is the nearest number to the exact sum: no number
/// with a significand of at most 24 bits is nearer, and what is such a number
/// is the sum itself.
pub proof fn law_sum_is_nearest(x: int, y: int, m: int, e: nat)
    requires
        -0x100_0000 <= m <= 0x100_0000,
    ensures
        sum(Value::Finite(x), Value::Finite(y)) matches Value::Finite(z) ==> {
            let off = z - (x + y);
            let other = m * pow2(e) - (x + y);
            (if off < 0 { -off } else { off }) <= (if other < 0 { -other } else { other })
        },
        x + y == m * pow2(e) && -pow2(277) < x + y < pow2(277) ==> sum(
            Value::Finite(x),
            Value::Finite(y),
        ) == Value::Finite(x + y),
{
    let t = x + y;
    let p = pow2(e);
    let k = if t < 0 { -m } else { m };
    lemma_pow2_pos(e);
    assert(k * p == (if t < 0 { -(m * p) } else { m * p })) by (nonlinear_arith)
        requires
            k == (if t < 0 { -m } else { m }),
    ;
    if k >= 0 {
        law_rounding_is_nearest(distance(t), 1, k as nat, e);
        law_short_numbers_are_exact(k as nat, e, 1);
    } else {
        law_rounding_is_nearest(distance(t), 1, 0, e);
        assert(0nat * p == 0) by (nonlinear_arith);
        assert(k * p < 0) by (nonlinear_arith)
            requires
                k < 0,
                0 < p,
        ;
    }
}

/// A quotient of a finite number is the nearest number to the exact quotient.
pub proof fn law_quotient_is_nearest(x: int, count: nat, m: int, e: nat)
    requires
        0 < count,
        -0x100_0000 <= m <= 0x100_0000,
    ensures
        divided(Value::Finite(x), count) matches Value::Finite(z) ==> {
            let off = z * count - x;
            let other = m * pow2(e) * count - x;
            (if off < 0 { -off } else { off }) <= (if other < 0 { -other } else { other })
        },
{
    let p = pow2(e);
    let k = if x < 0 { -m } else { m };
    lemma_pow2_pos(e);
    assert(k * p * count == (if x < 0 { -(m * p * count) } else { m * p * count }))
        by (nonlinear_arith)
        requires
            k == (if x < 0 { -m } else { m }),
    ;
    let r = rounded(distance(x), count);
    assert((-(r as int)) * count == -(r * count)) by (nonlinear_arith);
    if k >= 0 {
        law_rounding_is_nearest(distance(x), count, k as nat, e);
    } else {
        law_rounding_is_nearest(distance(x), count, 0, e);
        assert(0nat * p * count == 0) by (nonlinear_arith);
        assert(k * p * count <= 0) by (nonlinear_arith)
            requires
                k < 0,
                0 < p,
                0 < count,
        ;
    }
}

/// The pattern after a pattern stands for the next larger number, one unit in
/// the last place away; counting starts at zero, and the sign bit negates.
pub proof fn law_patterns_count_up(bits: u32)
    requires
        bits < 0x7f7f_ffff,
    ensures
        value_of_bits(0) == Value::Finite(0),
        value_of_bits(bits) matches Value::Finite(x) && value_of_bits((bits + 1) as u32)
            == Value::Finite(
            x + pow2((if bits < 0x80_0000 { 0 } else { bits as nat / 0x80_0000 - 1 }) as nat),
        ) && value_of_bits((bits + 0x8000_0000) as u32) == Value::Finite(-x),
{
    let e = bits as nat / 0x80_0000;
    let f = bits as nat % 0x80_0000;
    let next = bits as nat + 1;
    lemma2_to64();
    assert((bits as nat + 0x8000_0000) / 0x80_0000 == e + 256);
    assert((e + 256) % 256 == e);
    if f < 0x7f_ffff {
        assert(next / 0x80_0000 == e && next % 0x80_0000 == f + 1);
        if e > 0 {
            let p = pow2((e - 1) as nat);
            assert((f + 1 + 0x80_0000) * p == (f + 0x80_0000) * p + p) by (nonlinear_arith);
        }
    } else {
        assert(next / 0x80_0000 == e + 1 && next % 0x80_0000 == 0);
        if e > 0 {
            let p = pow2((e - 1) as nat);
            lemma_pow2_unfold(e);
            assert(0x80_0000 * (2 * p) == 0xff_ffff * p + p);
        }
    }
}

/// The remaining patterns are the infinities and what is not a number.
pub proof fn law_special_patterns(bits: u32)
    requires
        0x7f80_0000 < bits < 0x8000_0000,
    ensures
        value_of_bits(0x7f80_0000) == Value::Infinity(false),
        value_of_bits(0xff80_0000) == Value::Infinity(true),
        value_of_bits(bits) == Value::NotANumber,
        value_of_bits((bits + 0x8000_0000) as u32) == Value::NotANumber,
{
    assert(bits as nat / 0x80_0000 == 255 && bits as nat % 0x80_0000 != 0);
    assert((bits as nat + 0x8000_0000) / 0x80_0000 == 511);
    assert((bits as nat + 0x8000_0000) % 0x80_0000 == bits as nat % 0x80_0000);
}

/// The numbers of a byte string lie four bytes apart, lowest byte first, and
/// bytes at the end that make up no whole one are ignored.
pub proof fn law_numbers_are_little_endian(bytes: Seq<u8>, i: int, bits: u32)
    requires
        0 <= i < bytes.len() / 4,
        bits == bytes[4 * i] + 256 * (bytes[4 * i + 1] + 256 * (bytes[4 * i + 2] + 256 * bytes[4
            * i + 3])),
    ensures
        decode(bytes).len() == bytes.len() / 4,
        decode(bytes)[i] == value_of_bits(bits),
{
}

/// What is not a number, and infinities that cancel, stay that way through sums
/// and quotients; an infinity otherwise swallows what is added.
pub proof fn law_special_sums(a: Value, x: int, negative: bool, count: nat)
    ensures
        sum(Value::NotANumber, a) == Value::NotANumber,
        sum(a, Value::NotANumber) == Value::NotANumber,
        sum(Value::Infinity(negative), Value::Infinity(!negative)) == Value::NotANumber,
        sum(Value::Infinity(negative), Value::Infinity(negative)) == Value::Infinity(negative),
        sum(Value::Infinity(negative), Value::Finite(x)) == Value::Infinity(negative),
        sum(Value::Finite(x), Value::Infinity(negative)) == Value::Infinity(negative),
        divided(Value::NotANumber, count) == Value::NotANumber,
        divided(Value::Infinity(negative), count) == Value::Infinity(negative),
{
}

/// A sum is taken in order from zero, one number after the other.
pub proof fn law_sums_go_in_order(s: Seq<Value>, from: int, n: nat)
    ensures
        sum_from(s, from, 0) == Value::Finite(0),
        sum_from(s, from, n + 1) == sum(sum_from(s, from, n), s[from + n]),
{
}

/// Larger numbers do not add up to less, however many there are, and finite
/// numbers never add up to something that is not a number.
pub proof fn lemma_sums_keep_order(s: Seq<Value>, t: Seq<Value>, from: int, at: int, n: nat)
    requires
        forall|i: int|
            #![trigger s[from + i]]
            #![trigger t[at + i]]
            0 <= i < n ==> s[from + i] is Finite && t[at + i] is Finite && s[from + i]->Finite_0
                <= t[at + i]->Finite_0,
    ensures
        at_most(sum_from(s, from, n), sum_from(t, at, n)),
    decreases n,
{
    if n > 0 {
        let k = (n - 1) as nat;
        lemma_sums_keep_order(s, t, from, at, k);
        assert(s[from + k] is Finite && t[at + k] is Finite);
        law_sum_keeps_order(
            sum_from(s, from, k),
            sum_from(t, at, k),
            s[from + k]->Finite_0,
            t[at + k]->Finite_0,
        );
    }
}

/// Whole multiples of one unit add up exactly as long as they stay short.
pub proof fn lemma_short_sums_are_exact(
    s: Seq<Value>,
    from: int,
    levels: Seq<int>,
    bound: int,
    e: nat,
    n: nat,
)
    requires
        n <= levels.len(),
        e <= 252,
        0 <= bound,
        n * bound <= 0x100_0000,
        forall|i: int|
            #![trigger levels[i]]
            #![trigger s[from + i]]
            0 <= i < n ==> -bound <= levels[i] <= bound && s[from + i] == Value::Finite(
                levels[i] * pow2(e),
            ),
    ensures
        sum_from(s, from, n) == Value::Finite(samples::total(levels.take(n as int)) * pow2(e)),
        -(n * bound) <= samples::total(levels.take(n as int)) <= n * bound,
    decreases n,
{
    let p = pow2(e);
    lemma_pow2_pos(e);
    if n == 0 {
        assert(levels.take(0) =~= Seq::<int>::empty());
        samples::law_total_adds_up(Seq::empty(), 0);
        assert(0int * p == 0) by (nonlinear_arith);
        assert(0 * bound == 0) by (nonlinear_arith);
    } else {
        let k = (n - 1) as nat;
        assert(k * bound == n * bound - bound) by (nonlinear_arith)
            requires
                k == n - 1,
        ;
        lemma_short_sums_are_exact(s, from, levels, bound, e, k);
        let before = samples::total(levels.take(k as int));
        let last = levels[k as int];
        assert(s[from + k] == Value::Finite(last * p));
        assert(levels.take(n as int) =~= levels.take(k as int).push(last));
        samples::law_total_adds_up(levels.take(k as int), last);
        let t = before + last;
        assert(before * p + last * p == t * p) by (nonlinear_arith)
            requires
                t == before + last,
        ;
        lemma2_to64();
        lemma_pow2_adds(24, 252);
        lemma_pow2_strictly_increases(276, 277);
        if e < 252 {
            lemma_pow2_strictly_increases(e, 252);
        }
        assert(-0x100_0000 * pow2(252) <= t * p <= 0x100_0000 * pow2(252)) by (nonlinear_arith)
            requires
                -0x100_0000 <= t <= 0x100_0000,
                0 < p <= pow2(252),
        ;
        law_sum_is_nearest(before * p, last * p, t, e);
    }
}

/// A number taken apart stands for its significand times its power of two, with
/// its sign.
pub proof fn law_parts_stand_for_the_number(negative: bool, significand: u32, exponent: u32)
    ensures
        ({
            let parts = Single::Finite { negative, significand, exponent };
            let x = significand * pow2(exponent as nat);
            parts@ == Value::Finite(if negative { -x } else { x as int })
        }),
        (Single::Infinity { negative })@ == Value::Infinity(negative),
        Single::NotANumber@ == Value::NotANumber,
{
}

} // verus!
