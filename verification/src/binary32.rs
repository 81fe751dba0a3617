//! Arithmetic on IEEE 754 binary32 bit patterns.
//!
//! Light intensities and decay rates travel through this crate as the `u32`
//! that holds their binary32 encoding, so that what is computed from them is
//! integer arithmetic. A finite number that is not negative is a whole number
//! of *units*, the unit being the least positive binary32 number, two to the
//! power of -149.

use vstd::arithmetic::div_mod::*;
use vstd::arithmetic::power2::*;
use vstd::prelude::*;

verus! {

/// The pattern of positive infinity. The patterns below it, in their order as
/// integers, are the finite numbers that are not negative.
pub const INFINITY: u32 = 0x7F80_0000;

/// The pattern of negative zero, the least pattern whose sign bit is set.
pub const SIGN: u32 = 0x8000_0000;

/// The pattern of negative infinity.
pub const MINUS_INFINITY: u32 = 0xFF80_0000;

/// The pattern of 1.0.
pub const FULL: u32 = 0x3F80_0000;

/// The biased exponent of a pattern whose sign bit is clear.
pub open spec fn biased_exponent(bits: u32) -> nat {
    (bits / 0x80_0000) as nat
}

/// The integer significand of a pattern whose sign bit is clear.
pub open spec fn significand(bits: u32) -> nat {
    let fraction = (bits % 0x80_0000) as nat;
    if biased_exponent(bits) == 0 {
        fraction
    } else {
        0x80_0000 + fraction
    }
}

/// The power of two that the significand counts, in units.
pub open spec fn shift(bits: u32) -> nat {
    if biased_exponent(bits) == 0 {
        0
    } else {
        (biased_exponent(bits) - 1) as nat
    }
}

/// The number that a finite, not negative pattern encodes, in units.
pub open spec fn units(bits: u32) -> nat {
    significand(bits) * pow2(shift(bits))
}

/// The units in 1.
pub open spec fn one() -> nat {
    pow2(149)
}

/// The integer nearest to `n / d`, the even one where two are as near.
pub open spec fn half_even(n: nat, d: nat) -> nat {
    let floor = n / d;
    let rest = n % d;
    if 2 * rest < d || (2 * rest == d && floor % 2 == 0) {
        floor
    } else {
        floor + 1
    }
}

/// How many binary digits `v` has beyond the 24 of a significand.
pub open spec fn excess(v: nat) -> nat
    decreases v,
{
    if v < 0x100_0000 {
        0
    } else {
        1 + excess(v / 2)
    }
}

/// `v` rounded to 24 significant binary digits, ties to even: what a binary32
/// operation whose exact result is `v` units gives, short of overflow.
pub open spec fn rounded(v: nat) -> nat {
    half_even(v, pow2(excess(v))) * pow2(excess(v))
}

/// The quotient `n / d`, in units, rounded to 24 significant binary digits and
/// to whole units, ties to even.
pub open spec fn rounded_ratio(n: nat, d: nat) -> nat {
    let k = excess(n / d);
    half_even(n, d * pow2(k)) * pow2(k)
}

/// The integer part of the square root of `n`.
pub open spec fn floor_root(n: nat) -> nat {
    choose|f: nat| is_floor_root(f, n)
}

/// `f` is the integer part of the square root of `n`.
pub open spec fn is_floor_root(f: nat, n: nat) -> bool {
    f * f <= n < (f + 1) * (f + 1)
}

/// The square root of `n`, rounded to 24 significant binary digits and to a
/// whole number, ties to even.
pub open spec fn rounded_root(n: nat) -> nat {
    let k = excess(floor_root(n));
    let below = floor_root(n) / pow2(k);
    // Twice the middle between the two candidates.
    let middle = (2 * below + 1) * pow2(k);
    if 4 * n < middle * middle || (4 * n == middle * middle && below % 2 == 0) {
        below * pow2(k)
    } else {
        (below + 1) * pow2(k)
    }
}

/// `bits` encodes `v` units, or is infinity where `v` is out of range.
pub open spec fn encodes(bits: u32, v: nat) -> bool {
    if v >= pow2(277) {
        bits == INFINITY
    } else {
        bits < INFINITY && units(bits) == v
    }
}

/// The binary32 product of the integer `factor` and a finite intensity, in units.
pub open spec fn product(factor: nat, bits: u32) -> nat {
    rounded(factor * units(bits))
}

/// An intensity that is not above zero. No NaN is.
pub open spec fn not_positive(bits: u32) -> bool {
    bits == 0 || SIGN <= bits <= MINUS_INFINITY
}

/// `n`, held to at most `limit`.
pub open spec fn at_most(n: nat, limit: nat) -> nat {
    if n <= limit {
        n
    } else {
        limit
    }
}

/// The 8-bit level of an intensity: 255 times the intensity, its fraction
/// dropped, held to 0..=255. A NaN has level 0.
pub open spec fn level8(bits: u32) -> nat {
    if bits > INFINITY {
        0
    } else if bits == INFINITY {
        255
    } else {
        at_most(product(255, bits) / one(), 255)
    }
}

/// The 16-bit level that `full` at full intensity has at the given one: the
/// product, rounded to the nearest integer and held to 0..=65535, a half going
/// up. A NaN has level 0, and so has infinity times zero.
pub open spec fn level16(full: nat, bits: u32) -> nat {
    if bits > INFINITY || full == 0 {
        0
    } else if bits == INFINITY {
        65535
    } else {
        at_most((2 * product(full, bits) + one()) / (2 * one()), 65535)
    }
}

/// Whether an intensity is not above zero.
pub fn is_not_positive(bits: u32) -> (b: bool)
    ensures
        b == not_positive(bits),
{
    bits == 0 || (SIGN <= bits && bits <= MINUS_INFINITY)
}

/// How many binary digits `v` has beyond 24.
fn digits_over(v: u64) -> (k: u32)
    ensures
        k == excess(v as nat),
        k <= 40,
        v < 0x100_0000 * pow2(k as nat),
    decreases v,
{
    proof {
        lemma_excess(v as nat);
    }
    if v < 0x100_0000 {
        proof {
            lemma2_to64();
        }
        0
    } else {
        let k: u32 = digits_over(v / 2);
        proof {
            lemma_pow2_unfold((k + 1) as nat);
            if k >= 40 {
                lemma_excess_bound(v as nat);
            }
        }
        k + 1
    }
}

/// What the excess digits say of the size of a number.
pub proof fn lemma_excess(v: nat)
    ensures
        v < 0x100_0000 * pow2(excess(v)),
        v >= 0x100_0000 ==> v >= 0x80_0000 * pow2(excess(v)),
    decreases v,
{
    lemma2_to64();
    if v >= 0x100_0000 {
        lemma_excess(v / 2);
        lemma_pow2_unfold((1 + excess(v / 2)) as nat);
    }
}

/// A 64-bit number has at most 40 excess digits.
proof fn lemma_excess_bound(v: nat)
    requires
        v <= u64::MAX,
    ensures
        excess(v) <= 40,
{
    lemma_excess(v);
    lemma2_to64();
    lemma2_to64_rest();
    if excess(v) > 40 {
        if excess(v) > 41 {
            lemma_pow2_strictly_increases(41, excess(v));
        }
    }
}

/// Two to the power of `k`.
fn two_to(k: u32) -> (d: u64)
    requires
        k <= 60,
    ensures
        d == pow2(k as nat),
        0 < d <= 0x1000_0000_0000_0000,
{
    let mut d: u64 = 1;
    let mut i: u32 = 0;
    proof {
        lemma2_to64();
        lemma2_to64_rest();
    }
    while i < k
        invariant
            i <= k <= 60,
            d == pow2(i as nat),
            pow2(60) == 0x1000_0000_0000_0000,
            0 < d <= pow2(60),
        decreases k - i,
    {
        proof {
            lemma_pow2_unfold((i + 1) as nat);
            if i + 1 < 60 {
                lemma_pow2_strictly_increases((i + 1) as nat, 60);
            }
        }
        d = d * 2;
        i += 1;
    }
    d
}

/// A number of at most 24 binary digits is not changed by rounding.
proof fn lemma_rounded_short(v: nat)
    requires
        v < 0x100_0000,
    ensures
        rounded(v) == v,
{
    lemma2_to64();
    assert(v / 1 == v && v % 1 == 0);
    assert(half_even(v, 1) == v);
    assert(v * 1 == v) by (nonlinear_arith);
}

/// Doubling a number doubles what it rounds to.
proof fn lemma_rounded_double(v: nat)
    ensures
        rounded(2 * v) == 2 * rounded(v),
{
    lemma2_to64();
    if 2 * v < 0x100_0000 {
        lemma_rounded_short(2 * v);
        lemma_rounded_short(v);
    } else {
        let k = excess(v);
        let d = pow2(k);
        lemma_pow2_pos(k);
        assert((2 * v) / 2 == v);
        assert(excess(2 * v) == 1 + k);
        lemma_pow2_unfold(1 + k);
        assert(pow2(1 + k) == 2 * d);
        lemma_div_multiples_vanish_quotient(2, v as int, d as int);
        lemma_fundamental_div_mod(v as int, d as int);
        lemma_fundamental_div_mod((2 * v) as int, (2 * d) as int);
        let f = v as int / d as int;
        assert((2 * d) * f == 2 * (d * f)) by (nonlinear_arith);
        assert((2 * v) % (2 * d) == 2 * (v % d));
        assert(half_even(2 * v, 2 * d) == half_even(v, d));
        let h = half_even(v, d);
        assert(h * (2 * d) == 2 * (h * d)) by (nonlinear_arith);
    }
}

/// Rounding commutes with multiplying by a power of two.
proof fn lemma_rounded_shift(v: nat, j: nat)
    ensures
        rounded(v * pow2(j)) == rounded(v) * pow2(j),
    decreases j,
{
    lemma2_to64();
    if j == 0 {
        assert(v * 1 == v) by (nonlinear_arith);
        assert(rounded(v) * 1 == rounded(v)) by (nonlinear_arith);
    } else {
        let i = (j - 1) as nat;
        lemma_rounded_shift(v, i);
        lemma_pow2_unfold(j);
        assert(v * pow2(j) == 2 * (v * pow2(i))) by (nonlinear_arith)
            requires
                pow2(j) == 2 * pow2(i),
        ;
        lemma_rounded_double((v * pow2(i)) as nat);
        assert(rounded(v) * pow2(j) == 2 * (rounded(v) * pow2(i))) by (nonlinear_arith)
            requires
                pow2(j) == 2 * pow2(i),
        ;
    }
}

/// The integer nearest to `n / d`, ties to even.
fn nearest(n: u64, d: u64) -> (q: u64)
    requires
        0 < d <= 0x1000_0000_0000_0000,
        n < 0x1000_0000_0000_0000,
    ensures
        q == half_even(n as nat, d as nat),
        n / d <= q <= n / d + 1,
{
    let floor: u64 = n / d;
    let rest: u64 = n % d;
    if 2 * rest < d || (2 * rest == d && floor % 2 == 0) {
        floor
    } else {
        proof {
            lemma_div_nonincreasing(n as int, d as int);
        }
        floor + 1
    }
}

/// `v` rounded to 24 significant binary digits.
fn round_to_significand(v: u64) -> (r: u64)
    requires
        v < 0x200_0000_0000,
    ensures
        r == rounded(v as nat),
        r <= 0x200_0000_0000,
        v >= 0x80_0000 ==> r >= 0x80_0000,
        v == 0 ==> r == 0,
{
    let k: u32 = digits_over(v);
    proof {
        lemma2_to64();
        lemma2_to64_rest();
        lemma_excess(v as nat);
        if k > 17 {
            lemma_pow2_strictly_increases(17, k as nat);
        }
        if k < 17 {
            lemma_pow2_strictly_increases(k as nat, 17);
        }
        assert(k <= 17);
        assert(pow2(k as nat) <= 0x2_0000);
    }
    let d: u64 = two_to(k);
    let ghost floor = v as int / d as int;
    let ghost rest = v as int % d as int;
    proof {
        lemma_fundamental_div_mod(v as int, d as int);
        lemma_mod_bound(v as int, d as int);
        assert(floor < 0x100_0000) by (nonlinear_arith)
            requires
                v == d * floor + rest,
                rest >= 0,
                d > 0,
                v < 0x100_0000 * d,
        ;
    }
    let near: u64 = nearest(v, d);
    proof {
        assert(near * d <= 0x100_0000 * 0x2_0000) by (nonlinear_arith)
            requires
                near <= 0x100_0000,
                d <= 0x2_0000,
        ;
        if v >= 0x100_0000 {
            assert(floor >= 0x80_0000) by (nonlinear_arith)
                requires
                    v == d * floor + rest,
                    rest < d,
                    v >= 0x80_0000 * d,
            ;
            assert(near * d >= 0x80_0000) by (nonlinear_arith)
                requires
                    near >= 0x80_0000,
                    d >= 1,
            ;
        } else {
            lemma_rounded_short(v as nat);
        }
    }
    near * d
}

/// The significand of a pattern whose sign bit is clear, and the power of two
/// that it counts.
fn decode(bits: u32) -> (parts: (u32, u32))
    requires
        bits < INFINITY,
    ensures
        parts.0 == significand(bits),
        parts.1 == shift(bits),
        parts.0 < 0x100_0000,
        parts.1 <= 253,
        parts.1 >= 1 ==> parts.0 >= 0x80_0000,
{
    let exponent: u32 = bits / 0x80_0000;
    let fraction: u32 = bits % 0x80_0000;
    if exponent == 0 {
        (fraction, 0)
    } else {
        (fraction + 0x80_0000, exponent - 1)
    }
}

/// Dividing by all units in 1 leaves a division by what the shift lacks.
proof fn lemma_unscale(q: nat, j: nat, whole: nat)
    requires
        j <= whole,
    ensures
        (q * pow2(j)) / pow2(whole) == q / pow2((whole - j) as nat),
{
    let t = (whole - j) as nat;
    lemma_pow2_adds(j, t);
    lemma_pow2_pos(j);
    lemma_pow2_pos(t);
    lemma_div_multiples_vanish_quotient(pow2(j) as int, q as int, pow2(t) as int);
    assert(q * pow2(j) == pow2(j) * q) by (nonlinear_arith);
}

/// A number times a power of two, over fewer units, is no less than the number.
proof fn lemma_scale_up(q: nat, j: nat, whole: nat)
    requires
        whole <= j,
    ensures
        (q * pow2(j)) / pow2(whole) >= q,
{
    let t = (j - whole) as nat;
    lemma_pow2_adds(whole, t);
    lemma_pow2_pos(whole);
    lemma_pow2_pos(t);
    let w = pow2(whole) as int;
    let x = q as int * pow2(t) as int;
    assert(q * pow2(j) == x * w) by (nonlinear_arith)
        requires
            pow2(j) == w * pow2(t),
            x == q as int * pow2(t) as int,
    ;
    lemma_div_by_multiple(x, w);
    assert(x >= q) by (nonlinear_arith)
        requires
            x == q as int * pow2(t) as int,
            pow2(t) >= 1,
            q >= 0,
    ;
}

/// The 8-bit level of an intensity.
pub fn to_level8(bits: u32) -> (level: u8)
    ensures
        level == level8(bits),
{
    if bits > INFINITY {
        return 0;
    }
    if bits == INFINITY {
        return 255;
    }
    let (m, j): (u32, u32) = decode(bits);
    let q: u64 = round_to_significand(255 * m as u64);
    proof {
        lemma_rounded_shift((255 * m) as nat, j as nat);
        assert(255 * (m * pow2(j as nat)) == (255 * m) * pow2(j as nat)) by (nonlinear_arith);
        assert(product(255, bits) == q * pow2(j as nat));
    }
    if j >= 149 {
        proof {
            lemma_scale_up(q as nat, j as nat, 149);
        }
        return 255;
    }
    let t: u32 = 149 - j;
    proof {
        lemma_unscale(q as nat, j as nat, 149);
    }
    if t >= 42 {
        proof {
            lemma2_to64_rest();
            if t > 42 {
                lemma_pow2_strictly_increases(42, t as nat);
            }
            lemma_basic_div(q as int, pow2(t as nat) as int);
        }
        return 0;
    }
    let whole: u64 = q / two_to(t);
    if whole > 255 {
        255
    } else {
        whole as u8
    }
}

/// The 16-bit level that `full` at full intensity has at the given one.
pub fn to_level16(full: u16, bits: u32) -> (level: u16)
    ensures
        level == level16(full as nat, bits),
{
    if bits > INFINITY || full == 0 {
        return 0;
    }
    if bits == INFINITY {
        return 65535;
    }
    let (m, j): (u32, u32) = decode(bits);
    assert(0 <= full * m < 0x1_0000 * 0x100_0000) by (nonlinear_arith)
        requires
            0 <= full < 0x1_0000,
            0 <= m < 0x100_0000,
    ;
    let p: u64 = full as u64 * m as u64;
    let q: u64 = round_to_significand(p);
    let ghost double = 2 * product(full as nat, bits);
    proof {
        lemma_rounded_shift(p as nat, j as nat);
        assert(full * (m * pow2(j as nat)) == p * pow2(j as nat)) by (nonlinear_arith)
            requires
                p == full * m,
        ;
        assert(product(full as nat, bits) == q * pow2(j as nat));
        lemma_pow2_unfold(150);
        assert(2 * one() == pow2(150));
        assert(2 * (q * pow2(j as nat)) == (2 * q) * pow2(j as nat)) by (nonlinear_arith);
        assert(double == (2 * q) * pow2(j as nat));
    }
    if j >= 150 {
        proof {
            lemma_scale_up((2 * q) as nat, j as nat, 150);
            assert(full * m >= 0x80_0000) by (nonlinear_arith)
                requires
                    full >= 1,
                    m >= 0x80_0000,
            ;
            lemma_pow2_pos(150);
            lemma_div_is_ordered(double as int, (double + one()) as int, pow2(150) as int);
        }
        return 65535;
    }
    let t: u32 = 150 - j;
    proof {
        // The half that is added is a multiple of the shift, too.
        lemma_pow2_adds(j as nat, (t - 1) as nat);
        let half = pow2((t - 1) as nat);
        assert(double + one() == (2 * q + half) * pow2(j as nat)) by (nonlinear_arith)
            requires
                double == (2 * q) * pow2(j as nat),
                one() == pow2(j as nat) * half,
        ;
        lemma_unscale((2 * q + half) as nat, j as nat, 150);
        lemma_pow2_unfold(t as nat);
    }
    if t >= 44 {
        proof {
            lemma2_to64_rest();
            if t > 44 {
                lemma_pow2_strictly_increases(43, (t - 1) as nat);
            }
            lemma_basic_div(2 * q + pow2((t - 1) as nat), pow2(t as nat) as int);
        }
        return 0;
    }
    let half: u64 = two_to(t - 1);
    let near: u64 = (2 * q + half) / (2 * half);
    if near > 65535 {
        65535
    } else {
        near as u16
    }
}

/// `p` times two to the power of `s`, in units, rounded.
spec fn dyadic(p: nat, s: int) -> nat {
    if s >= 0 {
        rounded(p * pow2(s as nat))
    } else {
        rounded_ratio(p, pow2((-s) as nat))
    }
}

/// A quotient's nearest integer does not change when both sides are scaled.
proof fn lemma_half_even_scale(x: nat, n: nat, d: nat)
    requires
        x > 0,
        d > 0,
    ensures
        half_even(x * n, x * d) == half_even(n, d),
{
    lemma_div_multiples_vanish_quotient(x as int, n as int, d as int);
    lemma_fundamental_div_mod(n as int, d as int);
    lemma_fundamental_div_mod((x * n) as int, (x * d) as int);
    let f = n as int / d as int;
    let r = n as int % d as int;
    assert((x * d) * f + x * r == x * (d * f + r)) by (nonlinear_arith);
    assert((x * n) % (x * d) == x * r);
    assert((2 * (x * r) < x * d) == (2 * r < d) && (2 * (x * r) == x * d) == (2 * r == d))
        by (nonlinear_arith)
        requires
            x > 0,
    ;
}

/// A quotient of two multiples rounds like the quotient.
proof fn lemma_ratio_scale(x: nat, n: nat, d: nat)
    requires
        x > 0,
        d > 0,
    ensures
        x * d > 0,
        rounded_ratio(x * n, x * d) == rounded_ratio(n, d),
{
    lemma_div_multiples_vanish_quotient(x as int, n as int, d as int);
    let k = excess(n / d);
    lemma_pow2_pos(k);
    assert(d * pow2(k) > 0) by (nonlinear_arith)
        requires
            d > 0,
            pow2(k) > 0,
    ;
    lemma_half_even_scale(x, n, d * pow2(k));
    assert((x * d) * pow2(k) == x * (d * pow2(k))) by (nonlinear_arith);
}

/// A whole number rounds like its quotient by 1.
pub proof fn lemma_ratio_whole(v: nat)
    ensures
        rounded_ratio(v, 1) == rounded(v),
{
    assert(v / 1 == v);
    assert(1 * pow2(excess(v)) == pow2(excess(v))) by (nonlinear_arith);
}

/// The pattern of a significand `h` that counts `pow2(k)` units.
fn pack(h: u64, k: u32) -> (bits: u32)
    requires
        h <= 0x100_0000,
        h < 0x80_0000 ==> k == 0,
        k <= 1000,
    ensures
        encodes(bits, h as nat * pow2(k as nat)),
{
    proof {
        lemma2_to64();
        lemma_pow2_adds(23, 254);
        lemma_pow2_adds(24, 253);
        lemma_pow2_pos(277);
    }
    if h < 0x80_0000 {
        proof {
            assert(h * 1 == h) by (nonlinear_arith);
            lemma_pow2_strictly_increases(24, 277);
            assert((h as u32) / 0x80_0000 == 0 && (h as u32) % 0x80_0000 == h);
        }
        return h as u32;
    }
    let ghost value = h as nat * pow2(k as nat);
    let (m, j): (u64, u32) = if h == 0x100_0000 {
        proof {
            lemma_pow2_unfold((k + 1) as nat);
        }
        (0x80_0000, k + 1)
    } else {
        (h, k)
    };
    assert(value == m * pow2(j as nat)) by (nonlinear_arith)
        requires
            value == h as nat * pow2(k as nat),
            m == h && j == k || (h == 0x100_0000 && m == 0x80_0000 && pow2(j as nat) == 2 * pow2(
                k as nat,
            )),
    ;
    if j >= 254 {
        proof {
            if j > 254 {
                lemma_pow2_strictly_increases(254, j as nat);
            }
            assert(value >= pow2(23) * pow2(254)) by (nonlinear_arith)
                requires
                    value == m * pow2(j as nat),
                    m >= pow2(23),
                    pow2(j as nat) >= pow2(254),
            ;
        }
        return INFINITY;
    }
    proof {
        if j < 253 {
            lemma_pow2_strictly_increases(j as nat, 253);
        }
        assert(value < pow2(24) * pow2(253)) by (nonlinear_arith)
            requires
                value == m * pow2(j as nat),
                m < pow2(24),
                pow2(j as nat) <= pow2(253),
                pow2(253) > 0,
        ;
    }
    let bits: u32 = (j + 1) * 0x80_0000 + (m as u32 - 0x80_0000);
    assert(bits / 0x80_0000 == j + 1 && bits % 0x80_0000 == m - 0x80_0000) by {
        lemma_fundamental_div_mod_converse(bits as int, 0x80_0000, j + 1, m - 0x80_0000);
    }
    bits
}

/// The pattern of `p` times two to the power of `s` units, rounded.
fn round_dyadic(p: u64, s: i32) -> (bits: u32)
    requires
        p < 0x400_0000_0000_0000,
        -500 <= s <= 500,
    ensures
        encodes(bits, dyadic(p as nat, s as int)),
{
    proof {
        lemma2_to64();
        lemma2_to64_rest();
        lemma_pow2_pos(277);
    }
    if s >= 0 {
        if p == 0 {
            proof {
                assert(0 * pow2(s as nat) == 0) by (nonlinear_arith);
                lemma_rounded_short(0);
                assert(0 * pow2(0) == 0) by (nonlinear_arith);
            }
            return 0;
        }
        let mut q: u64 = p;
        let mut t: u32 = s as u32;
        while q < 0x100_0000 && t > 0
            invariant
                0 < q < 0x400_0000_0000_0000,
                t <= s <= 500,
                q as nat * pow2(t as nat) == p as nat * pow2(s as nat),
            decreases t,
        {
            proof {
                lemma_pow2_unfold(t as nat);
                assert((2 * q) * pow2((t - 1) as nat) == q as nat * (2 * pow2((t - 1) as nat)))
                    by (nonlinear_arith);
            }
            q = q * 2;
            t -= 1;
        }
        let k: u32 = digits_over(q);
        let d: u64 = two_to(k);
        let h: u64 = nearest(q, d);
        proof {
            lemma_rounded_shift(q as nat, t as nat);
            lemma_pow2_adds(k as nat, t as nat);
            assert((h * pow2(k as nat)) * pow2(t as nat) == h as nat * (pow2(k as nat) * pow2(
                t as nat,
            ))) by (nonlinear_arith);
            lemma_significand_bounds(q as nat, d as nat);
        }
        return pack(h, k + t);
    }
    let u: u32 = (-s) as u32;
    if u >= 60 {
        proof {
            if u > 60 {
                lemma_pow2_strictly_increases(60, u as nat);
            }
            lemma_basic_div(p as int, pow2(u as nat) as int);
            lemma_small_mod(p as nat, pow2(u as nat));
            assert(pow2(u as nat) * 1 == pow2(u as nat)) by (nonlinear_arith);
            assert(half_even(p as nat, pow2(u as nat)) == 0);
            assert(0 * pow2(0) == 0) by (nonlinear_arith);
        }
        return 0;
    }
    let e: u64 = two_to(u);
    let floor: u64 = p / e;
    let k: u32 = digits_over(floor);
    proof {
        lemma_excess(floor as nat);
        lemma_fundamental_div_mod(p as int, e as int);
        lemma_pow2_adds(u as nat, k as nat);
        lemma_pow2_pos(k as nat);
        if floor < 0x100_0000 {
            assert(k == 0);
        } else if u + k > 60 {
            lemma_pow2_strictly_increases(60, (u + k) as nat);
            assert(p >= 0x80_0000 * pow2((u + k) as nat)) by (nonlinear_arith)
                requires
                    p >= e * floor,
                    floor >= 0x80_0000 * pow2(k as nat),
                    pow2((u + k) as nat) == e * pow2(k as nat),
                    e > 0,
            ;
        }
    }
    let d: u64 = two_to(u + k);
    let h: u64 = nearest(p, d);
    proof {
        lemma_div_denominator(p as int, e as int, pow2(k as nat) as int);
        lemma_significand_bounds(floor as nat, pow2(k as nat));
        if k == 0 {
            assert(floor as int / 1 == floor);
        }
    }
    pack(h, k)
}

/// What is left of `v` when its excess digits are dropped has at most 24, and
/// 24 where there were any.
proof fn lemma_significand_bounds(v: nat, d: nat)
    requires
        d == pow2(excess(v)),
    ensures
        v / d < 0x100_0000,
        v >= 0x100_0000 ==> v / d >= 0x80_0000,
        v < 0x100_0000 ==> v / d == v,
{
    lemma2_to64();
    lemma_excess(v);
    lemma_pow2_pos(excess(v));
    lemma_fundamental_div_mod(v as int, d as int);
    lemma_mod_bound(v as int, d as int);
    let f = v as int / d as int;
    let r = v as int % d as int;
    assert(f < 0x100_0000) by (nonlinear_arith)
        requires
            v == d * f + r,
            r >= 0,
            d > 0,
            v < 0x100_0000 * d,
    ;
    if v >= 0x100_0000 {
        assert(f >= 0x80_0000) by (nonlinear_arith)
            requires
                v == d * f + r,
                r < d,
                v >= 0x80_0000 * d,
        ;
    } else {
        assert(v as int / 1 == v);
    }
}

/// The binary32 product of two finite numbers that are not negative.
pub fn multiply(a: u32, b: u32) -> (r: u32)
    requires
        a < INFINITY,
        b < INFINITY,
    ensures
        encodes(r, rounded_ratio(units(a) * units(b), one())),
{
    let (m, i): (u32, u32) = decode(a);
    let (n, j): (u32, u32) = decode(b);
    assert(0 <= m * n < 0x100_0000 * 0x100_0000) by (nonlinear_arith)
        requires
            0 <= m < 0x100_0000,
            0 <= n < 0x100_0000,
    ;
    let p: u64 = m as u64 * n as u64;
    let s: i32 = i as i32 + j as i32 - 149;
    proof {
        let x = pow2((i + j) as nat);
        lemma_pow2_adds(i as nat, j as nat);
        lemma_pow2_pos((i + j) as nat);
        assert(units(a) * units(b) == x * p) by (nonlinear_arith)
            requires
                units(a) == m * pow2(i as nat),
                units(b) == n * pow2(j as nat),
                x == pow2(i as nat) * pow2(j as nat),
                p == m * n,
        ;
        if s >= 0 {
            lemma_pow2_adds(149, s as nat);
            lemma_pow2_pos(149);
            lemma_pow2_pos(s as nat);
            let whole = p as nat * pow2(s as nat);
            assert(x * p == one() * whole) by (nonlinear_arith)
                requires
                    x == one() * pow2(s as nat),
                    whole == p as nat * pow2(s as nat),
            ;
            lemma_ratio_scale(one(), whole, 1);
            lemma_ratio_whole(whole);
            assert(one() * 1 == one()) by (nonlinear_arith);
        } else {
            let t = (-s) as nat;
            lemma_pow2_adds((i + j) as nat, t);
            lemma_pow2_pos(t);
            lemma_ratio_scale(x, p as nat, pow2(t));
        }
    }
    round_dyadic(p, s)
}

/// Numbers that agree down to the digits of `q` have the same excess.
proof fn lemma_excess_shift(q: nat, s: nat, x: nat)
    requires
        q >= 0x100_0000,
        q * pow2(s) <= x < (q + 1) * pow2(s),
    ensures
        excess(x) == s + excess(q),
    decreases s,
{
    lemma2_to64();
    if s == 0 {
        assert(q * 1 == q && (q + 1) * 1 == q + 1) by (nonlinear_arith);
    } else {
        let t = (s - 1) as nat;
        lemma_pow2_unfold(s);
        lemma_pow2_pos(t);
        assert(q * pow2(s) == 2 * (q * pow2(t)) && (q + 1) * pow2(s) == 2 * ((q + 1) * pow2(t)))
            by (nonlinear_arith)
            requires
                pow2(s) == 2 * pow2(t),
        ;
        assert(q * pow2(t) >= q) by (nonlinear_arith)
            requires
                pow2(t) >= 1,
        ;
        lemma_excess_shift(q, t, x / 2);
    }
}

/// A quotient whose remainder is folded into one further digit rounds as the
/// quotient does.
proof fn lemma_sticky(n: nat, d: nat, p: nat, c: nat)
    requires
        d > 0,
        c >= 1,
        p == 2 * (n / d) + if n % d == 0 {
            0int
        } else {
            1int
        },
    ensures
        half_even(n, d * pow2(c)) == half_even(p, pow2(c + 1)),
{
    let q = n / d;
    let r = n % d;
    let e = pow2(c);
    let half = pow2((c - 1) as nat);
    let st = p - 2 * q;
    lemma_pow2_pos(c);
    lemma_pow2_unfold(c);
    lemma_pow2_unfold(c + 1);
    lemma_pow2_pos((c - 1) as nat);
    lemma_fundamental_div_mod(n as int, d as int);
    lemma_fundamental_div_mod(q as int, e as int);
    lemma_mod_bound(n as int, d as int);
    lemma_mod_bound(q as int, e as int);
    let f = q as int / e as int;
    let g = q as int % e as int;
    // n over d * e: quotient f, remainder g * d + r.
    assert(n == f * (d * e) + (g * d + r)) by (nonlinear_arith)
        requires
            n == d * q + r,
            q == e * f + g,
    ;
    assert(0 <= g * d + r < d * e) by (nonlinear_arith)
        requires
            0 <= g <= e - 1,
            0 <= r < d,
    ;
    lemma_fundamental_div_mod_converse(n as int, (d * e) as int, f, g * d + r);
    // p over 2 * e: quotient f, remainder 2 * g + st.
    assert(p == f * (2 * e) + (2 * g + st)) by (nonlinear_arith)
        requires
            p == 2 * q + st,
            q == e * f + g,
    ;
    lemma_fundamental_div_mod_converse(p as int, (2 * e) as int, f, 2 * g + st);
    // Both remainders lie on the same side of the middle.
    assert((2 * (g * d + r) < d * e) == (2 * (2 * g + st) < 2 * e) && (2 * (g * d + r) == d * e)
        == (2 * (2 * g + st) == 2 * e)) by (nonlinear_arith)
        requires
            e == 2 * half,
            0 <= r < d,
            st == 0 && r == 0 || st == 1 && r > 0,
            d > 0,
    {
        let w = g - half;
        assert(2 * (g * d + r) - d * e == 2 * (w * d + r));
        assert(2 * (2 * g + st) - 2 * e == 4 * w + 2 * st);
        if w < 0 {
            assert(w * d <= -d);
        } else if w > 0 {
            assert(w * d >= d);
        } else {
            assert(w * d == 0);
        }
    }
}

/// `n / d` times two to the power of `s`, in units, rounded.
spec fn quotient(n: nat, d: nat, s: int) -> nat {
    if s >= 0 {
        rounded_ratio(n * pow2(s as nat), d)
    } else {
        rounded_ratio(n, d * pow2((-s) as nat))
    }
}

/// The pattern of `n / d` times two to the power of `s` units, rounded, where
/// the quotient has digits to spare.
fn round_quotient(n: u64, d: u64, s: i32) -> (bits: u32)
    requires
        0 < d,
        n < 0x100_0000_0000_0000,
        n / d >= 0x200_0000,
        -400 <= s <= 400,
    ensures
        encodes(bits, quotient(n as nat, d as nat, s as int)),
{
    let q: u64 = n / d;
    proof {
        lemma_div_nonincreasing(n as int, d as int);
    }
    let p: u64 = if n % d == 0 {
        2 * q
    } else {
        2 * q + 1
    };
    proof {
        lemma_quotient(n as nat, d as nat, p as nat, s as int);
    }
    round_dyadic(p, s - 1)
}

/// A quotient rounds like its digits down to one past the last that counts,
/// with whether anything follows them.
proof fn lemma_quotient(n: nat, d: nat, p: nat, s: int)
    requires
        d > 0,
        n / d >= 0x200_0000,
        p == 2 * (n / d) + if n % d == 0 {
            0int
        } else {
            1int
        },
    ensures
        quotient(n, d, s) == dyadic(p, s - 1),
{
    let q = n / d;
    let r = n % d;
    lemma2_to64();
    lemma_fundamental_div_mod(n as int, d as int);
    lemma_mod_bound(n as int, d as int);
    if s >= 1 {
        let u = s as nat;
        let t = (s - 1) as nat;
        let c = excess(q);
        lemma_pow2_unfold(u);
        lemma_pow2_pos(u);
        lemma_pow2_pos(t);
        // The exact quotient and its shortened form agree down to the digits of q.
        let nn = n * pow2(u);
        let x = nn / d;
        assert(nn == d * (q * pow2(u)) + r * pow2(u)) by (nonlinear_arith)
            requires
                nn == n * pow2(u),
                n == d * q + r,
        ;
        assert(r * pow2(u) < d * pow2(u)) by (nonlinear_arith)
            requires
                r < d,
                pow2(u) > 0,
        ;
        assert(r * pow2(u) >= 0) by (nonlinear_arith)
            requires
                r >= 0,
                pow2(u) > 0,
        ;
        lemma_fundamental_div_mod(nn as int, d as int);
        lemma_mod_bound(nn as int, d as int);
        assert(q * pow2(u) <= x < (q + 1) * pow2(u)) by (nonlinear_arith)
            requires
                nn == d * (q * pow2(u)) + r * pow2(u),
                0 <= r * pow2(u) < d * pow2(u),
                nn == d * x + nn % d,
                0 <= nn % d < d,
                d > 0,
        ;
        lemma_excess_shift(q, u, x);
        let y = p * pow2(t);
        assert(q * pow2(u) <= y < (q + 1) * pow2(u)) by (nonlinear_arith)
            requires
                y == p * pow2(t),
                pow2(u) == 2 * pow2(t),
                2 * q <= p < 2 * (q + 1),
                pow2(t) > 0,
        ;
        lemma_excess_shift(q, u, y);
        // Both round at the same digit.
        lemma_pow2_adds(c, u);
        lemma_pow2_adds(c + 1, t);
        lemma_pow2_pos(c);
        lemma_pow2_pos(c + 1);
        assert(c + 1 + t == c + u);
        assert(d * pow2(c + u) == pow2(u) * (d * pow2(c))) by (nonlinear_arith)
            requires
                pow2(c + u) == pow2(c) * pow2(u),
        ;
        assert(n * pow2(u) == pow2(u) * n) by (nonlinear_arith);
        assert(d * pow2(c) > 0) by (nonlinear_arith)
            requires
                d > 0,
                pow2(c) > 0,
        ;
        lemma_half_even_scale(pow2(u), n, d * pow2(c));
        assert(y == pow2(t) * p && pow2(c + u) == pow2(t) * pow2(c + 1)) by (nonlinear_arith)
            requires
                y == p * pow2(t),
                pow2(c + u) == pow2(c + 1) * pow2(t),
        ;
        lemma_half_even_scale(pow2(t), p, pow2(c + 1));
        lemma_sticky(n, d, p, c);
    } else {
        let t = (-s) as nat;
        lemma_pow2_pos(t);
        lemma_pow2_unfold(t + 1);
        assert(pow2(0) == 1);
        assert(n * pow2(0) == n) by (nonlinear_arith)
            requires
                pow2(0) == 1,
        ;
        assert(d * pow2(0) == d) by (nonlinear_arith)
            requires
                pow2(0) == 1,
        ;
        assert(quotient(n, d, s) == rounded_ratio(n, d * pow2(t)));
        assert(dyadic(p, s - 1) == rounded_ratio(p, pow2(t + 1)));
        // Both have the integer part q / pow2(t).
        lemma_div_denominator(n as int, d as int, pow2(t) as int);
        lemma_div_denominator(p as int, 2, pow2(t) as int);
        assert(p as int / 2 == q);
        let k = excess(q / pow2(t));
        if t == 0 {
            assert(q as int / 1 == q);
        }
        lemma_pow2_adds(t, k);
        lemma_pow2_adds(t + 1, k);
        assert(t + 1 + k == (t + k) + 1);
        assert((d * pow2(t)) * pow2(k) == d * pow2(t + k)) by (nonlinear_arith)
            requires
                pow2(t + k) == pow2(t) * pow2(k),
        ;
        lemma_sticky(n, d, p, t + k);
    }
}

/// The binary32 quotient of two small integers.
pub fn divide_small(n: u8, d: u8) -> (r: u32)
    requires
        d > 0,
    ensures
        encodes(r, rounded_ratio(n as nat * one(), d as nat)),
{
    proof {
        lemma2_to64();
        lemma2_to64_rest();
    }
    if n == 0 {
        proof {
            lemma_pow2_pos(277);
            assert(0 * one() == 0) by (nonlinear_arith);
            assert(d as nat * pow2(0) == d) by (nonlinear_arith)
                requires
                    pow2(0) == 1,
            ;
            assert(half_even(0, d as nat) == 0);
            assert(0 * pow2(0) == 0) by (nonlinear_arith);
        }
        return 0;
    }
    let scaled: u64 = n as u64 * 0x100_0000_0000;
    proof {
        lemma_pow2_adds(40, 109);
        assert(n as nat * one() == scaled as nat * pow2(109)) by (nonlinear_arith)
            requires
                scaled == n * pow2(40),
                one() == pow2(40) * pow2(109),
        ;
        assert(scaled / d as u64 >= 0x200_0000) by (nonlinear_arith)
            requires
                scaled >= 0x100_0000_0000,
                0 < d <= 255,
        ;
    }
    round_quotient(scaled, d as u64, 109)
}

/// The binary32 quotient of 1 and a positive number that is at least the
/// least normal one.
pub fn reciprocal(b: u32) -> (r: u32)
    requires
        0x80_0000 <= b < INFINITY,
    ensures
        encodes(r, rounded_ratio(one() * one(), units(b))),
{
    let (m, j): (u32, u32) = decode(b);
    let s: i32 = 243 - j as i32;
    proof {
        lemma2_to64();
        lemma2_to64_rest();
        lemma_pow2_pos(j as nat);
        lemma_pow2_adds(149, 149);
        lemma_pow2_adds(55, 243);
        assert(0x80_0000_0000_0000u64 / m as u64 >= 0x200_0000) by (nonlinear_arith)
            requires
                0 < m < 0x100_0000,
        ;
        if s >= 0 {
            lemma_pow2_adds(j as nat, s as nat);
            let x = pow2(j as nat);
            let n = pow2(55) * pow2(s as nat);
            assert(one() * one() == x * n) by (nonlinear_arith)
                requires
                    one() * one() == pow2(55) * pow2(243),
                    pow2(243) == x * pow2(s as nat),
                    n == pow2(55) * pow2(s as nat),
            ;
            assert(units(b) == x * m) by (nonlinear_arith)
                requires
                    units(b) == m * x,
            ;
            lemma_ratio_scale(x, n, m as nat);
        } else {
            let t = (-s) as nat;
            lemma_pow2_adds(243, t);
            let x = pow2(243);
            lemma_pow2_pos(243);
            lemma_pow2_pos(t);
            assert(one() * one() == x * pow2(55)) by (nonlinear_arith)
                requires
                    one() * one() == pow2(55) * x,
            ;
            assert(units(b) == x * (m * pow2(t))) by (nonlinear_arith)
                requires
                    units(b) == m * pow2(j as nat),
                    pow2(j as nat) == x * pow2(t),
            ;
            assert(m * pow2(t) > 0) by (nonlinear_arith)
                requires
                    m > 0,
                    pow2(t) > 0,
            ;
            lemma_ratio_scale(x, pow2(55), (m * pow2(t)) as nat);
        }
    }
    round_quotient(0x80_0000_0000_0000, m as u64, s)
}

/// Numbers are ordered as their patterns are.
pub proof fn lemma_units_ordered(a: u32, b: u32)
    requires
        a < b < INFINITY,
    ensures
        units(a) < units(b),
{
    lemma2_to64();
    let (i, j) = (shift(a), shift(b));
    lemma_pow2_pos(i);
    lemma_pow2_pos(j);
    if i == j {
        assert(significand(a) < significand(b));
        assert(units(a) < units(b)) by (nonlinear_arith)
            requires
                significand(a) < significand(b),
                units(a) == significand(a) * pow2(i),
                units(b) == significand(b) * pow2(i),
                pow2(i) > 0,
        ;
    } else {
        lemma_pow2_unfold(j);
        if i + 1 < j {
            lemma_pow2_strictly_increases(i, (j - 1) as nat);
        }
        assert(units(a) < units(b)) by (nonlinear_arith)
            requires
                units(a) == significand(a) * pow2(i),
                units(b) == significand(b) * pow2(j),
                significand(a) < 0x100_0000,
                significand(b) >= 0x80_0000,
                pow2(j) >= 2 * pow2(i),
                pow2(i) > 0,
        ;
    }
}

/// A number that falls short of one with 24 digits, by less than a thousandth
/// of its last, rounds to it.
proof fn lemma_rounded_near(m: nat, i: nat, short: nat)
    requires
        0x80_0000 <= m < 0x100_0000,
        i >= 10,
        0 < short < pow2((i - 9) as nat),
    ensures
        rounded((m * pow2(i) - short) as nat) == m * pow2(i),
{
    lemma2_to64();
    let u = m * pow2(i);
    lemma_pow2_adds((i - 9) as nat, 9);
    lemma_pow2_pos((i - 9) as nat);
    let small = pow2((i - 9) as nat);
    assert(pow2(i) == 512 * small);
    assert(u == 512 * (m * small)) by (nonlinear_arith)
        requires
            u == m * pow2(i),
            pow2(i) == 512 * small,
    ;
    assert(m * small >= 0x80_0000 * small && m * small < 0x100_0000 * small) by (nonlinear_arith)
        requires
            0x80_0000 <= m < 0x100_0000,
            small > 0,
    ;
    let v = (u - short) as nat;
    assert(v >= 0x100_0000);
    lemma_excess(v);
    let k = excess(v);
    // The last digit that is kept counts pow2(i) or half of it.
    if k > i {
        lemma_pow2_unfold(k);
        if k > i + 1 {
            lemma_pow2_strictly_increases(i, (k - 1) as nat);
        }
        assert(false);
    }
    if k + 1 < i {
        lemma_pow2_unfold(i);
        lemma_pow2_unfold((i - 1) as nat);
        if k + 2 < i {
            lemma_pow2_strictly_increases(k, (i - 2) as nat);
        }
        assert(false);
    }
    let d = pow2(k);
    lemma_pow2_pos(k);
    let a: nat = if k == i {
        m
    } else {
        2 * m
    };
    lemma_pow2_unfold(i);
    assert(u == a * d) by (nonlinear_arith)
        requires
            u == m * pow2(i),
            a == m && d == pow2(i) || a == 2 * m && pow2(i) == 2 * d,
    ;
    assert(2 * short < d);
    assert(v == (a - 1) * d + (d - short)) by (nonlinear_arith)
        requires
            v == a * d - short,
    ;
    lemma_fundamental_div_mod_converse(v as int, d as int, a - 1, d - short);
    assert(half_even(v, d) == a);
}

/// What is left of the number `a` when `b` is taken from it, and zero where
/// `b` is the greater: the binary32 difference, held to zero.
pub fn subtract_to_zero(a: u32, b: u32) -> (r: u32)
    requires
        a < INFINITY,
        b < INFINITY,
    ensures
        units(a) <= units(b) ==> r == 0,
        units(b) <= units(a) ==> encodes(r, rounded((units(a) - units(b)) as nat)),
{
    proof {
        lemma2_to64();
        lemma_pow2_pos(277);
        assert(0 * pow2(0) == 0) by (nonlinear_arith);
        lemma_rounded_short(0);
    }
    if a <= b {
        proof {
            if a < b {
                lemma_units_ordered(a, b);
            }
        }
        return 0;
    }
    proof {
        lemma_units_ordered(b, a);
    }
    let (m, i): (u32, u32) = decode(a);
    let (n, j): (u32, u32) = decode(b);
    assert(i >= j);
    let gap: u32 = i - j;
    if gap <= 33 {
        let e: u64 = two_to(gap);
        proof {
            if gap < 33 {
                lemma_pow2_strictly_increases(gap as nat, 33);
            }
            lemma2_to64_rest();
            lemma_pow2_adds(j as nat, gap as nat);
            assert(0 <= m * e <= 0x100_0000 * 0x2_0000_0000) by (nonlinear_arith)
                requires
                    0 <= m < 0x100_0000,
                    0 < e <= 0x2_0000_0000,
            ;
            let c = pow2(j as nat);
            assert(units(a) == (m * e) * c) by (nonlinear_arith)
                requires
                    units(a) == m * pow2(i as nat),
                    pow2(i as nat) == c * e,
            ;
            lemma_pow2_pos(j as nat);
            assert(m * e > n) by (nonlinear_arith)
                requires
                    n * c < (m * e) * c,
                    c > 0,
            ;
            assert(units(a) - units(b) == (m * e - n) * c) by (nonlinear_arith)
                requires
                    units(a) == (m * e) * c,
                    units(b) == n * c,
            ;
        }
        let p: u64 = m as u64 * e - n as u64;
        return round_dyadic(p, j as i32);
    }
    proof {
        let u = units(a);
        let w = units(b);
        lemma_rounded_shift(m as nat, i as nat);
        lemma_rounded_short(m as nat);
        lemma_pow2_adds(24, 253);
        if i < 253 {
            lemma_pow2_strictly_increases(i as nat, 253);
        }
        lemma_pow2_pos(253);
        assert(u < pow2(24) * pow2(253)) by (nonlinear_arith)
            requires
                u == m * pow2(i as nat),
                m < pow2(24),
                pow2(i as nat) <= pow2(253),
                pow2(253) > 0,
        ;
        if n != 0 {
            lemma_pow2_pos(j as nat);
            lemma_pow2_adds(24, j as nat);
            assert(0 < w < pow2(24) * pow2(j as nat)) by (nonlinear_arith)
                requires
                    w == n * pow2(j as nat),
                    0 < n < pow2(24),
                    pow2(j as nat) > 0,
            ;
            if 24 + j < i - 9 {
                lemma_pow2_strictly_increases((24 + j) as nat, (i - 9) as nat);
            }
            lemma_rounded_near(m as nat, i as nat, w);
        } else {
            assert(0 * pow2(j as nat) == 0) by (nonlinear_arith);
        }
    }
    a
}

/// Every number has a square root with an integer part.
pub proof fn lemma_floor_root_exists(n: nat)
    ensures
        is_floor_root(floor_root(n), n),
    decreases n,
{
    if n == 0 {
        assert(is_floor_root(0, 0)) by (nonlinear_arith);
    } else {
        lemma_floor_root_exists((n - 1) as nat);
        let f = floor_root((n - 1) as nat);
        if n < (f + 1) * (f + 1) {
            assert(is_floor_root(f, n));
        } else {
            assert((f + 1) * (f + 1) < (f + 2) * (f + 2)) by (nonlinear_arith);
            assert(n == (f + 1) * (f + 1));
            assert(is_floor_root(f + 1, n));
        }
    }
}

/// The root of a number that is `w` times an even power of two, from that of `w`.
proof fn lemma_root(w: nat, g: nat, r: nat, p: nat)
    requires
        g >= 1,
        r >= 0x200_0000,
        is_floor_root(r, w),
        p == 2 * r + if r * r == w {
            0int
        } else {
            1int
        },
    ensures
        rounded_root(w * (pow2(g) * pow2(g))) == dyadic(p, g - 1),
{
    lemma2_to64();
    let b = pow2(g);
    let n = w * (b * b);
    let f = floor_root(n);
    lemma_floor_root_exists(n);
    lemma_pow2_pos(g);
    assert(r * b <= f) by (nonlinear_arith)
        requires
            r * r <= w,
            n == w * (b * b),
            n < (f + 1) * (f + 1),
            r >= 0,
            b > 0,
            f >= 0,
    {
        if f + 1 <= r * b {
            assert((f + 1) * (f + 1) <= (r * b) * (r * b));
            assert((r * b) * (r * b) == (r * r) * (b * b));
            assert((r * r) * (b * b) <= w * (b * b));
        }
    }
    assert(f < (r + 1) * b) by (nonlinear_arith)
        requires
            w < (r + 1) * (r + 1),
            n == w * (b * b),
            f * f <= n,
            r >= 0,
            b > 0,
            f >= 0,
    {
        if f >= (r + 1) * b {
            assert(f * f >= ((r + 1) * b) * ((r + 1) * b));
            assert(((r + 1) * b) * ((r + 1) * b) == ((r + 1) * (r + 1)) * (b * b));
            assert(b * b > 0);
            assert(((r + 1) * (r + 1)) * (b * b) > w * (b * b));
        }
    }
    lemma_excess_shift(r, g, f);
    let c = excess(r);
    let k = g + c;
    lemma_pow2_adds(g, c);
    lemma_pow2_pos(c);
    lemma_pow2_pos(k);
    // The lower candidate.
    assert(f / b == r) by {
        assert(f == r * b + (f - r * b));
        assert((r + 1) * b == r * b + b) by (nonlinear_arith);
        lemma_fundamental_div_mod_converse(f as int, b as int, r as int, f - r * b);
    }
    lemma_div_denominator(f as int, b as int, pow2(c) as int);
    let h = r / pow2(c);
    assert(f / pow2(k) == h);
    // The shortened form rounds at the same digit.
    let t = (g - 1) as nat;
    let y = p * pow2(t);
    lemma_pow2_unfold(g);
    lemma_pow2_pos(t);
    assert(r * b <= y < (r + 1) * b) by (nonlinear_arith)
        requires
            y == p * pow2(t),
            b == 2 * pow2(t),
            2 * r <= p < 2 * (r + 1),
            pow2(t) > 0,
    ;
    lemma_excess_shift(r, g, y);
    lemma_pow2_adds(c + 1, t);
    assert(c + 1 + t == k);
    assert(y == pow2(t) * p && pow2(k) == pow2(t) * pow2(c + 1)) by (nonlinear_arith)
        requires
            y == p * pow2(t),
            pow2(k) == pow2(c + 1) * pow2(t),
    ;
    lemma_pow2_pos(c + 1);
    lemma_half_even_scale(pow2(t), p, pow2(c + 1));
    let e = pow2(c);
    lemma_pow2_unfold(c + 1);
    lemma_div_denominator(p as int, 2, e as int);
    assert(p as int / 2 == r);
    assert(p / pow2(c + 1) == h);
    lemma_fundamental_div_mod(p as int, pow2(c + 1) as int);
    let rest = p % pow2(c + 1);
    assert(p == (2 * e) * h + rest);
    // On which side of the middle the root lies.
    assert(c >= 1);
    lemma_pow2_unfold(c);
    let half = pow2((c - 1) as nat);
    let m = (2 * h + 1) * half;
    let middle = (2 * h + 1) * pow2(k);
    assert(middle == 2 * (m * b)) by (nonlinear_arith)
        requires
            middle == (2 * h + 1) * pow2(k),
            pow2(k) == b * e,
            e == 2 * half,
            m == (2 * h + 1) * half,
    ;
    assert((2 * e) * h + e == 2 * m) by (nonlinear_arith)
        requires
            e == 2 * half,
            m == (2 * h + 1) * half,
    ;
    assert((4 * n < middle * middle) == (w < m * m) && (4 * n == middle * middle) == (w == m * m))
        by (nonlinear_arith)
        requires
            middle == 2 * (m * b),
            n == w * (b * b),
            b > 0,
    {
        assert(middle * middle == 4 * ((m * m) * (b * b)));
        assert(b * b > 0);
        if w < m * m {
            assert(w * (b * b) < (m * m) * (b * b));
        } else if w > m * m {
            assert(w * (b * b) > (m * m) * (b * b));
        }
    }
    assert((w < m * m) == (p < 2 * m) && (w == m * m) == (p == 2 * m)) by (nonlinear_arith)
        requires
            r * r <= w < (r + 1) * (r + 1),
            p == 2 * r && r * r == w || p == 2 * r + 1 && r * r != w,
            r >= 0,
            m >= 0,
    {
        if r < m {
            assert((r + 1) * (r + 1) <= m * m);
        } else {
            assert(m * m <= r * r);
            if m < r {
                assert(m * m < r * r);
            }
        }
    }
}

/// The integer part of the square root.
fn root(w: u64) -> (r: u64)
    requires
        w < 0x1000_0000_0000_0000,
    ensures
        is_floor_root(r as nat, w as nat),
        r < 0x4000_0000,
{
    let mut low: u64 = 0;
    let mut high: u64 = 0x4000_0000;
    assert(0x4000_0000 * 0x4000_0000 == 0x1000_0000_0000_0000) by (nonlinear_arith);
    while high - low > 1
        invariant
            low < high <= 0x4000_0000,
            low * low <= w < high * high,
        decreases high - low,
    {
        let middle: u64 = (low + high) / 2;
        assert(middle * middle <= 0x4000_0000 * 0x4000_0000) by (nonlinear_arith)
            requires
                0 <= middle <= 0x4000_0000,
        ;
        if middle * middle <= w {
            low = middle;
        } else {
            high = middle;
        }
    }
    low
}

/// The binary32 square root of a number that is zero or at least the least
/// normal one.
pub fn square_root(a: u32) -> (r: u32)
    requires
        a == 0 || 0x80_0000 <= a < INFINITY,
    ensures
        encodes(r, rounded_root(units(a) * one())),
{
    proof {
        lemma2_to64();
        lemma2_to64_rest();
    }
    if a == 0 {
        proof {
            lemma_pow2_pos(277);
            assert(0 * pow2(0) == 0) by (nonlinear_arith);
            assert(0 * one() == 0) by (nonlinear_arith);
            lemma_floor_root_exists(0);
            let f = floor_root(0);
            assert(f == 0) by (nonlinear_arith)
                requires
                    f * f <= 0,
                    f >= 0,
            ;
            assert(1 * 1 == 1) by (nonlinear_arith);
        }
        return 0;
    }
    let (m, j): (u32, u32) = decode(a);
    let (e, spare): (u64, u32) = if j % 2 == 0 {
        (0x8_0000_0000, 35)
    } else {
        (0x4_0000_0000, 34)
    };
    let g: u32 = (j + 149 - spare) / 2;
    assert(0x80_0000 * 0x4_0000_0000 <= m * e <= 0x100_0000 * 0x8_0000_0000) by (nonlinear_arith)
        requires
            0x80_0000 <= m < 0x100_0000,
            0x4_0000_0000 <= e <= 0x8_0000_0000,
    ;
    let w: u64 = m as u64 * e;
    let r: u64 = root(w);
    proof {
        if r < 0x200_0000 {
            assert((r + 1) * (r + 1) <= 0x200_0000 * 0x200_0000) by (nonlinear_arith)
                requires
                    0 <= r < 0x200_0000,
            ;
        }
        assert(r * r <= 0x4000_0000 * 0x4000_0000) by (nonlinear_arith)
            requires
                0 <= r < 0x4000_0000,
        ;
        lemma_pow2_adds(g as nat, g as nat);
        lemma_pow2_adds(spare as nat, (g + g) as nat);
        lemma_pow2_adds(j as nat, 149);
        assert(j + 149 == spare + (g + g));
        assert(units(a) * one() == w as nat * (pow2(g as nat) * pow2(g as nat)))
            by (nonlinear_arith)
            requires
                units(a) == m * pow2(j as nat),
                pow2(j as nat) * one() == e * (pow2(g as nat) * pow2(g as nat)),
                w == m * e,
        ;
    }
    let p: u64 = if r * r == w {
        2 * r
    } else {
        2 * r + 1
    };
    proof {
        lemma_root(w as nat, g as nat, r as nat, p as nat);
    }
    round_dyadic(p, g as i32 - 1)
}

/// The greater number has no fewer excess digits.
proof fn lemma_excess_ordered(v: nat, w: nat)
    requires
        v <= w,
    ensures
        excess(v) <= excess(w),
    decreases w,
{
    if v >= 0x100_0000 {
        lemma_excess_ordered(v / 2, w / 2);
    }
}

/// The nearest integer to a quotient does not fall when the quotient grows.
proof fn lemma_half_even_ordered(n: nat, d: nat, m: nat, e: nat)
    requires
        d > 0,
        e > 0,
        n * e <= m * d,
    ensures
        n / d <= m / e,
        half_even(n, d) <= half_even(m, e),
{
    lemma_fundamental_div_mod(n as int, d as int);
    lemma_fundamental_div_mod(m as int, e as int);
    lemma_mod_bound(n as int, d as int);
    lemma_mod_bound(m as int, e as int);
    let (f, r) = (n as int / d as int, n as int % d as int);
    let (g, q) = (m as int / e as int, m as int % e as int);
    assert(f <= g) by (nonlinear_arith)
        requires
            n == d * f + r,
            m == e * g + q,
            0 <= r,
            q < e,
            n * e <= m * d,
            d > 0,
            e > 0,
    {
        if f >= g + 1 {
            assert(n * e >= (d * f) * e);
            assert((d * f) * e >= (d * (g + 1)) * e) by {
                assert(d * f >= d * (g + 1));
            }
            assert(m * d == (e * g + q) * d);
            assert((e * g + q) * d < (e * g + e) * d);
            assert((d * (g + 1)) * e == (e * g + e) * d);
        }
    }
    if f == g {
        assert(r * e <= q * d) by (nonlinear_arith)
            requires
                n == d * f + r,
                m == e * f + q,
                n * e <= m * d,
        {
            assert((d * f + r) * e == d * f * e + r * e);
            assert((e * f + q) * d == d * f * e + q * d);
        }
        assert((2 * q < e ==> 2 * r < d) && (2 * q == e ==> 2 * r <= d)) by (nonlinear_arith)
            requires
                r * e <= q * d,
                d > 0,
                e > 0,
        {
            if 2 * q <= e && 2 * r >= d {
                assert((2 * r) * e >= d * e);
                assert((2 * q) * d <= e * d);
                if 2 * q < e {
                    assert((2 * q) * d < e * d);
                }
                if 2 * r > d {
                    assert((2 * r) * e > d * e);
                }
            }
        }
    }
}

/// A quotient that grows does not round to less.
pub proof fn lemma_ratio_ordered(n: nat, d: nat, m: nat, e: nat)
    requires
        d > 0,
        e > 0,
        n * e <= m * d,
    ensures
        rounded_ratio(n, d) <= rounded_ratio(m, e),
{
    lemma_half_even_ordered(n, d, m, e);
    let (v, w) = (n / d, m / e);
    let (j, k) = (excess(v), excess(w));
    lemma_excess_ordered(v, w);
    lemma_pow2_pos(j);
    lemma_pow2_pos(k);
    let (a, b) = (pow2(j), pow2(k));
    assert(d * a > 0 && e * b > 0) by (nonlinear_arith)
        requires
            d > 0,
            e > 0,
            a > 0,
            b > 0,
    ;
    if j == k {
        assert(n * (e * a) <= m * (d * a)) by (nonlinear_arith)
            requires
                n * e <= m * d,
                a > 0,
        {
            assert(n * (e * a) == (n * e) * a);
            assert(m * (d * a) == (m * d) * a);
        }
        lemma_half_even_ordered(n, d * a, m, e * a);
        let (x, y) = (half_even(n, d * a), half_even(m, e * a));
        assert(x * a <= y * a) by (nonlinear_arith)
            requires
                x <= y,
                a > 0,
        ;
    } else {
        // The lower one has at most 24 digits, the upper one 24 higher ones.
        lemma_div_denominator(n as int, d as int, a as int);
        lemma_div_denominator(m as int, e as int, b as int);
        lemma_significand_bounds(v, a);
        lemma_significand_bounds(w, b);
        lemma_pow2_unfold(k);
        lemma_pow2_pos((k - 1) as nat);
        if j + 1 < k {
            lemma_pow2_strictly_increases(j, (k - 1) as nat);
        }
        let (x, y) = (half_even(n, d * a), half_even(m, e * b));
        assert(x * a <= y * b) by (nonlinear_arith)
            requires
                x <= 0x100_0000,
                y >= 0x80_0000,
                b >= 2 * a,
                a > 0,
        ;
    }
}

/// A binary32 number is not changed by rounding.
pub proof fn lemma_units_rounded(bits: u32)
    requires
        bits < INFINITY,
    ensures
        rounded_ratio(units(bits), 1) == units(bits),
        rounded(units(bits)) == units(bits),
        units(bits) < pow2(277),
{
    let (m, j) = (significand(bits), shift(bits));
    lemma_ratio_whole(units(bits));
    lemma_rounded_shift(m, j);
    lemma_rounded_short(m);
    lemma2_to64();
    lemma_pow2_adds(24, 253);
    if j < 253 {
        lemma_pow2_strictly_increases(j, 253);
    }
    lemma_pow2_pos(j);
    assert(m * pow2(j) < pow2(24) * pow2(253)) by (nonlinear_arith)
        requires
            m < pow2(24),
            0 < pow2(j) <= pow2(253),
    ;
}

/// A quotient of at most `bits` rounds to at most `bits`.
pub proof fn lemma_ratio_at_most(n: nat, d: nat, bits: u32)
    requires
        d > 0,
        bits < INFINITY,
        n <= units(bits) * d,
    ensures
        rounded_ratio(n, d) <= units(bits),
        rounded_ratio(n, d) < pow2(277),
{
    lemma_units_rounded(bits);
    assert(n * 1 <= units(bits) * d);
    lemma_ratio_ordered(n, d, units(bits), 1);
}

/// A quotient of at least `bits` rounds to at least `bits`.
pub proof fn lemma_ratio_at_least(n: nat, d: nat, bits: u32)
    requires
        d > 0,
        bits < INFINITY,
        units(bits) * d <= n,
    ensures
        rounded_ratio(n, d) >= units(bits),
{
    lemma_units_rounded(bits);
    lemma_ratio_ordered(units(bits), 1, n, d);
}

/// The greater intensity never has the lower level.
pub proof fn law_brighter_has_no_lower_level8(a: u32, b: u32)
    requires
        a <= b <= INFINITY,
    ensures
        level8(a) <= level8(b),
{
    if a < b < INFINITY {
        lemma_units_ordered(a, b);
        lemma_ratio_whole(255 * units(a));
        lemma_ratio_whole(255 * units(b));
        lemma_ratio_ordered(255 * units(a), 1, 255 * units(b), 1);
        lemma_pow2_pos(149);
        lemma_div_is_ordered(product(255, a) as int, product(255, b) as int, one() as int);
    }
}

/// The greater intensity, or the greater full level, never has the lower level.
pub proof fn law_brighter_has_no_lower_level16(full: nat, a: u32, more: nat, b: u32)
    requires
        a <= b <= INFINITY,
        full <= more,
    ensures
        level16(full, a) <= level16(more, b),
{
    if full > 0 && b < INFINITY {
        if a < b {
            lemma_units_ordered(a, b);
        }
        let (v, w) = (full * units(a), more * units(b));
        assert(v <= w) by (nonlinear_arith)
            requires
                full <= more,
                units(a) <= units(b),
                v == full * units(a),
                w == more * units(b),
        ;
        lemma_ratio_whole(v);
        lemma_ratio_whole(w);
        lemma_ratio_ordered(v, 1, w, 1);
        lemma_pow2_pos(149);
        lemma_div_is_ordered(
            (2 * product(full, a) + one()) as int,
            (2 * product(more, b) + one()) as int,
            2 * one() as int,
        );
    }
}

/// At full intensity a level is the full level.
pub proof fn lemma_full_levels(full: nat)
    requires
        full <= 65535,
    ensures
        level8(FULL) == 255,
        level16(full, FULL) == full,
{
    lemma_full_units();
    lemma2_to64();
    lemma_rounded_shift(255, 149);
    lemma_rounded_short(255);
    lemma_rounded_shift(full, 149);
    lemma_rounded_short(full);
    lemma_pow2_pos(149);
    let u = one() as int;
    lemma_div_by_multiple(255, u);
    assert(2 * (full * u) + u == full * (2 * u) + u) by (nonlinear_arith);
    lemma_fundamental_div_mod_converse(full * (2 * u) + u, 2 * u, full as int, u);
}

/// The pattern zero encodes zero.
pub proof fn lemma_zero_units()
    ensures
        units(0) == 0,
{
    assert(0 * pow2(shift(0)) == 0) by (nonlinear_arith);
}

/// No intensity has level 0.
pub proof fn lemma_zero_level16(full: nat)
    ensures
        level16(full, 0) == 0,
{
    lemma_zero_units();
    lemma_rounded_short(0);
    lemma_pow2_pos(149);
    let u = one() as int;
    assert(u / (2 * u) == 0) by (nonlinear_arith)
        requires
            u > 0,
    ;
    assert(full * 0 == 0);
}

/// The pattern of 1.0 encodes the units in 1.
pub proof fn lemma_full_units()
    ensures
        units(FULL) == one(),
{
    lemma2_to64();
    lemma_pow2_adds(23, 126);
    assert(FULL / 0x80_0000 == 127 && FULL % 0x80_0000 == 0);
}

/// A root that grows does not round to less.
pub proof fn lemma_root_ordered(n: nat, m: nat)
    requires
        n <= m,
    ensures
        rounded_root(n) <= rounded_root(m),
{
    lemma_floor_root_exists(n);
    lemma_floor_root_exists(m);
    let (v, w) = (floor_root(n), floor_root(m));
    assert(v <= w) by (nonlinear_arith)
        requires
            v * v <= n,
            m < (w + 1) * (w + 1),
            n <= m,
            v >= 0,
            w >= 0,
    {
        if v >= w + 1 {
            assert(v * v >= (w + 1) * (w + 1));
        }
    }
    let (j, k) = (excess(v), excess(w));
    lemma_excess_ordered(v, w);
    lemma_pow2_pos(j);
    lemma_pow2_pos(k);
    let (a, b) = (pow2(j), pow2(k));
    let (f, g) = (v / a, w / b);
    if j == k {
        assert(f <= g) by {
            lemma_div_is_ordered(v as int, w as int, a as int);
        }
        if f < g {
            assert((f + 1) * a <= g * a) by (nonlinear_arith)
                requires
                    f + 1 <= g,
                    a > 0,
            ;
        }
        assert(f * a <= (f + 1) * a && g * a <= (g + 1) * a) by (nonlinear_arith)
            requires
                a > 0,
        ;
    } else {
        // The lower one has at most 24 digits, the upper one 24 higher ones.
        lemma_significand_bounds(v, a);
        lemma_significand_bounds(w, b);
        lemma_pow2_unfold(k);
        lemma_pow2_pos((k - 1) as nat);
        if j + 1 < k {
            lemma_pow2_strictly_increases(j, (k - 1) as nat);
        }
        assert(f * a <= (f + 1) * a <= g * b <= (g + 1) * b) by (nonlinear_arith)
            requires
                f + 1 <= 0x100_0000,
                g >= 0x80_0000,
                b >= 2 * a,
                a > 0,
        ;
    }
}

/// Rounding a quotient again does not change it.
pub proof fn lemma_ratio_rounded(n: nat, d: nat)
    requires
        d > 0,
    ensures
        rounded(rounded_ratio(n, d)) == rounded_ratio(n, d),
{
    let v = n / d;
    let k = excess(v);
    lemma_pow2_pos(k);
    lemma_div_denominator(n as int, d as int, pow2(k) as int);
    lemma_significand_bounds(v, pow2(k));
    let h = half_even(n, d * pow2(k));
    lemma_rounded_shift(h, k);
    if h < 0x100_0000 {
        lemma_rounded_short(h);
    } else {
        lemma_rounded_shift(0x80_0000, 1);
        lemma_rounded_short(0x80_0000);
        lemma2_to64();
    }
}

/// The root of the square of a number is that number, where rounding does not
/// change it.
pub proof fn lemma_root_of_square(v: nat)
    requires
        rounded(v) == v,
    ensures
        rounded_root(v * v) == v,
{
    let n = v * v;
    lemma_floor_root_exists(n);
    let w = floor_root(n);
    assert(w == v) by (nonlinear_arith)
        requires
            w * w <= n < (w + 1) * (w + 1),
            n == v * v,
            v >= 0,
            w >= 0,
    {
        if w < v {
            assert((w + 1) * (w + 1) <= v * v);
        }
        if w > v {
            assert(w * w > v * v) by (nonlinear_arith)
                requires
                    w >= v + 1,
                    v >= 0,
            ;
        }
    }
    let k = excess(v);
    lemma_pow2_pos(k);
    let a = pow2(k);
    let h = half_even(v, a);
    assert(v == h * a);
    assert(v / a == h) by {
        lemma_fundamental_div_mod_converse(v as int, a as int, h as int, 0);
    }
    let middle = (2 * h + 1) * a;
    assert(4 * n < middle * middle) by (nonlinear_arith)
        requires
            n == v * v,
            v == h * a,
            middle == (2 * h + 1) * a,
            a > 0,
            h >= 0,
    {
        let t = 2 * v;
        assert(middle == t + a);
        assert(4 * n == t * t);
        assert((t + a) * (t + a) == t * t + 2 * (t * a) + a * a);
        assert(t * a >= 0);
        assert(a * a > 0);
    }
}

/// A rounded quotient is off by at most a part in two to the power of 24, or a
/// unit.
pub proof fn lemma_ratio_near(n: nat, d: nat)
    requires
        d > 0,
    ensures
        0x100_0000 * (rounded_ratio(n, d) * d) <= 0x100_0000 * n + n + 0x100_0000 * d,
        0x100_0000 * n <= 0x100_0000 * (rounded_ratio(n, d) * d) + n + 0x100_0000 * d,
{
    let v = n / d;
    let k = excess(v);
    lemma_pow2_pos(k);
    let a = pow2(k);
    let e = d * a;
    assert(e > 0) by (nonlinear_arith)
        requires
            e == d * a,
            d > 0,
            a > 0,
    ;
    let h = half_even(n, e);
    lemma_fundamental_div_mod(n as int, e as int);
    lemma_mod_bound(n as int, e as int);
    let (f, r) = (n as int / e as int, n as int % e as int);
    assert((f + 1) * e == e * f + e && f * e == e * f) by (nonlinear_arith);
    assert(2 * (h * e) <= 2 * n + e && 2 * n <= 2 * (h * e) + e);
    assert((h * a) * d == h * e) by (nonlinear_arith)
        requires
            e == d * a,
    ;
    if v < 0x100_0000 {
        lemma2_to64();
        assert(e == d) by (nonlinear_arith)
            requires
                e == d * a,
                a == 1,
        ;
    } else {
        lemma_excess(v);
        lemma_fundamental_div_mod(n as int, d as int);
        lemma_mod_bound(n as int, d as int);
        assert(n >= 0x80_0000 * e) by (nonlinear_arith)
            requires
                n == d * v + n as int % d as int,
                n as int % d as int >= 0,
                v >= 0x80_0000 * a,
                e == d * a,
                d > 0,
        ;
    }
}

/// A rounded root is off from its integer part by at most a part in two to the
/// power of 23, or a unit.
pub proof fn lemma_root_near(n: nat)
    ensures
        0x80_0000 * rounded_root(n) <= 0x80_0000 * floor_root(n) + floor_root(n) + 0x80_0000,
        0x80_0000 * floor_root(n) <= 0x80_0000 * rounded_root(n) + floor_root(n) + 0x80_0000,
{
    let f = floor_root(n);
    let k = excess(f);
    lemma_pow2_pos(k);
    let a = pow2(k);
    lemma_fundamental_div_mod(f as int, a as int);
    lemma_mod_bound(f as int, a as int);
    let below = f / a;
    assert((below + 1) * a == a * below + a && below * a == a * below) by (nonlinear_arith);
    lemma_excess(f);
    lemma2_to64();
}

/// The nanoseconds in a second.
pub const SECOND: u64 = 1_000_000_000;

/// A time of so many nanoseconds in seconds, in units: its whole seconds and
/// the fraction that its other nanoseconds are of a second, each rounded, and
/// then their sum.
pub open spec fn seconds(nanos: nat) -> nat {
    let whole = rounded((nanos / SECOND as nat) * one());
    let fraction = rounded_ratio(rounded((nanos % SECOND as nat) * one()), SECOND as nat);
    rounded(whole + fraction)
}

/// The pattern of 2^-30, less than a nanosecond in seconds.
const LEAST_FRACTION: u32 = 0x3080_0000;

/// The binary32 quotient of a number of nanoseconds and a second.
fn fraction_of(n: u64) -> (bits: u32)
    requires
        0 < n <= SECOND,
    ensures
        encodes(bits, rounded_ratio(n as nat * one(), SECOND as nat)),
        LEAST_FRACTION <= bits <= FULL,
{
    let mut q: u64 = n;
    let mut t: u32 = 0;
    proof {
        lemma2_to64();
        lemma2_to64_rest();
        assert(n as nat * 1 == n) by (nonlinear_arith);
    }
    while q < 0x80_0000_0000_0000
        invariant
            0 < n <= SECOND,
            0 < q < 0x100_0000_0000_0000,
            q as nat == n as nat * pow2(t as nat),
            t <= 55,
        decreases 0x100_0000_0000_0000 - q,
    {
        proof {
            lemma2_to64_rest();
            lemma_pow2_unfold((t + 1) as nat);
            assert(2 * q == n as nat * (2 * pow2(t as nat))) by (nonlinear_arith)
                requires
                    q as nat == n as nat * pow2(t as nat),
            ;
            assert(pow2(t as nat) <= q) by (nonlinear_arith)
                requires
                    q as nat == n as nat * pow2(t as nat),
                    n > 0,
            ;
            assert(t < 55);
        }
        q = q * 2;
        t += 1;
    }
    proof {
        let s = (149 - t) as nat;
        lemma_pow2_adds(t as nat, s);
        assert(q as nat * pow2(s) == n as nat * one()) by (nonlinear_arith)
            requires
                q as nat == n as nat * pow2(t as nat),
                one() == pow2(t as nat) * pow2(s),
        ;
        lemma_full_units();
        lemma_pow2_pos(119);
        lemma_pow2_adds(30, 119);
        lemma_pow2_adds(23, 96);
        assert(LEAST_FRACTION / 0x80_0000 == 97 && LEAST_FRACTION % 0x80_0000 == 0);
        assert(units(LEAST_FRACTION) == pow2(119));
        assert(n as nat * one() <= one() * SECOND as nat) by (nonlinear_arith)
            requires
                n <= SECOND,
        ;
        assert(pow2(119) * SECOND as nat <= n as nat * one()) by (nonlinear_arith)
            requires
                n >= 1,
                one() == 0x4000_0000 * pow2(119),
                SECOND == 1_000_000_000,
        ;
        lemma_ratio_at_most(n as nat * one(), SECOND as nat, FULL);
        lemma_ratio_at_least(n as nat * one(), SECOND as nat, LEAST_FRACTION);
    }
    let bits: u32 = round_quotient(q, SECOND, 149 - t as i32);
    proof {
        if bits < LEAST_FRACTION {
            lemma_units_ordered(bits, LEAST_FRACTION);
        }
        if FULL < bits {
            lemma_units_ordered(FULL, bits);
        }
    }
    bits
}

/// The binary32 sum of a number of whole seconds and a fraction, the sum being
/// cut off `guard` digits after the binary point but for whether anything
/// follows.
fn sum_up(whole: u64, fraction: u32, guard: u32) -> (bits: u32)
    requires
        guard <= 30,
        0x200_0000 <= whole * pow2(guard as nat) < 0x80_0000_0000_0000,
        LEAST_FRACTION <= fraction <= FULL,
    ensures
        encodes(bits, rounded(whole as nat * one() + units(fraction))),
{
    let (m, j): (u32, u32) = decode(fraction);
    assert(97 <= fraction / 0x80_0000 <= 127);
    assert(96 <= j <= 126);
    let scale: u64 = two_to(guard);
    let base: u64 = whole * scale;
    let g: u32 = 149 - guard;
    let ghost sum = whole as nat * one() + units(fraction);
    proof {
        lemma2_to64();
        lemma_pow2_adds(guard as nat, g as nat);
        lemma_pow2_pos(g as nat);
        assert(whole as nat * one() == base as nat * pow2(g as nat)) by (nonlinear_arith)
            requires
                base == whole * scale,
                one() == scale as nat * pow2(g as nat),
        ;
    }
    if j >= g {
        let up: u64 = two_to(j - g);
        proof {
            lemma_pow2_strictly_increases((j - g) as nat, 8);
            assert(m * up < 0x100_0000 * 0x100) by (nonlinear_arith)
                requires
                    0 <= m < 0x100_0000,
                    0 < up < 0x100,
            ;
            lemma_pow2_adds((j - g) as nat, g as nat);
            lemma_pow2_unfold(g as nat);
            assert(sum == (2 * (base + m * up)) as nat * pow2((g - 1) as nat))
                by (nonlinear_arith)
                requires
                    sum == base as nat * pow2(g as nat) + m as nat * pow2(j as nat),
                    pow2(j as nat) == up as nat * pow2(g as nat),
                    pow2(g as nat) == 2 * pow2((g - 1) as nat),
            ;
        }
        return round_dyadic(2 * (base + m as u64 * up), g as i32 - 1);
    }
    let down: u64 = two_to(g - j);
    let low: u64 = m as u64 / down;
    let rest: u64 = m as u64 % down;
    proof {
        lemma_div_nonincreasing(m as int, down as int);
    }
    let p: u64 = if rest == 0 {
        2 * (base + low)
    } else {
        2 * (base + low) + 1
    };
    proof {
        let (n, d) = ((base * down + m) as nat, down as nat);
        lemma_fundamental_div_mod(m as int, d as int);
        lemma_mod_bound(m as int, d as int);
        assert(n == (base + low) * d + rest) by (nonlinear_arith)
            requires
                n == base * d + m,
                m == d * low + rest,
        ;
        lemma_fundamental_div_mod_converse(n as int, d as int, base + low, rest as int);
        lemma_quotient(n, d, p as nat, g as int);
        lemma_pow2_adds((g - j) as nat, j as nat);
        lemma_pow2_pos(j as nat);
        assert(n * pow2(g as nat) == d * sum) by (nonlinear_arith)
            requires
                n == base * d + m,
                sum == base as nat * pow2(g as nat) + m as nat * pow2(j as nat),
                pow2(g as nat) == d * pow2(j as nat),
        {
            let (x, y) = (pow2(g as nat) as int, pow2(j as nat) as int);
            assert(n * x == (base * d) * x + m * x);
            assert((base * d) * x == d * (base * x));
            assert(m * x == d * (m * y));
            assert(d * sum == d * (base * x) + d * (m * y));
        }
        lemma_ratio_scale(d, sum, 1);
        lemma_ratio_whole(sum);
        assert(d * 1 == d) by (nonlinear_arith);
    }
    round_dyadic(p, g as i32 - 1)
}

/// The rounded parts of a time, in seconds, are at most a second and what a
/// 64-bit number of nanoseconds holds, and so is their sum.
proof fn lemma_seconds_bound(whole: nat, rest: nat, sum: nat)
    requires
        whole <= 0x200_0000_0000,
        rest < SECOND,
        sum == whole * one() + rounded_ratio(rounded(rest) * one(), SECOND as nat),
    ensures
        rounded(rest) <= SECOND,
        rounded(sum) < pow2(277),
{
    // In units these patterns are 1000000000, and one times two to the power of 42.
    let (second, limit): (u32, u32) = (0x3EE_6B28, 0x5480_0000);
    lemma2_to64();
    lemma2_to64_rest();
    lemma_pow2_pos(149);
    assert(second / 0x80_0000 == 7 && second % 0x80_0000 == 0x6E_6B28);
    assert(significand(second) == 15_625_000 && shift(second) == 6);
    assert(units(second) == 15_625_000 * 64);
    lemma_ratio_whole(rest);
    lemma_ratio_at_most(rest, 1, second);
    lemma_full_units();
    assert(rounded(rest) * one() <= units(FULL) * SECOND as nat) by (nonlinear_arith)
        requires
            rounded(rest) <= SECOND,
            units(FULL) == one(),
    ;
    lemma_ratio_at_most(rounded(rest) * one(), SECOND as nat, FULL);
    assert(limit / 0x80_0000 == 169 && limit % 0x80_0000 == 0);
    lemma_pow2_adds(23, 168);
    lemma_pow2_adds(42, 149);
    assert(sum <= units(limit)) by (nonlinear_arith)
        requires
            whole <= 0x200_0000_0000,
            sum <= whole * one() + one(),
            units(limit) == 0x400_0000_0000 * one(),
            one() > 0,
    ;
    lemma_ratio_whole(sum);
    lemma_ratio_at_most(sum, 1, limit);
}

/// A time of so many nanoseconds in seconds.
pub fn seconds_of(nanos: u64) -> (bits: u32)
    ensures
        bits < INFINITY,
        units(bits) == seconds(nanos as nat),
{
    let whole: u64 = round_to_significand(nanos / SECOND);
    let rest: u64 = round_to_significand(nanos % SECOND);
    let ghost sum = rounded((nanos / SECOND) as nat * one()) + rounded_ratio(
        rounded((nanos % SECOND) as nat * one()),
        SECOND as nat,
    );
    proof {
        lemma2_to64();
        lemma2_to64_rest();
        lemma_pow2_pos(149);
        lemma_rounded_shift((nanos / SECOND) as nat, 149);
        lemma_rounded_shift((nanos % SECOND) as nat, 149);
        lemma_seconds_bound(whole as nat, (nanos % SECOND) as nat, sum);
    }
    if rest == 0 {
        proof {
            assert(0 * one() == 0) by (nonlinear_arith);
            lemma_ratio_at_most(0, SECOND as nat, 0);
            lemma_zero_units();
        }
        return round_dyadic(whole, 149);
    }
    let fraction: u32 = fraction_of(rest);
    if whole == 0 {
        proof {
            assert(0 * one() == 0) by (nonlinear_arith);
            lemma_units_rounded(fraction);
        }
        return fraction;
    }
    if whole < 0x100_0000 {
        proof {
            assert(0x200_0000 <= whole * 0x4000_0000 < 0x80_0000_0000_0000);
        }
        sum_up(whole, fraction, 30)
    } else {
        sum_up(whole, fraction, 3)
    }
}

/// A time in seconds is off by at most a part in two to the power of 22.
pub proof fn lemma_seconds_near(nanos: nat)
    ensures
        0x40_0000 * (seconds(nanos) * SECOND as nat) <= 0x40_0000 * (nanos * one()) + nanos
            * one(),
        0x40_0000 * (nanos * one()) <= 0x40_0000 * (seconds(nanos) * SECOND as nat) + nanos
            * one(),
{
    let u = one();
    lemma2_to64();
    lemma2_to64_rest();
    lemma_pow2_strictly_increases(60, 149);
    let (x, y) = ((nanos / SECOND as nat) * u, (nanos % SECOND as nat) * u);
    let (whole, rest) = (rounded(x), rounded(y));
    let fraction = rounded_ratio(rest, SECOND as nat);
    lemma_ratio_whole(x);
    lemma_ratio_near(x, 1);
    lemma_ratio_whole(y);
    lemma_ratio_near(y, 1);
    lemma_ratio_near(rest, SECOND as nat);
    lemma_ratio_whole(whole + fraction);
    lemma_ratio_near(whole + fraction, 1);
    lemma_fundamental_div_mod(nanos as int, SECOND as int);
    assert(nanos * u == SECOND as nat * x + y) by (nonlinear_arith)
        requires
            nanos == SECOND as nat * (nanos / SECOND as nat) + nanos % SECOND as nat,
            x == (nanos / SECOND as nat) * u,
            y == (nanos % SECOND as nat) * u,
    ;
    if nanos == 0 {
        assert(0 * u == 0) by (nonlinear_arith);
        lemma_zero_units();
        lemma_units_rounded(0);
        lemma_ratio_at_most(0, SECOND as nat, 0);
    } else {
        assert(nanos * u >= u) by (nonlinear_arith)
            requires
                nanos >= 1,
        ;
    }
}

/// An 8-bit level is 255 times the intensity without its fraction, to a part in
/// two to the power of 24, and held to 255. A negative number and a NaN have
/// level 0, infinity has level 255.
pub proof fn law_level8_is_proportional(bits: u32)
    ensures
        level8(bits) <= 255,
        bits < INFINITY ==> 0x100_0000 * (level8(bits) * one()) <= 0x100_0001 * (255 * units(bits))
            + 0x100_0000,
        bits < INFINITY && level8(bits) < 255 ==> 0xFF_FFFF * (255 * units(bits)) < 0x100_0000 * ((
        level8(bits) + 1) * one()) + 0x100_0000,
        bits == INFINITY ==> level8(bits) == 255,
        bits > INFINITY ==> level8(bits) == 0,
{
    if bits < INFINITY {
        let (n, u) = (255 * units(bits), one());
        lemma_pow2_pos(149);
        lemma_ratio_whole(n);
        lemma_ratio_near(n, 1);
        let p = rounded(n);
        lemma_fundamental_div_mod(p as int, u as int);
        lemma_mod_bound(p as int, u as int);
        let q = p / u;
        assert(q * u == u * q && (q + 1) * u == u * q + u) by (nonlinear_arith);
        assert(p * 1 == p);
        if q > 255 {
            assert(255 * u <= q * u) by (nonlinear_arith)
                requires
                    q >= 255,
                    u > 0,
            ;
        }
    }
}

/// A 16-bit level is what it is at full intensity times the intensity, to the
/// nearest whole number and a part in two to the power of 24, and held to 65535.
/// A negative number and a NaN have level 0.
pub proof fn law_level16_is_proportional(full: nat, bits: u32)
    ensures
        level16(full, bits) <= 65535,
        bits < INFINITY ==> 0x200_0000 * (level16(full, bits) * one()) <= 0x200_0002 * (full
            * units(bits)) + 0x100_0000 * one() + 0x200_0000,
        bits < INFINITY && level16(full, bits) < 65535 ==> 0x1FF_FFFE * (full * units(bits))
            <= 0x200_0000 * (level16(full, bits) * one()) + 0x100_0000 * one() + 0x200_0000,
        bits == INFINITY ==> level16(full, bits) == (if full == 0 {
            0nat
        } else {
            65535
        }),
        bits > INFINITY ==> level16(full, bits) == 0,
{
    if bits < INFINITY {
        let (n, u) = (full * units(bits), one());
        lemma_pow2_pos(149);
        if full == 0 {
            assert(n == 0) by (nonlinear_arith)
                requires
                    full == 0,
                    n == full * units(bits),
            ;
            assert(0 * u == 0) by (nonlinear_arith);
        } else {
            lemma_ratio_whole(n);
            lemma_ratio_near(n, 1);
            let p = rounded(n);
            assert(p * 1 == p);
            let (m, d) = (2 * p + u, 2 * u);
            lemma_fundamental_div_mod(m as int, d as int);
            lemma_mod_bound(m as int, d as int);
            let q = m / d;
            assert(d * q == 2 * (q * u)) by (nonlinear_arith)
                requires
                    d == 2 * u,
            ;
            if q > 65535 {
                assert(65535 * u <= q * u) by (nonlinear_arith)
                    requires
                        q >= 65535,
                        u > 0,
                ;
            }
        }
    }
}

/// An intensity is dead where it is zero or has its sign bit set, and no other
/// number is.
pub proof fn law_dead_is_not_above_zero(bits: u32)
    ensures
        bits < INFINITY ==> (not_positive(bits) <==> units(bits) == 0),
        bits == INFINITY ==> !not_positive(bits),
        0x8000_0000 <= bits <= 0xFF80_0000 ==> not_positive(bits),
{
    lemma_zero_units();
    if 0 < bits < INFINITY {
        lemma_units_ordered(0, bits);
    }
}

} // verus!
