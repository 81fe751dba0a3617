//! Decay envelopes: how a struck light rises with velocity and fades with time.
//!
//! Intensities, rates and times are binary32 numbers in their bit patterns
//! (see [`crate::binary32`]). The one operation that is not carried out here is
//! the exponential function: an envelope that fades exponentially says what its
//! exponent is, and takes the power from its caller.

use crate::binary32::{
    divide_small, encodes, excess, floor_root, is_not_positive, lemma_excess,
    lemma_floor_root_exists, lemma_full_units, lemma_ratio_at_least, lemma_ratio_at_most,
    lemma_ratio_near, lemma_ratio_ordered, lemma_ratio_rounded, lemma_ratio_whole,
    lemma_root_near, lemma_root_of_square, lemma_root_ordered, lemma_seconds_near,
    lemma_units_ordered, lemma_units_rounded, lemma_zero_units, level8, multiply, not_positive,
    one, reciprocal, rounded, rounded_ratio, rounded_root, seconds, square_root,
    subtract_to_zero, to_level8, units, FULL, INFINITY,
};
use vstd::arithmetic::div_mod::*;
use vstd::arithmetic::power2::*;
use vstd::prelude::*;

verus! {

/// How a trigger's velocity becomes an intensity.
#[derive(Debug, Clone, Copy, PartialEq, Eq, Structural)]
pub enum VelocityCurve {
    Linear,
    Hard,
    Soft,
}

impl Default for VelocityCurve {
    fn default() -> (curve: Self)
        ensures
            curve == VelocityCurve::Linear,
    {
        VelocityCurve::Linear
    }
}

/// How an intensity fades.
#[derive(Debug, Clone, Copy, PartialEq, Eq, Structural)]
pub enum DecayProfile {
    Linear,
    Exponential,
}

impl Default for DecayProfile {
    fn default() -> (profile: Self)
        ensures
            profile == DecayProfile::Linear,
    {
        DecayProfile::Linear
    }
}

/// Logical behavior for an effect (independent of input and output).
#[derive(Debug, Clone, Copy, PartialEq, Eq, Structural)]
pub struct BehaviorConfig {
    /// Bit pattern of the seconds from full intensity to none.
    pub decay_seconds: u32,
    pub velocity_curve: VelocityCurve,
    pub decay_profile: DecayProfile,
}

/// The pattern of 0.001, the shortest decay in seconds.
pub const SHORTEST_DECAY: u32 = 0x3A83_126F;

/// The pattern of 1000.0, the fastest decay per second.
pub const FASTEST_RATE: u32 = 0x447A_0000;

/// The pattern of 5.0, how many time constants an exponential decay lasts.
pub const TIME_CONSTANTS: u32 = 0x40A0_0000;

/// The pattern of 0.01, the intensity below which an exponential decay ends.
pub const SNAP: u32 = 0x3C23_D70A;

/// The highest velocity of a MIDI note.
pub const MAX_VELOCITY: u8 = 127;

/// The decay time that counts: at least [`SHORTEST_DECAY`], which also stands
/// in for a negative number and for a NaN.
pub open spec fn effective_decay(decay_seconds: u32) -> u32 {
    if SHORTEST_DECAY <= decay_seconds <= INFINITY {
        decay_seconds
    } else {
        SHORTEST_DECAY
    }
}

/// The decay per second, in units: the reciprocal of the time that counts.
pub open spec fn decay_rate(decay_seconds: u32) -> nat {
    if effective_decay(decay_seconds) == INFINITY {
        0
    } else {
        rounded_ratio(one() * one(), units(effective_decay(decay_seconds)))
    }
}

/// A velocity over the highest one, in units.
pub open spec fn normalized(velocity: u8) -> nat {
    rounded_ratio(velocity as nat * one(), 127)
}

/// The intensity of a trigger, in units: the normalized velocity, its square
/// or its square root.
pub open spec fn struck(curve: VelocityCurve, velocity: u8) -> nat {
    match curve {
        VelocityCurve::Linear => normalized(velocity),
        VelocityCurve::Hard => rounded_ratio(normalized(velocity) * normalized(velocity), one()),
        VelocityCurve::Soft => rounded_root(normalized(velocity) * one()),
    }
}

/// What a linear decay leaves of `intensity`, in units: the rate times the
/// time is taken off, down to zero.
pub open spec fn faded_linearly(intensity: nat, rate: nat, time: nat) -> nat {
    let reduction = rounded_ratio(rate * time, one());
    if intensity <= reduction {
        0
    } else {
        rounded((intensity - reduction) as nat)
    }
}

/// What an exponential decay leaves of `intensity`, in units: the fraction
/// `power` of it, and nothing once that is below [`SNAP`].
pub open spec fn faded_exponentially(intensity: nat, power: nat) -> nat {
    let left = rounded_ratio(intensity * power, one());
    if left < units(SNAP) {
        0
    } else {
        left
    }
}

/// The exponent of an exponential decay, without its sign, in units: five
/// times the rate, times the time.
pub open spec fn exponent_units(rate: nat, time: nat) -> nat {
    rounded_ratio(rounded_ratio(units(TIME_CONSTANTS) * rate, one()) * time, one())
}

/// The fading intensity of one triggered effect.
#[derive(Debug, Clone, Copy, PartialEq, Eq, Structural)]
pub struct DecayEnvelope {
    /// Bit pattern of the current intensity, 0.0 to 1.0 for a velocity in range.
    pub intensity: u32,
    /// Bit pattern of the part of full intensity that a second takes.
    pub decay_per_second: u32,
    pub velocity_curve: VelocityCurve,
    pub decay_profile: DecayProfile,
}

impl DecayEnvelope {
    /// The intensity is finite and not negative, and the rate is in range.
    pub open spec fn wf(self) -> bool {
        self.intensity < INFINITY && self.decay_per_second <= FASTEST_RATE
    }

    /// The current intensity, in units.
    pub open spec fn level(self) -> nat {
        units(self.intensity)
    }

    /// The decay per second, in units.
    pub open spec fn rate(self) -> nat {
        units(self.decay_per_second)
    }

    /// The intensity after a tick of `time`, in units; `power` is what the
    /// exponential function gave.
    pub open spec fn faded(self, time: u32, power: u32) -> nat {
        match self.decay_profile {
            DecayProfile::Linear => faded_linearly(self.level(), self.rate(), units(time)),
            DecayProfile::Exponential => faded_exponentially(self.level(), units(power)),
        }
    }

    /// A dark envelope that decays in `decay_seconds`.
    pub fn new(
        decay_seconds: u32,
        velocity_curve: VelocityCurve,
        decay_profile: DecayProfile,
    ) -> (envelope: Self)
        ensures
            envelope.wf(),
            envelope.intensity == 0,
            envelope.rate() == decay_rate(decay_seconds),
            envelope.velocity_curve == velocity_curve,
            envelope.decay_profile == decay_profile,
    {
        let seconds: u32 = if SHORTEST_DECAY <= decay_seconds && decay_seconds <= INFINITY {
            decay_seconds
        } else {
            SHORTEST_DECAY
        };
        let rate: u32 = if seconds == INFINITY {
            0
        } else {
            proof {
                lemma_rate_bound(seconds);
            }
            reciprocal(seconds)
        };
        proof {
            lemma2_to64();
            assert(0 * pow2(0) == 0) by (nonlinear_arith);
            if rate > FASTEST_RATE {
                lemma_units_ordered(FASTEST_RATE, rate);
            }
        }
        DecayEnvelope { intensity: 0, decay_per_second: rate, velocity_curve, decay_profile }
    }

    /// Trigger the envelope with a velocity (0-127).
    pub fn trigger(&mut self, velocity: u8)
        ensures
            final(self).intensity < INFINITY,
            old(self).decay_per_second <= FASTEST_RATE ==> final(self).wf(),
            final(self).level() == struck(old(self).velocity_curve, velocity),
            final(self).decay_per_second == old(self).decay_per_second,
            final(self).velocity_curve == old(self).velocity_curve,
            final(self).decay_profile == old(self).decay_profile,
    {
        proof {
            lemma_normalized_bounds(velocity);
        }
        let fraction: u32 = divide_small(velocity, MAX_VELOCITY);
        proof {
            lemma_units_rounded(fraction);
            lemma_struck_bounds(velocity, fraction);
        }
        self.intensity = match self.velocity_curve {
            VelocityCurve::Linear => fraction,
            VelocityCurve::Hard => multiply(fraction, fraction),
            VelocityCurve::Soft => square_root(fraction),
        };
    }

    /// The exponent, without its sign, of the power by which an exponential
    /// decay of `dt_seconds` scales the intensity.
    pub fn decay_exponent(&self, dt_seconds: u32) -> (exponent: u32)
        requires
            self.wf(),
            dt_seconds < INFINITY,
        ensures
            encodes(exponent, exponent_units(self.rate(), units(dt_seconds))),
    {
        proof {
            lemma_exponent_bound(self.decay_per_second);
        }
        let rate: u32 = multiply(TIME_CONSTANTS, self.decay_per_second);
        multiply(rate, dt_seconds)
    }

    /// Progress the decay by one tick of `dt_seconds`. An exponential decay
    /// scales the intensity by `power`, which is at most 1.
    pub fn tick(&mut self, dt_seconds: u32, power: u32)
        requires
            old(self).wf(),
            dt_seconds < INFINITY,
            power <= FULL,
        ensures
            final(self).wf(),
            final(self).level() == old(self).faded(dt_seconds, power),
            final(self).intensity <= old(self).intensity,
            final(self).decay_per_second == old(self).decay_per_second,
            final(self).velocity_curve == old(self).velocity_curve,
            final(self).decay_profile == old(self).decay_profile,
    {
        let ghost before = self.intensity;
        proof {
            lemma2_to64();
            lemma_units_rounded(before);
            assert(0 * pow2(0) == 0) by (nonlinear_arith);
        }
        match self.decay_profile {
            DecayProfile::Linear => {
                let reduction: u32 = multiply(self.decay_per_second, dt_seconds);
                if reduction == INFINITY {
                    self.intensity = 0;
                } else {
                    proof {
                        if units(reduction) <= units(before) {
                            lemma_difference_bound(before, reduction);
                        }
                    }
                    self.intensity = subtract_to_zero(self.intensity, reduction);
                }
            },
            DecayProfile::Exponential => {
                proof {
                    lemma_power_bound(before, power);
                }
                let left: u32 = multiply(self.intensity, power);
                proof {
                    lemma_units_rounded(left);
                    if left < SNAP {
                        lemma_units_ordered(left, SNAP);
                    } else if SNAP < left {
                        lemma_units_ordered(SNAP, left);
                    }
                }
                self.intensity = if left < SNAP {
                    0
                } else {
                    left
                };
            },
        }
        proof {
            if before < self.intensity {
                lemma_units_ordered(before, self.intensity);
            }
        }
    }

    /// Whether nothing is left of the intensity.
    pub fn is_dead(&self) -> (dead: bool)
        ensures
            dead == not_positive(self.intensity),
    {
        is_not_positive(self.intensity)
    }

    /// The intensity as a DMX channel value.
    pub fn dmx_value(&self) -> (value: u8)
        ensures
            value == level8(self.intensity),
    {
        to_level8(self.intensity)
    }
}

/// The reciprocal of a decay time that counts is at most [`FASTEST_RATE`].
proof fn lemma_rate_bound(seconds: u32)
    requires
        SHORTEST_DECAY <= seconds < INFINITY,
    ensures
        units(seconds) > 0,
        rounded_ratio(one() * one(), units(seconds)) <= units(FASTEST_RATE),
        rounded_ratio(one() * one(), units(seconds)) < pow2(277),
{
    lemma2_to64();
    lemma2_to64_rest();
    if SHORTEST_DECAY < seconds {
        lemma_units_ordered(SHORTEST_DECAY, seconds);
    }
    // 1000.0 is 1000 * 2^14 * 2^135 units, 0.001 is 0x83126F * 2^116 units.
    assert(FASTEST_RATE / 0x80_0000 == 136 && FASTEST_RATE % 0x80_0000 == 0x7A_0000);
    assert(SHORTEST_DECAY / 0x80_0000 == 117 && SHORTEST_DECAY % 0x80_0000 == 0x3_126F);
    lemma_pow2_pos(116);
    lemma_pow2_pos(135);
    lemma_pow2_adds(149, 149);
    lemma_pow2_adds(135, 116);
    lemma_pow2_adds(251, 47);
    let (a, b, c) = (units(FASTEST_RATE), units(SHORTEST_DECAY), units(seconds));
    assert(a * b == (0xFA_0000 * 0x83_126F) * pow2(251)) by (nonlinear_arith)
        requires
            a == 0xFA_0000 * pow2(135),
            b == 0x83_126F * pow2(116),
            pow2(251) == pow2(135) * pow2(116),
    ;
    lemma_pow2_pos(251);
    assert(one() * one() <= a * b) by (nonlinear_arith)
        requires
            one() * one() == pow2(251) * 0x8000_0000_0000,
            a * b == (0xFA_0000 * 0x83_126F) * pow2(251),
            pow2(251) > 0,
    ;
    assert(b > 0) by (nonlinear_arith)
        requires
            b == 0x83_126F * pow2(116),
            pow2(116) > 0,
    ;
    assert(a * b <= a * c) by (nonlinear_arith)
        requires
            b <= c,
            a >= 0,
    ;
    lemma_ratio_at_most(one() * one(), c, FASTEST_RATE);
}

/// A normalized velocity is at most 4, and zero or at least 2^-126.
proof fn lemma_normalized_bounds(velocity: u8)
    ensures
        normalized(velocity) <= 4 * one(),
        normalized(velocity) < pow2(277),
        velocity == 0 ==> normalized(velocity) == 0,
        velocity > 0 ==> normalized(velocity) >= 0x80_0000,
{
    let four: u32 = 0x4080_0000;
    lemma2_to64();
    lemma_pow2_pos(149);
    lemma_pow2_adds(23, 128);
    lemma_pow2_adds(2, 149);
    assert(four / 0x80_0000 == 129 && four % 0x80_0000 == 0);
    assert(units(four) == 4 * one());
    assert(velocity as nat * one() <= units(four) * 127) by (nonlinear_arith)
        requires
            units(four) == 4 * one(),
            velocity <= 255,
    ;
    lemma_ratio_at_most(velocity as nat * one(), 127, four);
    if velocity == 0 {
        assert(0 * one() == 0) by (nonlinear_arith);
        assert(127 * pow2(0) == 127);
        assert(0 * pow2(0) == 0) by (nonlinear_arith);
    } else {
        let least: u32 = 0x80_0000;
        assert(least / 0x80_0000 == 1 && least % 0x80_0000 == 0);
        assert(0x80_0000 * pow2(0) == 0x80_0000) by (nonlinear_arith)
            requires
                pow2(0) == 1,
        ;
        lemma_pow2_strictly_increases(32, 149);
        assert(units(least) * 127 <= velocity as nat * one()) by (nonlinear_arith)
            requires
                units(least) == 0x80_0000,
                one() >= 0x1_0000_0000,
                velocity >= 1,
        ;
        lemma_ratio_at_least(velocity as nat * one(), 127, least);
    }
}

/// The curves keep a normalized velocity in range.
proof fn lemma_struck_bounds(velocity: u8, fraction: u32)
    requires
        fraction < INFINITY,
        units(fraction) == normalized(velocity),
    ensures
        fraction == 0 || 0x80_0000 <= fraction,
        struck(VelocityCurve::Hard, velocity) < pow2(277),
        struck(VelocityCurve::Soft, velocity) < pow2(277),
{
    lemma2_to64();
    lemma_normalized_bounds(velocity);
    if fraction < 0x80_0000 {
        assert(fraction / 0x80_0000 == 0 && fraction % 0x80_0000 == fraction);
        assert(fraction as nat * pow2(0) == fraction) by (nonlinear_arith)
            requires
                pow2(0) == 1,
        ;
    }
    let x = normalized(velocity);
    lemma_pow2_pos(149);
    let sixteen: u32 = 0x4180_0000;
    lemma_pow2_adds(23, 130);
    lemma_pow2_adds(4, 149);
    assert(sixteen / 0x80_0000 == 131 && sixteen % 0x80_0000 == 0);
    assert(units(sixteen) == 16 * one());
    assert(x * x <= units(sixteen) * one()) by (nonlinear_arith)
        requires
            0 <= x <= 4 * one(),
            units(sixteen) == 16 * one(),
    ;
    lemma_ratio_at_most(x * x, one(), sixteen);
    lemma_root_bound(x);
}

/// The root of at most 4 is at most 4.
proof fn lemma_root_bound(x: nat)
    requires
        x <= 4 * one(),
    ensures
        rounded_root(x * one()) < pow2(277),
{
    lemma2_to64();
    let n = x * one();
    let f = floor_root(n);
    lemma_floor_root_exists(n);
    lemma_pow2_pos(149);
    assert(f <= 2 * one()) by (nonlinear_arith)
        requires
            f * f <= x * one(),
            x <= 4 * one(),
            one() > 0,
            f >= 0,
    {
        if f > 2 * one() {
            assert(f * f > (2 * one()) * (2 * one()));
            assert(x * one() <= (4 * one()) * one());
        }
    }
    let k = excess(f);
    lemma_excess(f);
    lemma_pow2_pos(k);
    lemma_fundamental_div_mod(f as int, pow2(k) as int);
    let below = f / pow2(k);
    assert(below * pow2(k) <= f) by (nonlinear_arith)
        requires
            f == pow2(k) * below + f % pow2(k),
            f % pow2(k) >= 0,
    ;
    assert((below + 1) * pow2(k) == below * pow2(k) + pow2(k)) by (nonlinear_arith);
    assert(pow2(k) <= f + 1);
    lemma_pow2_adds(3, 149);
    lemma_pow2_strictly_increases(152, 277);
}

/// Five times a rate in range is finite.
proof fn lemma_exponent_bound(rate: u32)
    requires
        rate <= FASTEST_RATE,
    ensures
        rounded_ratio(units(TIME_CONSTANTS) * units(rate), one()) < pow2(277),
{
    lemma2_to64();
    let limit: u32 = 0x4600_0000;
    if rate < FASTEST_RATE {
        lemma_units_ordered(rate, FASTEST_RATE);
    }
    assert(limit / 0x80_0000 == 140 && limit % 0x80_0000 == 0);
    assert(FASTEST_RATE / 0x80_0000 == 136 && FASTEST_RATE % 0x80_0000 == 0x7A_0000);
    assert(TIME_CONSTANTS / 0x80_0000 == 129 && TIME_CONSTANTS % 0x80_0000 == 0x20_0000);
    lemma_pow2_adds(14, 135);
    lemma_pow2_adds(21, 128);
    lemma_pow2_adds(10, 139);
    lemma_pow2_pos(149);
    lemma_pow2_pos(135);
    assert(units(FASTEST_RATE) == 1000 * one()) by (nonlinear_arith)
        requires
            units(FASTEST_RATE) == 0xFA_0000 * pow2(135),
            one() == 0x4000 * pow2(135),
    ;
    assert(units(TIME_CONSTANTS) == 5 * one()) by (nonlinear_arith)
        requires
            units(TIME_CONSTANTS) == 0xA0_0000 * pow2(128),
            one() == 0x20_0000 * pow2(128),
    ;
    assert(units(limit) == 8192 * one()) by (nonlinear_arith)
        requires
            units(limit) == 0x80_0000 * pow2(139),
            one() == 0x400 * pow2(139),
    ;
    assert(units(TIME_CONSTANTS) * units(rate) <= units(limit) * one()) by (nonlinear_arith)
        requires
            units(TIME_CONSTANTS) == 5 * one(),
            0 <= units(rate) <= 1000 * one(),
            units(limit) == 8192 * one(),
            one() > 0,
    ;
    lemma_ratio_at_most(units(TIME_CONSTANTS) * units(rate), one(), limit);
}

/// A difference is at most what was taken from.
proof fn lemma_difference_bound(a: u32, b: u32)
    requires
        a < INFINITY,
        b < INFINITY,
        units(b) <= units(a),
    ensures
        rounded((units(a) - units(b)) as nat) <= units(a),
        rounded((units(a) - units(b)) as nat) < pow2(277),
{
    let v = (units(a) - units(b)) as nat;
    lemma_ratio_whole(v);
    lemma_ratio_at_most(v, 1, a);
}

/// A number times at most 1 is at most the number.
proof fn lemma_power_bound(a: u32, power: u32)
    requires
        a < INFINITY,
        power <= FULL,
    ensures
        rounded_ratio(units(a) * units(power), one()) <= units(a),
        rounded_ratio(units(a) * units(power), one()) < pow2(277),
{
    lemma_full_units();
    if power < FULL {
        lemma_units_ordered(power, FULL);
    }
    lemma_pow2_pos(149);
    assert(units(a) * units(power) <= units(a) * one()) by (nonlinear_arith)
        requires
            units(power) <= one(),
            units(a) >= 0,
    ;
    lemma_ratio_at_most(units(a) * units(power), one(), a);
}

/// The highest velocity gives full intensity, and none gives none, whatever
/// the curve.
pub proof fn law_curves_span_all_intensities(curve: VelocityCurve)
    ensures
        struck(curve, MAX_VELOCITY) == units(FULL),
        struck(curve, 0) == 0,
{
    lemma_full_units();
    lemma_zero_units();
    lemma_pow2_pos(149);
    lemma_ratio_at_most(127 * one(), 127, FULL);
    lemma_ratio_at_least(127 * one(), 127, FULL);
    lemma_ratio_at_most(one() * one(), one(), FULL);
    lemma_ratio_at_least(one() * one(), one(), FULL);
    lemma_units_rounded(FULL);
    lemma_root_of_square(one());
    assert(0 * one() == 0) by (nonlinear_arith);
    lemma_normalized_bounds(0);
    lemma_ratio_at_most(0, one(), 0);
    lemma_units_rounded(0);
    lemma_root_of_square(0);
}

/// A harder hit is never dimmer, whatever the curve.
pub proof fn law_harder_hit_is_no_dimmer(curve: VelocityCurve, softer: u8, harder: u8)
    requires
        softer <= harder,
    ensures
        struck(curve, softer) <= struck(curve, harder),
{
    lemma_pow2_pos(149);
    let u = one();
    assert((softer as nat * u) * 127 <= (harder as nat * u) * 127) by (nonlinear_arith)
        requires
            softer <= harder,
            u > 0,
    ;
    lemma_ratio_ordered(softer as nat * u, 127, harder as nat * u, 127);
    let (x, y) = (normalized(softer), normalized(harder));
    assert((x * x) * u <= (y * y) * u && x * u <= y * u) by (nonlinear_arith)
        requires
            0 <= x <= y,
            u > 0,
    ;
    lemma_ratio_ordered(x * x, u, y * y, u);
    lemma_root_ordered(x * u, y * u);
}

/// Two normalized velocities are at least a 128th of full apart.
proof fn lemma_normalized_apart(softer: u8, harder: u8)
    requires
        softer < harder <= MAX_VELOCITY,
    ensures
        128 * normalized(softer) + one() <= 128 * normalized(harder),
        normalized(harder) <= one(),
{
    let u = one();
    lemma2_to64();
    lemma2_to64_rest();
    lemma_pow2_strictly_increases(40, 149);
    let (s, h) = (softer as nat * u, harder as nat * u);
    lemma_ratio_near(s, 127);
    lemma_ratio_near(h, 127);
    assert(s + u <= h <= 127 * u) by (nonlinear_arith)
        requires
            s == softer as nat * u,
            h == harder as nat * u,
            softer + 1 <= harder <= 127,
            u > 0,
    ;
    lemma_full_units();
    lemma_ratio_at_most(h, 127, FULL);
}

/// A harder hit is brighter, whatever the curve.
pub proof fn law_harder_hit_is_brighter(curve: VelocityCurve, softer: u8, harder: u8)
    requires
        softer < harder <= MAX_VELOCITY,
    ensures
        struck(curve, softer) < struck(curve, harder),
{
    let u = one();
    let (x, y) = (normalized(softer), normalized(harder));
    lemma_normalized_apart(softer, harder);
    lemma2_to64();
    lemma2_to64_rest();
    lemma_pow2_strictly_increases(40, 149);
    match curve {
        VelocityCurve::Linear => {},
        VelocityCurve::Hard => {
            lemma_ratio_near(x * x, u);
            lemma_ratio_near(y * y, u);
            let (a, b, uu) = (rounded_ratio(x * x, u), rounded_ratio(y * y, u), u * u);
            assert(16384 * (y * y) >= 16384 * (x * x) + uu && x * x <= uu && y * y <= uu)
                by (nonlinear_arith)
                requires
                    128 * x + u <= 128 * y,
                    0 <= x,
                    y <= u,
                    uu == u * u,
                    u > 0,
            {
                let (p, q) = (128 * x, 128 * y);
                assert(q * q >= (p + u) * (p + u));
                assert((p + u) * (p + u) == p * p + 2 * (p * u) + u * u);
                assert(p * u >= 0);
                assert(p * p == 16384 * (x * x));
                assert(q * q == 16384 * (y * y));
                assert(y * y <= u * u);
                assert(x * x <= u * u);
            }
            assert(uu > 0x100_0000 * u) by (nonlinear_arith)
                requires
                    uu == u * u,
                    u > 0x100_0000,
            ;
            assert(a * u < b * u);
            assert(a < b) by (nonlinear_arith)
                requires
                    a * u < b * u,
                    u > 0,
            ;
        },
        VelocityCurve::Soft => {
            lemma_root_near(x * u);
            lemma_root_near(y * u);
            lemma_floor_root_exists(x * u);
            lemma_floor_root_exists(y * u);
            let (f, g) = (floor_root(x * u), floor_root(y * u));
            assert(f <= u && g <= u) by (nonlinear_arith)
                requires
                    f * f <= x * u,
                    g * g <= y * u,
                    x <= y <= u,
                    f >= 0,
                    g >= 0,
                    u > 0,
            {
                if f > u {
                    assert(f * f > u * u);
                    assert(x * u <= u * u);
                }
                if g > u {
                    assert(g * g > u * u);
                    assert(y * u <= u * u);
                }
            }
            lemma_pow2_adds(9, 140);
            let w = pow2(140);
            assert(u == 512 * w);
            lemma_pow2_strictly_increases(31, 140);
            assert(f + w <= g + 1) by (nonlinear_arith)
                requires
                    f * f <= x * u,
                    y * u < (g + 1) * (g + 1),
                    128 * x + u <= 128 * y,
                    f <= u,
                    u == 512 * w,
                    w > 0,
                    f >= 0,
                    g >= 0,
            {
                if g + 1 < f + w {
                    assert((g + 1) * (g + 1) <= (f + w) * (f + w));
                    assert((f + w) * (f + w) == f * f + 2 * (f * w) + w * w);
                    assert(f * w <= u * w);
                    assert(u * w == 512 * (w * w));
                    assert(u * u == 262144 * (w * w));
                    assert((128 * x + u) * u <= (128 * y) * u);
                    assert((128 * x + u) * u == 128 * (x * u) + u * u);
                    assert((128 * y) * u == 128 * (y * u));
                    assert(w * w > 0);
                }
            }
        },
    }
}

/// The hard curve is never brighter than the linear one, nor that than the
/// soft one.
pub proof fn law_curves_are_ordered(velocity: u8)
    requires
        velocity <= MAX_VELOCITY,
    ensures
        struck(VelocityCurve::Hard, velocity) <= struck(VelocityCurve::Linear, velocity),
        struck(VelocityCurve::Linear, velocity) <= struck(VelocityCurve::Soft, velocity),
{
    law_harder_hit_is_no_dimmer(VelocityCurve::Linear, velocity, MAX_VELOCITY);
    law_curves_span_all_intensities(VelocityCurve::Linear);
    lemma_full_units();
    lemma_pow2_pos(149);
    lemma_ratio_rounded(velocity as nat * one(), 127);
    let (x, u) = (normalized(velocity), one());
    assert(x * x <= x * u) by (nonlinear_arith)
        requires
            0 <= x <= u,
    ;
    assert((x * x) * 1 <= x * u);
    lemma_ratio_ordered(x * x, u, x, 1);
    lemma_ratio_whole(x);
    lemma_root_of_square(x);
    lemma_root_ordered(x * x, x * u);
}

/// A dead envelope stays dead.
pub proof fn law_dead_stays_dead(envelope: DecayEnvelope, time: u32, power: u32)
    requires
        envelope.level() == 0,
    ensures
        envelope.faded(time, power) == 0,
{
    lemma_pow2_pos(149);
    lemma_zero_units();
    lemma_units_ordered(0, SNAP);
    assert(0 * units(power) == 0) by (nonlinear_arith);
    lemma_ratio_at_most(0, one(), 0);
}

/// No time takes nothing off a linear decay.
pub proof fn law_no_time_no_linear_fading(envelope: DecayEnvelope, power: u32)
    requires
        envelope.wf(),
        envelope.decay_profile == DecayProfile::Linear,
    ensures
        envelope.faded(0, power) == envelope.level(),
{
    lemma_pow2_pos(149);
    lemma_zero_units();
    assert(envelope.rate() * 0 == 0) by (nonlinear_arith);
    lemma_ratio_at_most(0, one(), 0);
    lemma_units_rounded(envelope.intensity);
}

/// More time never leaves more of a linear decay.
pub proof fn law_more_time_fades_no_less(
    envelope: DecayEnvelope,
    shorter: u32,
    longer: u32,
    power: u32,
)
    requires
        envelope.decay_profile == DecayProfile::Linear,
        shorter <= longer < INFINITY,
    ensures
        envelope.faded(longer, power) <= envelope.faded(shorter, power),
{
    lemma_pow2_pos(149);
    if shorter < longer {
        lemma_units_ordered(shorter, longer);
    }
    let (r, s, l, u) = (envelope.rate(), units(shorter), units(longer), one());
    assert((r * s) * u <= (r * l) * u) by (nonlinear_arith)
        requires
            0 <= s <= l,
            r >= 0,
            u > 0,
    ;
    lemma_ratio_ordered(r * s, u, r * l, u);
    let (a, b) = (rounded_ratio(r * s, u), rounded_ratio(r * l, u));
    if envelope.level() > b {
        let (x, y) = ((envelope.level() - b) as nat, (envelope.level() - a) as nat);
        lemma_ratio_ordered(x, 1, y, 1);
        lemma_ratio_whole(x);
        lemma_ratio_whole(y);
    }
}

/// Subtracting and rounding is off by at most a part in two to the power of 24
/// of full, or a unit.
proof fn lemma_left_near(intensity: nat, reduction: nat)
    requires
        intensity <= 2 * one(),
    ensures
        ({
            let left = if intensity <= reduction {
                0
            } else {
                rounded((intensity - reduction) as nat)
            };
            let exact = if intensity <= reduction {
                0
            } else {
                intensity - reduction
            };
            &&& 0x100_0000 * left <= 0x100_0000 * exact + 2 * one() + 0x100_0000
            &&& 0x100_0000 * exact <= 0x100_0000 * left + 2 * one() + 0x100_0000
        }),
{
    if intensity > reduction {
        let v = (intensity - reduction) as nat;
        lemma_ratio_near(v, 1);
        lemma_ratio_whole(v);
    }
}

/// A product of more than twice full is more than one and a half times full
/// when rounded.
proof fn lemma_long_enough(n: nat)
    requires
        n >= 2 * (one() * one()),
    ensures
        2 * rounded_ratio(n, one()) > 3 * one(),
{
    let u = one();
    lemma2_to64();
    lemma2_to64_rest();
    lemma_pow2_strictly_increases(40, 149);
    lemma_ratio_near(n, u);
    let a = rounded_ratio(n, u);
    assert(u * u > 0x100_0000 * u) by (nonlinear_arith)
        requires
            u > 0x100_0000,
    ;
    assert(2 * (a * u) > 3 * (u * u));
    assert(2 * a > 3 * u) by (nonlinear_arith)
        requires
            2 * (a * u) > 3 * (u * u),
            u > 0,
    ;
}

/// Two linear ticks and one tick of their sum, up to a part in two to the power
/// of 20 for how the times are rounded, differ by less than a part in 100000 of
/// full intensity.
pub proof fn law_linear_ticks_add_up(
    envelope: DecayEnvelope,
    between: DecayEnvelope,
    first: u32,
    second: u32,
    both: u32,
    power: u32,
)
    requires
        envelope.decay_profile == DecayProfile::Linear,
        envelope.level() <= units(FULL),
        between.decay_profile == DecayProfile::Linear,
        between.rate() == envelope.rate(),
        between.level() == envelope.faded(first, power),
        0x10_0000 * (units(first) + units(second)) <= 0x10_0000 * units(both) + units(both),
        0x10_0000 * units(both) <= 0x10_0000 * (units(first) + units(second)) + units(both),
    ensures
        100_000 * (between.faded(second, power) - envelope.faded(both, power)) < units(FULL),
        100_000 * (envelope.faded(both, power) - between.faded(second, power)) < units(FULL),
{
    lemma_full_units();
    let u = one();
    lemma2_to64();
    lemma2_to64_rest();
    lemma_pow2_strictly_increases(60, 149);
    let (r, i) = (envelope.rate(), envelope.level());
    let (na, nb, nc) = (r * units(first), r * units(second), r * units(both));
    let (a, b, c) = (rounded_ratio(na, u), rounded_ratio(nb, u), rounded_ratio(nc, u));
    let uu = u * u;
    assert(0x10_0000 * (na + nb) <= 0x10_0000 * nc + nc && 0x10_0000 * nc <= 0x10_0000 * (na + nb)
        + nc) by (nonlinear_arith)
        requires
            na == r * units(first),
            nb == r * units(second),
            nc == r * units(both),
            r >= 0,
            0x10_0000 * (units(first) + units(second)) <= 0x10_0000 * units(both) + units(both),
            0x10_0000 * units(both) <= 0x10_0000 * (units(first) + units(second)) + units(both),
    {
        let (x, y, z) = (units(first) as int, units(second) as int, units(both) as int);
        assert(r * (0x10_0000 * (x + y)) <= r * (0x10_0000 * z + z));
        assert(r * (0x10_0000 * z) <= r * (0x10_0000 * (x + y) + z));
        assert(r * (0x10_0000 * (x + y)) == 0x10_0000 * (r * x + r * y));
        assert(r * (0x10_0000 * z + z) == 0x10_0000 * (r * z) + r * z);
        assert(r * (0x10_0000 * z) == 0x10_0000 * (r * z));
        assert(r * (0x10_0000 * (x + y) + z) == 0x10_0000 * (r * x + r * y) + r * z);
    }
    assert(uu > 0x100_0000 * u) by (nonlinear_arith)
        requires
            uu == u * u,
            u > 0x100_0000,
    ;
    lemma_left_near(i, a);
    let t = between.level();
    assert(t <= 2 * u);
    lemma_left_near(t, b);
    lemma_left_near(i, c);
    if na + nb > 4 * uu {
        lemma_long_enough(nc);
        if na >= 2 * uu {
            lemma_long_enough(na);
        } else {
            lemma_long_enough(nb);
        }
    } else {
        lemma_ratio_near(na, u);
        lemma_ratio_near(nb, u);
        lemma_ratio_near(nc, u);
        let d = a + b - c;
        assert(d * u == a * u + b * u - c * u) by (nonlinear_arith)
            requires
                d == a + b - c,
        ;
        assert(0x100_0000 * (d * u) <= 89 * uu + 3 * (0x100_0000 * u));
        assert(-(89 * uu + 3 * (0x100_0000 * u)) <= 0x100_0000 * (d * u));
        assert(0x100_0000 * d <= 89 * u + 3 * 0x100_0000 && -(89 * u + 3 * 0x100_0000)
            <= 0x100_0000 * d) by (nonlinear_arith)
            requires
                0x100_0000 * (d * u) <= 89 * uu + 3 * (0x100_0000 * u),
                -(89 * uu + 3 * (0x100_0000 * u)) <= 0x100_0000 * (d * u),
                uu == u * u,
                u > 0,
        {
            let (p, q) = (0x100_0000 * d, 89 * u + 3 * 0x100_0000);
            assert(p * u == 0x100_0000 * (d * u));
            assert(q * u == 89 * uu + 3 * (0x100_0000 * u));
            assert(p * u <= q * u && -(q * u) <= p * u);
            if p > q {
                assert(p * u > q * u);
            }
            if p < -q {
                assert(p * u < (-q) * u);
            }
        }
    }
}

/// The seconds of two times, and those of both together, add up to a part in two
/// to the power of 20.
proof fn lemma_seconds_add_up(first: nat, second: nat)
    ensures
        0x10_0000 * (seconds(first) + seconds(second)) <= 0x10_0000 * seconds(first + second)
            + seconds(first + second),
        0x10_0000 * seconds(first + second) <= 0x10_0000 * (seconds(first) + seconds(second))
            + seconds(first + second),
{
    lemma_seconds_near(first);
    lemma_seconds_near(second);
    lemma_seconds_near(first + second);
    assert((first + second) * one() == first * one() + second * one()) by (nonlinear_arith);
}

/// Linear decay depends on the time that has passed and not on how it is cut
/// into ticks: from any intensity up to full and at any rate, two ticks of so
/// many nanoseconds each and one tick of both together differ by less than a
/// part in 100000 of full intensity.
pub proof fn law_linear_decay_follows_time(
    envelope: DecayEnvelope,
    between: DecayEnvelope,
    first_nanos: nat,
    second_nanos: nat,
    first: u32,
    second: u32,
    both: u32,
    power: u32,
)
    requires
        envelope.decay_profile == DecayProfile::Linear,
        envelope.level() <= units(FULL),
        units(first) == seconds(first_nanos),
        units(second) == seconds(second_nanos),
        units(both) == seconds(first_nanos + second_nanos),
        between.decay_profile == DecayProfile::Linear,
        between.rate() == envelope.rate(),
        between.level() == envelope.faded(first, power),
    ensures
        100_000 * (between.faded(second, power) - envelope.faded(both, power)) < units(FULL),
        100_000 * (envelope.faded(both, power) - between.faded(second, power)) < units(FULL),
{
    lemma_seconds_add_up(first_nanos, second_nanos);
    law_linear_ticks_add_up(envelope, between, first, second, both, power);
}

/// The exponents of an exponential decay add up with the time: those of two ticks
/// of so many nanoseconds each and that of one tick of both together differ by
/// at most 20 parts in two to the power of 24, and four units.
pub proof fn law_exponents_follow_time(rate: nat, first_nanos: nat, second_nanos: nat)
    ensures
        ({
            let first = exponent_units(rate, seconds(first_nanos));
            let second = exponent_units(rate, seconds(second_nanos));
            let both = exponent_units(rate, seconds(first_nanos + second_nanos));
            &&& 0x100_0000 * (first + second - both) <= 20 * both + 4 * 0x100_0000
            &&& 0x100_0000 * (both - first - second) <= 20 * both + 4 * 0x100_0000
        }),
{
    lemma_seconds_add_up(first_nanos, second_nanos);
    let u = one();
    lemma_pow2_pos(149);
    let (x, y) = (seconds(first_nanos), seconds(second_nanos));
    let z = seconds(first_nanos + second_nanos);
    let q = rounded_ratio(units(TIME_CONSTANTS) * rate, u);
    lemma_ratio_near(q * x, u);
    lemma_ratio_near(q * y, u);
    lemma_ratio_near(q * z, u);
    let (a, b, c) = (
        rounded_ratio(q * x, u) as int,
        rounded_ratio(q * y, u) as int,
        rounded_ratio(q * z, u) as int,
    );
    assert(0x10_0000 * (q * x + q * y) <= 0x10_0000 * (q * z) + q * z) by (nonlinear_arith)
        requires
            0x10_0000 * (x + y) <= 0x10_0000 * z + z,
            q >= 0,
    {
        assert(q * (0x10_0000 * (x + y)) <= q * (0x10_0000 * z + z));
        assert(q * (0x10_0000 * (x + y)) == 0x10_0000 * (q * x + q * y));
        assert(q * (0x10_0000 * z + z) == 0x10_0000 * (q * z) + q * z);
    }
    assert(0x10_0000 * (q * z) <= 0x10_0000 * (q * x + q * y) + q * z) by (nonlinear_arith)
        requires
            0x10_0000 * z <= 0x10_0000 * (x + y) + z,
            q >= 0,
    {
        assert(q * (0x10_0000 * z) <= q * (0x10_0000 * (x + y) + z));
        assert(q * (0x10_0000 * z) == 0x10_0000 * (q * z));
        assert(q * (0x10_0000 * (x + y) + z) == 0x10_0000 * (q * x + q * y) + q * z);
    }
    let (over, under) = (
        20 * c + 4 * 0x100_0000 - 0x100_0000 * (a + b - c),
        20 * c + 4 * 0x100_0000 - 0x100_0000 * (c - a - b),
    );
    assert(over * u == 20 * (c * u) + 4 * 0x100_0000 * u - 0x100_0000 * (a * u + b * u - c * u))
        by (nonlinear_arith)
        requires
            over == 20 * c + 4 * 0x100_0000 - 0x100_0000 * (a + b - c),
    ;
    assert(under * u == 20 * (c * u) + 4 * 0x100_0000 * u - 0x100_0000 * (c * u - a * u - b * u))
        by (nonlinear_arith)
        requires
            under == 20 * c + 4 * 0x100_0000 - 0x100_0000 * (c - a - b),
    ;
    assert(over * u >= 0 && under * u >= 0);
    assert(over >= 0 && under >= 0) by (nonlinear_arith)
        requires
            over * u >= 0,
            under * u >= 0,
            u > 0,
    ;
}

/// How far apart two products of powers are when the powers multiply up to
/// rounding.
proof fn lemma_powers_near(i: nat, pa: nat, pb: nat, pc: nat)
    requires
        i <= one(),
        pa <= one(),
        pb <= one(),
        pc <= one(),
        0x100_0000 * (pa * pb) <= 0x100_0000 * (pc * one()) + 140 * (pc * one()),
        0x100_0000 * (pc * one()) <= 0x100_0000 * (pa * pb) + 140 * (pc * one()),
    ensures
        ({
            let t = rounded_ratio(i * pa, one());
            let w = rounded_ratio(t * pb, one());
            let o = rounded_ratio(i * pc, one());
            &&& 0x100_0000 * (w - o) <= 144 * one() + 3 * 0x100_0000
            &&& 0x100_0000 * (o - w) <= 144 * one() + 3 * 0x100_0000
            &&& 0x100_0000 * w <= 0x100_0000 * t + 2 * one() + 0x100_0000
        }),
{
    let u = one();
    lemma2_to64();
    lemma2_to64_rest();
    lemma_pow2_strictly_increases(60, 149);
    let (x, y) = (i * pa, i * pc);
    lemma_ratio_near(x, u);
    let t = rounded_ratio(x, u);
    lemma_ratio_near(t * pb, u);
    let w = rounded_ratio(t * pb, u);
    lemma_ratio_near(y, u);
    let o = rounded_ratio(y, u);
    let uu = u * u;
    let m = 0x100_0000int;
    assert(x <= uu && y <= uu) by (nonlinear_arith)
        requires
            x == i * pa,
            y == i * pc,
            uu == u * u,
            0 <= i <= u,
            0 <= pa <= u,
            0 <= pc <= u,
    ;
    assert(uu > m * u) by (nonlinear_arith)
        requires
            uu == u * u,
            u > m,
            m > 0,
    ;
    assert(t <= 2 * u) by (nonlinear_arith)
        requires
            t * u <= 2 * uu,
            uu == u * u,
            u > 0,
    ;
    let z = t * pb;
    assert(z <= t * u && t * u <= 2 * uu) by (nonlinear_arith)
        requires
            z == t * pb,
            0 <= pb <= u,
            0 <= t <= 2 * u,
            uu == u * u,
    ;
    // Each step, brought to the cube of the units in 1.
    let (wuu, zu, xpb, yu, ouu, uuu) = (w * u * u, z * u, x * pb, y * u, o * u * u, uu * u);
    assert(m * wuu <= m * zu + 2 * uuu + m * uu && m * zu <= m * wuu + 2 * uuu + m * uu)
        by (nonlinear_arith)
        requires
            m * (w * u) <= m * z + z + m * u,
            m * z <= m * (w * u) + z + m * u,
            z <= 2 * uu,
            wuu == w * u * u,
            zu == z * u,
            uuu == uu * u,
            uu == u * u,
            u > 0,
    {
        assert((m * (w * u)) * u <= (m * z + 2 * uu + m * u) * u);
        assert((m * z) * u <= (m * (w * u) + 2 * uu + m * u) * u);
        assert((m * (w * u)) * u == m * wuu);
        assert((m * z + 2 * uu + m * u) * u == m * zu + 2 * uuu + m * uu);
        assert((m * (w * u) + 2 * uu + m * u) * u == m * wuu + 2 * uuu + m * uu);
    }
    let tu = t * u;
    assert((m * tu) * pb == m * zu) by {
        assert(tu * pb == zu) by (nonlinear_arith)
            requires
                tu == t * u,
                z == t * pb,
                zu == z * u,
        ;
        assert((m * tu) * pb == m * (tu * pb)) by (nonlinear_arith);
    }
    assert(m * zu <= m * xpb + uuu + m * uu && m * xpb <= m * zu + uuu + m * uu)
        by (nonlinear_arith)
        requires
            tu == t * u,
            (m * tu) * pb == m * zu,
            m * (t * u) <= m * x + x + m * u,
            m * x <= m * (t * u) + x + m * u,
            x <= uu,
            z == t * pb,
            zu == z * u,
            xpb == x * pb,
            uuu == uu * u,
            uu == u * u,
            0 <= pb <= u,
            u > 0,
            m > 0,
    {
        let e = uu + m * u;
        assert((m * (t * u)) * pb <= (m * x + e) * pb);
        assert((m * x) * pb <= (m * (t * u) + e) * pb);
        assert((m * x + e) * pb == m * xpb + e * pb);
        assert((m * (t * u) + e) * pb == (m * (t * u)) * pb + e * pb);
        assert(e * pb <= e * u);
        assert(e * u == uuu + m * uu);
    }
    assert(m * xpb <= m * yu + 140 * uuu && m * yu <= m * xpb + 140 * uuu) by (nonlinear_arith)
        requires
            0x100_0000 * (pa * pb) <= 0x100_0000 * (pc * u) + 140 * (pc * u),
            0x100_0000 * (pc * u) <= 0x100_0000 * (pa * pb) + 140 * (pc * u),
            x == i * pa,
            y == i * pc,
            xpb == x * pb,
            yu == y * u,
            y <= uu,
            uuu == uu * u,
            i >= 0,
            u > 0,
            m == 0x100_0000,
    {
        let (p, q) = (pa * pb, pc * u);
        assert(i * (0x100_0000 * p) <= i * (0x100_0000 * q + 140 * q));
        assert(i * (0x100_0000 * q) <= i * (0x100_0000 * p + 140 * q));
        assert(i * (0x100_0000 * p) == 0x100_0000 * (i * p));
        assert(i * (0x100_0000 * q + 140 * q) == 0x100_0000 * (i * q) + 140 * (i * q));
        assert(i * (0x100_0000 * q) == 0x100_0000 * (i * q));
        assert(i * (0x100_0000 * p + 140 * q) == 0x100_0000 * (i * p) + 140 * (i * q));
        assert(i * p == xpb);
        assert(i * q == yu);
        assert(yu <= uuu);
    }
    assert(m * ouu <= m * yu + uuu + m * uu && m * yu <= m * ouu + uuu + m * uu)
        by (nonlinear_arith)
        requires
            m * (o * u) <= m * y + y + m * u,
            m * y <= m * (o * u) + y + m * u,
            y <= uu,
            ouu == o * u * u,
            yu == y * u,
            uuu == uu * u,
            uu == u * u,
            u > 0,
    {
        assert((m * (o * u)) * u <= (m * y + uu + m * u) * u);
        assert((m * y) * u <= (m * (o * u) + uu + m * u) * u);
        assert((m * (o * u)) * u == m * ouu);
        assert((m * y + uu + m * u) * u == m * yu + uuu + m * uu);
        assert((m * (o * u) + uu + m * u) * u == m * ouu + uuu + m * uu);
    }
    assert(m * (w - o) <= 144 * u + 3 * m && m * (o - w) <= 144 * u + 3 * m) by (nonlinear_arith)
        requires
            m * wuu <= m * ouu + 144 * uuu + 3 * (m * uu),
            m * ouu <= m * wuu + 144 * uuu + 3 * (m * uu),
            wuu == w * u * u,
            ouu == o * u * u,
            uuu == uu * u,
            uu == u * u,
            u > 0,
    {
        let (p, q) = (m * (w - o), 144 * u + 3 * m);
        assert(uu > 0);
        assert(p * uu == m * wuu - m * ouu);
        assert(q * uu == 144 * uuu + 3 * (m * uu));
        if p > q {
            assert(p * uu > q * uu);
        }
        if -p > q {
            assert((-p) * uu > q * uu);
        }
    }
    assert(m * w <= m * t + 2 * u + m) by (nonlinear_arith)
        requires
            m * (w * u) <= m * z + z + m * u,
            z <= t * u,
            z <= 2 * uu,
            uu == u * u,
            u > 0,
            m > 0,
    {
        let (p, q) = (m * w, m * t + 2 * u + m);
        assert(p * u == m * (w * u));
        assert(q * u == m * (t * u) + 2 * uu + m * u);
        assert(m * z <= m * (t * u));
        if p > q {
            assert(p * u > q * u);
        }
    }
}

/// Exponential decay depends on the time that has passed and not on how it is
/// cut into ticks, as long as more than 0.011 is left: where the powers of two
/// ticks multiply to that of one tick, up to 140 parts in two to the power of 24,
/// the intensities differ by less than a part in 100000 of full.
pub proof fn law_exponential_ticks_add_up(
    envelope: DecayEnvelope,
    between: DecayEnvelope,
    time: u32,
    first: u32,
    second: u32,
    both: u32,
)
    requires
        envelope.decay_profile == DecayProfile::Exponential,
        envelope.level() <= units(FULL),
        between.decay_profile == DecayProfile::Exponential,
        between.level() == envelope.faded(time, first),
        first <= FULL,
        second <= FULL,
        both <= FULL,
        0x100_0000 * (units(first) * units(second)) <= 0x100_0000 * (units(both) * units(FULL))
            + 140 * (units(both) * units(FULL)),
        0x100_0000 * (units(both) * units(FULL)) <= 0x100_0000 * (units(first) * units(second))
            + 140 * (units(both) * units(FULL)),
        1000 * envelope.faded(time, both) > 11 * units(FULL),
    ensures
        100_000 * (between.faded(time, second) - envelope.faded(time, both)) < units(FULL),
        100_000 * (envelope.faded(time, both) - between.faded(time, second)) < units(FULL),
{
    lemma_full_units();
    let u = one();
    lemma2_to64();
    lemma2_to64_rest();
    lemma_pow2_strictly_increases(60, 149);
    if first < FULL {
        lemma_units_ordered(first, FULL);
    }
    if second < FULL {
        lemma_units_ordered(second, FULL);
    }
    if both < FULL {
        lemma_units_ordered(both, FULL);
    }
    lemma_powers_near(envelope.level(), units(first), units(second), units(both));
    // The intensity below which a decay ends is at most a hundredth of full.
    lemma_pow2_adds(30, 119);
    assert(SNAP / 0x80_0000 == 120 && SNAP % 0x80_0000 == 0x23_D70A);
    assert(100 * units(SNAP) <= u) by (nonlinear_arith)
        requires
            units(SNAP) == 0xA3_D70A * pow2(119),
            u == 0x4000_0000 * pow2(119),
            pow2(119) >= 0,
    ;
}

/// `e` turns the sum of two numbers into the product of their values.
pub open spec fn multiplies(e: spec_fn(real) -> real, x: real, y: real) -> bool {
    e(x + y) == e(x) * e(y)
}

/// `e` lies between 1 - x and 1 / (1 + x).
pub open spec fn is_enclosed(e: spec_fn(real) -> real, x: real) -> bool {
    1real - x <= e(x) && e(x) * (1real + x) <= 1real
}

/// `e` is the exponential function of the negated argument, where the argument
/// is not negative: the one function that turns sums into products and lies
/// between 1 - x and 1 / (1 + x).
pub open spec fn is_exponential(e: spec_fn(real) -> real) -> bool {
    &&& forall|x: real, y: real|
        x >= 0real && y >= 0real ==> #[trigger] multiplies(e, x, y)
    &&& forall|x: real| x >= 0real ==> #[trigger] is_enclosed(e, x)
}

/// A number of units as what it stands for.
pub open spec fn value(n: nat) -> real {
    (n as real) / (one() as real)
}

/// The exponential function lies above 0 and at most at 1.
proof fn lemma_exponential_positive(e: spec_fn(real) -> real, x: real)
    requires
        is_exponential(e),
        x >= 0real,
    ensures
        0real <= e(x) <= 1real,
{
    let h = x / 2real;
    assert(multiplies(e, h, h));
    assert(h + h == x);
    assert(is_enclosed(e, x));
    let y = e(h);
    assert(y * y >= 0real) by (nonlinear_arith);
    let z = e(x);
    assert(z <= 1real) by (nonlinear_arith)
        requires
            z * (1real + x) <= 1real,
            z >= 0real,
            x >= 0real,
    ;
}

/// From 6 on the exponential function is at most a hundredth.
proof fn lemma_exponential_small(e: spec_fn(real) -> real, x: real)
    requires
        is_exponential(e),
        x >= 6real,
    ensures
        100real * e(x) <= 1real,
{
    let h = x / 16real;
    let (a, b, c, d, z) = (e(h), e(h + h), e(x / 4real), e(x / 2real), e(x));
    lemma_exponential_positive(e, h);
    assert(is_enclosed(e, h));
    assert(1000real * a <= 728real) by (nonlinear_arith)
        requires
            a * (1real + h) <= 1real,
            a >= 0real,
            8real * h >= 3real,
    ;
    assert(multiplies(e, h, h));
    assert(multiplies(e, h + h, h + h));
    assert((h + h) + (h + h) == x / 4real);
    assert(multiplies(e, x / 4real, x / 4real));
    assert(x / 4real + x / 4real == x / 2real);
    assert(multiplies(e, x / 2real, x / 2real));
    assert(x / 2real + x / 2real == x);
    assert(1000real * b <= 530real && b >= 0real) by (nonlinear_arith)
        requires
            b == a * a,
            0real <= 1000real * a <= 728real,
    ;
    assert(1000real * c <= 281real && c >= 0real) by (nonlinear_arith)
        requires
            c == b * b,
            0real <= 1000real * b <= 530real,
    ;
    assert(1000real * d <= 79real && d >= 0real) by (nonlinear_arith)
        requires
            d == c * c,
            0real <= 1000real * c <= 281real,
    ;
    assert(100real * z <= 1real) by (nonlinear_arith)
        requires
            z == d * d,
            0real <= 1000real * d <= 79real,
    ;
}

/// The exponential function takes numbers that nearly add up to values that
/// nearly multiply.
proof fn lemma_exponential_near(e: spec_fn(real) -> real, a: real, b: real, c: real, off: real)
    requires
        is_exponential(e),
        a >= 0real,
        b >= 0real,
        c >= 0real,
        a + b - c <= off,
        c - a - b <= off,
        off <= 1real,
    ensures
        e(c) * (1real - off) <= e(a) * e(b),
        (e(a) * e(b)) * (1real - off) <= e(c),
{
    assert(multiplies(e, a, b));
    let (p, q) = (e(a + b), e(c));
    lemma_exponential_positive(e, a + b);
    lemma_exponential_positive(e, c);
    if a + b >= c {
        let d = a + b - c;
        lemma_exponential_positive(e, d);
        assert(multiplies(e, c, d));
        assert(c + d == a + b);
        assert(is_enclosed(e, d));
        let f = e(d);
        assert(q * (1real - off) <= p && p * (1real - off) <= q) by (nonlinear_arith)
            requires
                p == q * f,
                1real - off <= f <= 1real,
                0real <= f,
                0real <= p,
                0real <= q,
                0real <= off <= 1real,
        ;
    } else {
        let d = c - (a + b);
        lemma_exponential_positive(e, d);
        assert(multiplies(e, a + b, d));
        assert((a + b) + d == c);
        assert(is_enclosed(e, d));
        let f = e(d);
        assert(q * (1real - off) <= p && p * (1real - off) <= q) by (nonlinear_arith)
            requires
                q == p * f,
                1real - off <= f <= 1real,
                0real <= f,
                0real <= p,
                0real <= q,
                0real <= off <= 1real,
        ;
    }
}

/// A power is what the exponential function gives for an exponent, to a part in
/// two to the power of 22.
pub open spec fn is_power(e: spec_fn(real) -> real, power: nat, exponent: nat) -> bool {
    let exact = e(value(exponent));
    &&& 0x40_0000real * (value(power) - exact) <= exact
    &&& 0x40_0000real * (exact - value(power)) <= exact
}

/// The powers of exponents that nearly add up nearly multiply, where the
/// exponents are less than 6.
proof fn lemma_powers_multiply(
    e: spec_fn(real) -> real,
    powers: (nat, nat, nat),
    exponents: (nat, nat, nat),
)
    requires
        is_exponential(e),
        is_power(e, powers.0, exponents.0),
        is_power(e, powers.1, exponents.1),
        is_power(e, powers.2, exponents.2),
        0x100_0000 * (exponents.0 + exponents.1 - exponents.2) <= 20 * exponents.2 + 4
            * 0x100_0000,
        0x100_0000 * (exponents.2 - exponents.0 - exponents.1) <= 20 * exponents.2 + 4
            * 0x100_0000,
        value(exponents.2) <= 6real,
    ensures
        0x100_0000 * (powers.0 * powers.1) <= 0x100_0000 * (powers.2 * one()) + 140 * (powers.2
            * one()),
        0x100_0000 * (powers.2 * one()) <= 0x100_0000 * (powers.0 * powers.1) + 140 * (powers.2
            * one()),
{
    lemma2_to64_rest();
    lemma_pow2_strictly_increases(60, 149);
    let u = one() as real;
    let k = 0x100_0000real;
    let (a, b, c) = (value(exponents.0), value(exponents.1), value(exponents.2));
    let (ra, rb, rc) = (exponents.0 as real, exponents.1 as real, exponents.2 as real);
    assert(a * u == ra && b * u == rb && c * u == rc) by (nonlinear_arith)
        requires
            a == ra / u,
            b == rb / u,
            c == rc / u,
            u > 0real,
    ;
    assert(a >= 0real && b >= 0real && c >= 0real) by (nonlinear_arith)
        requires
            a * u == ra,
            b * u == rb,
            c * u == rc,
            ra >= 0real,
            rb >= 0real,
            rc >= 0real,
            u > 0real,
    ;
    assert(k * (ra + rb - rc) <= 20real * rc + 4real * k);
    assert(k * (rc - ra - rb) <= 20real * rc + 4real * k);
    let off = 121real / k;
    assert(a + b - c <= off && c - a - b <= off) by (nonlinear_arith)
        requires
            a * u == ra,
            b * u == rb,
            c * u == rc,
            c <= 6real,
            u >= 4real * k,
            k == 0x100_0000real,
            off == 121real / k,
            k * (ra + rb - rc) <= 20real * rc + 4real * k,
            k * (rc - ra - rb) <= 20real * rc + 4real * k,
    {
        let (x, y) = (k * (a + b - c), k * (c - a - b));
        assert(x * u == k * (ra + rb - rc));
        assert(y * u == k * (rc - ra - rb));
        assert((20real * c) * u == 20real * rc);
        assert((20real * c + 1real) * u >= 20real * rc + 4real * k);
        assert(x <= 20real * c + 1real);
        assert(y <= 20real * c + 1real);
    }
    lemma_exponential_near(e, a, b, c, off);
    let (ea, eb, ec) = (e(a), e(b), e(c));
    lemma_exponential_positive(e, a);
    lemma_exponential_positive(e, b);
    lemma_exponential_positive(e, c);
    let (pa, pb, pc) = (value(powers.0), value(powers.1), value(powers.2));
    let (p, q) = (pa * pb, ea * eb);
    let (lo, hi) = (0x100_0000real - 4real, 0x100_0000real + 4real);
    assert(k * pa <= hi * ea && lo * ea <= k * pa);
    assert(k * pb <= hi * eb && lo * eb <= k * pb);
    assert(k * p <= (k + 9real) * q && (k - 9real) * q <= k * p) by (nonlinear_arith)
        requires
            p == pa * pb,
            q == ea * eb,
            k * pa <= hi * ea,
            lo * ea <= k * pa,
            k * pb <= hi * eb,
            lo * eb <= k * pb,
            ea >= 0real,
            eb >= 0real,
            k == 0x100_0000real,
            lo == k - 4real,
            hi == k + 4real,
    {
        assert(pa >= 0real && pb >= 0real);
        assert((k * pa) * (k * pb) <= (hi * ea) * (hi * eb));
        assert((lo * ea) * (lo * eb) <= (k * pa) * (k * pb));
        assert((k * pa) * (k * pb) == (k * k) * p);
        assert((hi * ea) * (hi * eb) == (hi * hi) * q);
        assert((lo * ea) * (lo * eb) == (lo * lo) * q);
        assert(q >= 0real);
    }
    assert(ec * (k - 121real) <= k * q && q * (k - 121real) <= k * ec) by (nonlinear_arith)
        requires
            ec * (1real - off) <= q,
            q * (1real - off) <= ec,
            off == 121real / k,
            k == 0x100_0000real,
    ;
    assert(k * p <= (k + 140real) * pc && (k - 140real) * pc <= k * p);
    let (xa, xb, xc) = (powers.0 as real, powers.1 as real, powers.2 as real);
    assert(k * (xa * xb) <= k * (xc * u) + 140real * (xc * u) && k * (xc * u) <= k * (xa * xb)
        + 140real * (xc * u)) by (nonlinear_arith)
        requires
            p == pa * pb,
            pa == xa / u,
            pb == xb / u,
            pc == xc / u,
            u > 0real,
            k * p <= (k + 140real) * pc,
            (k - 140real) * pc <= k * p,
    {
        assert(pa * u == xa && pb * u == xb && pc * u == xc);
        let v = u * u;
        assert(p * v == xa * xb);
        assert(pc * v == xc * u);
        assert(v > 0real);
        assert((k * p) * v <= ((k + 140real) * pc) * v);
        assert(((k - 140real) * pc) * v <= (k * p) * v);
        assert((k * p) * v == k * (p * v));
        assert(((k + 140real) * pc) * v == (k + 140real) * (pc * v));
        assert(((k - 140real) * pc) * v == (k - 140real) * (pc * v));
    }
    let (m, n) = ((powers.0 * powers.1) as int, (powers.2 * one()) as int);
    assert(m as real == xa * xb) by (nonlinear_arith)
        requires
            m == powers.0 * powers.1,
            xa == powers.0 as real,
            xb == powers.1 as real,
    ;
    assert(n as real == xc * u) by (nonlinear_arith)
        requires
            n == powers.2 * one(),
            xc == powers.2 as real,
            u == one() as real,
    ;
    assert(k * (m as real) <= k * (n as real) + 140real * (n as real));
    assert(k * (n as real) <= k * (m as real) + 140real * (n as real));
}

/// A power that leaves more than 0.011 of full intensity belongs to an exponent
/// below 6.
proof fn lemma_exponent_below_six(
    e: spec_fn(real) -> real,
    intensity: nat,
    power: nat,
    exponent: nat,
)
    requires
        is_exponential(e),
        is_power(e, power, exponent),
        intensity <= one(),
        1000 * rounded_ratio(intensity * power, one()) > 11 * one(),
    ensures
        value(exponent) <= 6real,
{
    let u = one();
    lemma2_to64_rest();
    lemma_pow2_strictly_increases(60, 149);
    let left = rounded_ratio(intensity * power, u);
    lemma_ratio_near(intensity * power, u);
    assert(0x100_0000 * left <= 0x100_0000 * power + power + 0x100_0000) by (nonlinear_arith)
        requires
            0x100_0000 * (left * u) <= 0x100_0000 * (intensity * power) + intensity * power
                + 0x100_0000 * u,
            0 <= intensity <= u,
            power >= 0,
            u > 0,
    {
        let (x, y) = (0x100_0000 * left, 0x100_0000 * power + power + 0x100_0000);
        assert(intensity * power <= u * power);
        assert(x * u == 0x100_0000 * (left * u));
        assert(y * u == 0x100_0000 * (u * power) + u * power + 0x100_0000 * u);
        assert(x * u <= y * u);
        if x > y {
            assert(x * u > y * u);
        }
    }
    assert(10_000 * power > 109 * u);
    let (c, p) = (value(exponent), value(power));
    assert(10_000real * p > 109real) by (nonlinear_arith)
        requires
            p == (power as real) / (u as real),
            10_000real * (power as real) > 109real * (u as real),
            u as real > 0real,
    ;
    if c > 6real {
        lemma_exponential_small(e, c);
    }
}

/// Exponential decay depends on the time that has passed and not on how it is
/// cut into ticks, as long as more than 0.011 is left: from any intensity up to
/// full and at any rate, two ticks of so many nanoseconds each and one tick of
/// both together differ by less than a part in 100000 of full intensity. Each
/// tick is a time and a power; the powers are those of the exponential function
/// `e`, to a part in two to the power of 22.
pub proof fn law_exponential_decay_follows_time(
    e: spec_fn(real) -> real,
    envelope: DecayEnvelope,
    between: DecayEnvelope,
    first_nanos: nat,
    second_nanos: nat,
    first: (u32, u32),
    second: (u32, u32),
    both: (u32, u32),
)
    requires
        is_exponential(e),
        envelope.decay_profile == DecayProfile::Exponential,
        envelope.level() <= units(FULL),
        units(first.0) == seconds(first_nanos),
        units(second.0) == seconds(second_nanos),
        units(both.0) == seconds(first_nanos + second_nanos),
        first.1 <= FULL,
        second.1 <= FULL,
        both.1 <= FULL,
        is_power(e, units(first.1), exponent_units(envelope.rate(), units(first.0))),
        is_power(e, units(second.1), exponent_units(envelope.rate(), units(second.0))),
        is_power(e, units(both.1), exponent_units(envelope.rate(), units(both.0))),
        between.decay_profile == DecayProfile::Exponential,
        between.level() == envelope.faded(first.0, first.1),
        1000 * envelope.faded(both.0, both.1) > 11 * units(FULL),
    ensures
        100_000 * (between.faded(second.0, second.1) - envelope.faded(both.0, both.1)) < units(
            FULL,
        ),
        100_000 * (envelope.faded(both.0, both.1) - between.faded(second.0, second.1)) < units(
            FULL,
        ),
{
    let exponents = (
        exponent_units(envelope.rate(), units(first.0)),
        exponent_units(envelope.rate(), units(second.0)),
        exponent_units(envelope.rate(), units(both.0)),
    );
    lemma_full_units();
    law_exponents_follow_time(envelope.rate(), first_nanos, second_nanos);
    lemma_exponent_below_six(e, envelope.level(), units(both.1), exponents.2);
    lemma_powers_multiply(e, (units(first.1), units(second.1), units(both.1)), exponents);
    law_exponential_ticks_add_up(envelope, between, both.0, first.1, second.1, both.1);
}

/// On the linear curve the intensity is the velocity over 127, to a part in two
/// to the power of 23.
pub proof fn law_linear_curve_is_proportional(velocity: u8)
    ensures
        0x80_0000 * (127 * struck(VelocityCurve::Linear, velocity)) <= 0x80_0001 * (velocity
            * one()),
        0x7F_FFFF * (velocity * one()) <= 0x80_0000 * (127 * struck(
            VelocityCurve::Linear,
            velocity,
        )),
{
    let (v, u) = (velocity as nat, one());
    lemma2_to64_rest();
    lemma_pow2_strictly_increases(60, 149);
    lemma_ratio_near(v * u, 127);
    if v == 0 {
        assert(0 * u == 0) by (nonlinear_arith);
        lemma_normalized_bounds(0);
    } else {
        assert(v * u >= u) by (nonlinear_arith)
            requires
                v >= 1,
                u > 0,
        ;
    }
}

/// On the hard curve the intensity is the square of the velocity over 127, to a
/// part in two to the power of 20.
pub proof fn law_hard_curve_is_quadratic(velocity: u8)
    ensures
        0x10_0000 * (16_129 * struck(VelocityCurve::Hard, velocity)) <= 0x10_0001 * (velocity
            * velocity * one()),
        0xF_FFFF * (velocity * velocity * one()) <= 0x10_0000 * (16_129 * struck(
            VelocityCurve::Hard,
            velocity,
        )),
{
    let (v, u) = (velocity as int, one() as int);
    let x = normalized(velocity) as int;
    let s = struck(VelocityCurve::Hard, velocity) as int;
    law_linear_curve_is_proportional(velocity);
    lemma2_to64_rest();
    lemma_pow2_strictly_increases(60, 149);
    lemma_ratio_near((x * x) as nat, u as nat);
    let (y, a, m) = (127 * x, v * u, 0x80_0000int);
    let (yy, aa, su) = (y * y, a * a, s * u);
    assert(16_129 * (x * x) == yy) by (nonlinear_arith)
        requires
            y == 127 * x,
            yy == y * y,
    ;
    assert(m * yy <= (m + 3) * aa && (m - 3) * aa <= m * yy) by (nonlinear_arith)
        requires
            m * y <= (m + 1) * a,
            (m - 1) * a <= m * y,
            m == 0x80_0000,
            y >= 0,
            a >= 0,
            yy == y * y,
            aa == a * a,
    {
        assert((m * y) * (m * y) <= ((m + 1) * a) * ((m + 1) * a));
        assert(((m - 1) * a) * ((m - 1) * a) <= (m * y) * (m * y));
        assert((m * y) * (m * y) == (m * m) * yy);
        assert(((m + 1) * a) * ((m + 1) * a) == ((m + 1) * (m + 1)) * aa);
        assert(((m - 1) * a) * ((m - 1) * a) == ((m - 1) * (m - 1)) * aa);
        assert(aa >= 0);
    }
    let w = v * v * u;
    assert(aa == w * u) by (nonlinear_arith)
        requires
            aa == a * a,
            a == v * u,
            w == v * v * u,
    ;
    if velocity == 0 {
        law_curves_span_all_intensities(VelocityCurve::Hard);
        assert(w == 0) by (nonlinear_arith)
            requires
                v == 0,
                w == v * v * u,
        ;
    } else {
        assert(aa >= u * u && u * u >= 0x1000_0000_0000 * u) by (nonlinear_arith)
            requires
                v >= 1,
                a == v * u,
                aa == a * a,
                u >= 0x1000_0000_0000,
        ;
        let (p, q) = (0x10_0000 * (16_129 * s), 0x10_0001 * w);
        let r = 0xF_FFFF * w;
        assert(p * u == 0x10_0000 * (16_129 * su) && q * u == 0x10_0001 * aa && r * u == 0xF_FFFF
            * aa) by (nonlinear_arith)
            requires
                p == 0x10_0000 * (16_129 * s),
                q == 0x10_0001 * w,
                r == 0xF_FFFF * w,
                su == s * u,
                aa == w * u,
        ;
        assert(p * u <= q * u && r * u <= p * u);
        assert(p <= q && r <= p) by (nonlinear_arith)
            requires
                p * u <= q * u,
                r * u <= p * u,
                u > 0,
        ;
    }
}

/// On the soft curve the square of the intensity is the velocity over 127, to a
/// part in two to the power of 20.
pub proof fn law_soft_curve_is_a_square_root(velocity: u8)
    ensures
        ({
            let s = struck(VelocityCurve::Soft, velocity);
            &&& 0x10_0000 * (127 * (s * s)) <= 0x10_0001 * (velocity * (one() * one()))
            &&& 0xF_FFFF * (velocity * (one() * one())) <= 0x10_0000 * (127 * (s * s))
        }),
{
    let (v, u) = (velocity as int, one() as int);
    let x = normalized(velocity) as int;
    let s = struck(VelocityCurve::Soft, velocity) as int;
    law_linear_curve_is_proportional(velocity);
    lemma2_to64_rest();
    lemma_pow2_strictly_increases(60, 149);
    let n = (x * u) as nat;
    lemma_root_near(n);
    lemma_floor_root_exists(n);
    let f = floor_root(n) as int;
    assert(f * f <= n < (f + 1) * (f + 1));
    let (uu, m) = (u * u, 0x80_0000int);
    if velocity == 0 {
        law_curves_span_all_intensities(VelocityCurve::Soft);
        assert(v * uu == 0) by (nonlinear_arith)
            requires
                v == 0,
        ;
        assert(s * s == 0) by (nonlinear_arith)
            requires
                s == 0,
        ;
    } else {
        assert(v * u >= u) by (nonlinear_arith)
            requires
                v >= 1,
                u > 0,
        ;
        assert(128 * x >= u);
        assert(128 * n >= uu) by (nonlinear_arith)
            requires
                128 * x >= u,
                n == x * u,
                uu == u * u,
                u > 0,
        ;
        assert(f >= 0x100_0000_0000) by (nonlinear_arith)
            requires
                128 * n >= uu,
                uu == u * u,
                u >= 0x1000_0000_0000_0000,
                n < (f + 1) * (f + 1),
                f >= 0,
        {
            if f < 0x100_0000_0000 {
                assert((f + 1) * (f + 1) <= 0x100_0000_0000 * 0x100_0000_0000);
                assert(u * u >= 0x1000_0000_0000_0000 * 0x1000_0000_0000_0000);
            }
        }
        let (ff, ss) = (f * f, s * s);
        assert(0x40_0000 * ss <= 0x40_0002 * ff && 0x3F_FFFE * ff <= 0x40_0000 * ss)
            by (nonlinear_arith)
            requires
                m * s <= m * f + f + m,
                m * f <= m * s + f + m,
                m == 0x80_0000,
                f >= 0x100_0000_0000,
                s >= 0,
                ff == f * f,
                ss == s * s,
        {
            // A unit is less than a part in two to the power of 16 of a step.
            let (k, lo, hi) = (0x80_0000int * 0x1_0000, 0x7F_FFFFint * 0x1_0000 - 1, 0x80_0001int
                * 0x1_0000 + 1);
            assert(k * s <= hi * f && lo * f <= k * s);
            assert((k * s) * (k * s) <= (hi * f) * (hi * f));
            assert((lo * f) * (lo * f) <= (k * s) * (k * s));
            assert((k * s) * (k * s) == (k * k) * ss);
            assert((hi * f) * (hi * f) == (hi * hi) * ff);
            assert((lo * f) * (lo * f) == (lo * lo) * ff);
            assert(ff >= 0);
        }
        assert(0x1000_0000 * n <= 0x1000_0001 * ff) by (nonlinear_arith)
            requires
                n < (f + 1) * (f + 1),
                f >= 0x100_0000_0000,
                ff == f * f,
        {
            assert((f + 1) * (f + 1) == ff + 2 * f + 1);
            assert(ff >= 0x100_0000_0000 * f);
        }
        assert(m * (127 * n) <= (m + 1) * (v * uu) && (m - 1) * (v * uu) <= m * (127 * n))
            by (nonlinear_arith)
            requires
                m * (127 * x) <= (m + 1) * (v * u),
                (m - 1) * (v * u) <= m * (127 * x),
                n == x * u,
                uu == u * u,
                u > 0,
        {
            assert((m * (127 * x)) * u <= ((m + 1) * (v * u)) * u);
            assert(((m - 1) * (v * u)) * u <= (m * (127 * x)) * u);
            assert((m * (127 * x)) * u == m * (127 * (x * u)));
            assert(((m + 1) * (v * u)) * u == (m + 1) * (v * (u * u)));
            assert(((m - 1) * (v * u)) * u == (m - 1) * (v * (u * u)));
        }
        let w = v * uu;
        assert(w >= 0) by (nonlinear_arith)
            requires
                w == v * uu,
                uu == u * u,
                v >= 0,
        ;
    }
}

/// Strictly between no and the highest velocity the curves differ: the hard one
/// is dimmer than the linear one, and that than the soft one.
pub proof fn law_curves_differ(velocity: u8)
    requires
        0 < velocity < 127,
    ensures
        struck(VelocityCurve::Hard, velocity) < struck(VelocityCurve::Linear, velocity),
        struck(VelocityCurve::Linear, velocity) < struck(VelocityCurve::Soft, velocity),
{
    law_linear_curve_is_proportional(velocity);
    law_hard_curve_is_quadratic(velocity);
    law_soft_curve_is_a_square_root(velocity);
    lemma_pow2_pos(149);
    let (v, u) = (velocity as int, one() as int);
    let (h, l, s) = (
        struck(VelocityCurve::Hard, velocity) as int,
        struck(VelocityCurve::Linear, velocity) as int,
        struck(VelocityCurve::Soft, velocity) as int,
    );
    let a = v * u;
    assert(a > 0) by (nonlinear_arith)
        requires
            a == v * u,
            v > 0,
            u > 0,
    ;
    assert(v * v * u <= 126 * a) by (nonlinear_arith)
        requires
            a == v * u,
            a > 0,
            0 < v <= 126,
    ;
    assert(h < l);
    let (aa, w, ll, ss) = (a * a, v * (u * u), l * l, s * s);
    assert(aa <= 126 * w && w > 0) by (nonlinear_arith)
        requires
            a == v * u,
            aa == a * a,
            w == v * (u * u),
            0 < v <= 126,
            u > 0,
    {
        assert(aa == v * w);
        assert(u * u > 0);
    }
    assert(0x80_0000 * (16_129 * ll) <= 0x80_0003 * aa) by (nonlinear_arith)
        requires
            0x80_0000 * (127 * l) <= 0x80_0001 * a,
            l >= 0,
            a >= 0,
            ll == l * l,
            aa == a * a,
    {
        let (p, q) = (0x80_0000 * (127 * l), 0x80_0001 * a);
        assert(p * p <= q * q);
        assert(p * p == (0x80_0000 * 0x80_0000 * 16_129) * ll);
        assert(q * q == (0x80_0001 * 0x80_0001) * aa);
        assert(aa >= 0);
    }
    assert(ll < ss);
    assert(l < s) by (nonlinear_arith)
        requires
            ll < ss,
            ll == l * l,
            ss == s * s,
            l >= 0,
            s >= 0,
    ;
}

/// A decay lasts as long as it is configured to: the part of full intensity that
/// a second takes, times the seconds, is full intensity, to a part in two to the
/// power of 24 and a unit. A decay of less than 0.001 seconds, a negative one and
/// a NaN count as one of 0.001 seconds, and an endless one takes nothing.
pub proof fn law_rate_is_the_reciprocal(decay_seconds: u32)
    ensures
        0x3A83_126F <= decay_seconds < 0x7F80_0000 ==> {
            let d = units(decay_seconds);
            &&& 0x100_0000 * (decay_rate(decay_seconds) * d) <= 0x100_0001 * (one() * one())
                + 0x100_0000 * d
            &&& 0xFF_FFFF * (one() * one()) <= 0x100_0000 * (decay_rate(decay_seconds) * d)
                + 0x100_0000 * d
        },
        decay_seconds < 0x3A83_126F || decay_seconds > 0x7F80_0000 ==> decay_rate(decay_seconds)
            == decay_rate(0x3A83_126F),
        decay_seconds == 0x7F80_0000 ==> decay_rate(decay_seconds) == 0,
{
    if SHORTEST_DECAY <= decay_seconds < INFINITY {
        lemma_rate_bound(decay_seconds);
        lemma_ratio_near(one() * one(), units(decay_seconds));
    }
}

/// What a linear tick takes off, in terms of the time and the whole decay.
proof fn lemma_reduction_near(decay_seconds: u32, time: nat)
    requires
        SHORTEST_DECAY <= decay_seconds < INFINITY,
    ensures
        ({
            let d = units(decay_seconds);
            let r = rounded_ratio(decay_rate(decay_seconds) * time, one());
            &&& 0x100_0000 * (r * d) <= 0x100_0000 * (one() * time) + 11 * (one() * time)
                + 0x100_0000 * d
            &&& 0x100_0000 * (one() * time) <= 0x100_0000 * (r * d) + 11 * (one() * time)
                + 0x100_0000 * d
        }),
{
    law_rate_is_the_reciprocal(decay_seconds);
    lemma_units_rounded(decay_seconds);
    lemma_pow2_pos(149);
    lemma2_to64();
    let (u, d, t) = (one() as int, units(decay_seconds) as int, time as int);
    let rate = decay_rate(decay_seconds) as int;
    let r = rounded_ratio((rate * t) as nat, u as nat) as int;
    assert(rate * t >= 0) by (nonlinear_arith)
        requires
            rate >= 0,
            t >= 0,
    ;
    lemma_ratio_near((rate * t) as nat, u as nat);
    let m = 0x100_0000int;
    let uu = u * u;
    // The longest decay is less than two to the power of 277 units.
    lemma_pow2_adds(149, 149);
    lemma_pow2_adds(277, 21);
    assert(m * d <= 8 * uu);
    let (y, z) = ((rate * d) * t, uu * t);
    assert(m * y <= (m + 9) * z && (m - 9) * z <= m * y) by (nonlinear_arith)
        requires
            m * (rate * d) <= (m + 1) * uu + m * d,
            (m - 1) * uu <= m * (rate * d) + m * d,
            m * d <= 8 * uu,
            y == (rate * d) * t,
            z == uu * t,
            t >= 0,
    {
        let k = rate * d;
        assert(m * k <= (m + 9) * uu && (m - 9) * uu <= m * k);
        assert((m * k) * t <= ((m + 9) * uu) * t);
        assert(((m - 9) * uu) * t <= (m * k) * t);
        assert((m * k) * t == m * y);
        assert(((m + 9) * uu) * t == (m + 9) * z);
        assert(((m - 9) * uu) * t == (m - 9) * z);
    }
    let x = (r * d) * u;
    assert(m * x <= m * y + y + m * (u * d) && m * y <= m * x + y + m * (u * d))
        by (nonlinear_arith)
        requires
            m * (r * u) <= m * (rate * t) + rate * t + m * u,
            m * (rate * t) <= m * (r * u) + rate * t + m * u,
            x == (r * d) * u,
            y == (rate * d) * t,
            d >= 0,
    {
        let (p, q) = (r * u, rate * t);
        assert((m * p) * d <= (m * q + q + m * u) * d);
        assert((m * q) * d <= (m * p + q + m * u) * d);
        assert(p * d == x && q * d == y);
        assert((m * p) * d == m * (p * d));
        assert((m * q) * d == m * (q * d));
        assert((m * q + q + m * u) * d == m * (q * d) + q * d + m * (u * d));
        assert((m * p + q + m * u) * d == m * (p * d) + q * d + m * (u * d));
    }
    let (rd, ut) = (r * d, u * t);
    assert(z == ut * u) by (nonlinear_arith)
        requires
            z == uu * t,
            uu == u * u,
            ut == u * t,
    ;
    assert(z >= 0) by (nonlinear_arith)
        requires
            z == uu * t,
            uu == u * u,
            t >= 0,
    ;
    assert(m * x <= m * z + 11 * z + m * (u * d) && m * z <= m * x + 11 * z + m * (u * d));
    assert(m * rd <= m * ut + 11 * ut + m * d && m * ut <= m * rd + 11 * ut + m * d)
        by (nonlinear_arith)
        requires
            m * x <= m * z + 11 * z + m * (u * d),
            m * z <= m * x + 11 * z + m * (u * d),
            x == rd * u,
            z == ut * u,
            u > 0,
    {
        let (a, b) = (m * rd, m * ut + 11 * ut + m * d);
        let (e, f) = (m * ut, m * rd + 11 * ut + m * d);
        assert(a * u == m * x && b * u == m * z + 11 * z + m * (u * d));
        assert(e * u == m * z && f * u == m * x + 11 * z + m * (u * d));
        if a > b {
            assert(a * u > b * u);
        }
        if e > f {
            assert(e * u > f * u);
        }
    }
}

/// A linear decay is a straight line from full intensity to none in the
/// configured time: a tick takes off the part of full intensity that its time is
/// of that, down to none, to a part in 100000 of full intensity. So it does from up
/// to four times full intensity, more than any hit gives.
pub proof fn law_linear_decay_takes_its_time(
    envelope: DecayEnvelope,
    decay_seconds: u32,
    time: u32,
    power: u32,
)
    requires
        envelope.decay_profile == DecayProfile::Linear,
        envelope.level() <= 4 * units(FULL),
        0x3A83_126F <= decay_seconds < 0x7F80_0000,
        envelope.rate() == decay_rate(decay_seconds),
    ensures
        ({
            let d = units(decay_seconds);
            let left = envelope.level() * d - one() * units(time);
            let exact = if left < 0 {
                0
            } else {
                left
            };
            &&& 100_000 * (envelope.faded(time, power) * d - exact) <= one() * d
            &&& 100_000 * (exact - envelope.faded(time, power) * d) <= one() * d
        }),
{
    lemma_reduction_near(decay_seconds, units(time));
    lemma_full_units();
    lemma2_to64_rest();
    lemma_pow2_strictly_increases(60, 149);
    let (u, d, t) = (one() as int, units(decay_seconds) as int, units(time) as int);
    let (i, f) = (envelope.level() as int, envelope.faded(time, power) as int);
    let r = rounded_ratio(envelope.rate() * units(time), one()) as int;
    let m = 0x100_0000int;
    let (a, rd, z, w, fd) = (i * d, r * d, u * t, u * d, f * d);
    assert(d >= 0);
    assert(a <= 4 * w && w >= 0x1000_0000_0000_0000 * d) by (nonlinear_arith)
        requires
            a == i * d,
            w == u * d,
            i <= 4 * u,
            u >= 0x1000_0000_0000_0000,
            d >= 0,
    ;
    assert(z >= 0) by (nonlinear_arith)
        requires
            z == u * t,
            u >= 0,
            t >= 0,
    ;
    if i <= r {
        assert(a <= rd) by (nonlinear_arith)
            requires
                a == i * d,
                rd == r * d,
                i <= r,
                d >= 0,
        ;
        assert(0 * d == 0) by (nonlinear_arith);
    } else {
        assert(rd <= a) by (nonlinear_arith)
            requires
                a == i * d,
                rd == r * d,
                r <= i,
                d >= 0,
        ;
        let n = (i - r) as nat;
        lemma_ratio_whole(n);
        lemma_ratio_near(n, 1);
        assert(f == rounded(n));
        assert(f * 1 == f);
        assert(m * fd <= m * (a - rd) + (a - rd) + m * d && m * (a - rd) <= m * fd + (a - rd) + m
            * d) by (nonlinear_arith)
            requires
                m * f <= m * n + n + m,
                m * n <= m * f + n + m,
                n == i - r,
                fd == f * d,
                a == i * d,
                rd == r * d,
                d >= 0,
        {
            let k = a - rd;
            assert(n * d == k);
            assert((m * f) * d <= (m * n + n + m) * d);
            assert((m * n) * d <= (m * f + n + m) * d);
            assert((m * f) * d == m * fd);
            assert((m * n) * d == m * k);
            assert((m * n + n + m) * d == m * k + k + m * d);
            assert((m * f + n + m) * d == m * fd + k + m * d);
        }
    }
    // A time of more than eight times the decay takes off more than there is.
    if z > 8 * w {
        assert(rd > 4 * w);
    }
}

/// The exponent of an exponential decay is five times the time over the whole
/// decay, to 66 parts in two to the power of 24 and what a unit makes out.
pub proof fn law_exponent_is_five_decays(decay_seconds: u32, time: nat)
    requires
        0x3A83_126F <= decay_seconds < 0x7F80_0000,
    ensures
        ({
            let d = units(decay_seconds);
            let exponent = exponent_units(decay_rate(decay_seconds), time);
            &&& 0x100_0000 * (exponent * d) <= 0x100_0000 * (5 * (one() * time)) + 66 * (one()
                * time) + 0x100_0000 * d
            &&& 0x100_0000 * (5 * (one() * time)) <= 0x100_0000 * (exponent * d) + 66 * (one()
                * time) + 0x100_0000 * d
        }),
{
    law_rate_is_the_reciprocal(decay_seconds);
    lemma_units_rounded(decay_seconds);
    lemma_pow2_pos(149);
    lemma2_to64();
    let (u, d, t) = (one() as int, units(decay_seconds) as int, time as int);
    let rate = decay_rate(decay_seconds) as int;
    let m = 0x100_0000int;
    let uu = u * u;
    lemma_pow2_adds(149, 149);
    lemma_pow2_adds(277, 21);
    assert(m * d <= 8 * uu);
    lemma_pow2_adds(20, 129);
    lemma_pow2_adds(2, 149);
    lemma_pow2_adds(23, 128);
    assert(TIME_CONSTANTS / 0x80_0000 == 129 && TIME_CONSTANTS % 0x80_0000 == 0x20_0000);
    assert(units(TIME_CONSTANTS) == 0xA0_0000 * pow2(128));
    lemma_pow2_adds(21, 128);
    assert(units(TIME_CONSTANTS) == 5 * u);
    let n = (units(TIME_CONSTANTS) * rate) as nat;
    assert(n == (5 * rate) * u) by (nonlinear_arith)
        requires
            n == (5 * u) * rate,
    ;
    lemma_ratio_near(n, u as nat);
    let q = rounded_ratio(n, u as nat) as int;
    assert(m * q <= m * (5 * rate) + 5 * rate + m && m * (5 * rate) <= m * q + 5 * rate + m)
        by (nonlinear_arith)
        requires
            m * (q * u) <= m * n + n + m * u,
            m * n <= m * (q * u) + n + m * u,
            n == (5 * rate) * u,
            u > 0,
    {
        let k = 5 * rate;
        let (a, b) = (m * q, m * k + k + m);
        let (e, f) = (m * k, m * q + k + m);
        assert(a * u == m * (q * u) && b * u == m * n + n + m * u);
        assert(e * u == m * n && f * u == m * (q * u) + n + m * u);
        if a > b {
            assert(a * u > b * u);
        }
        if e > f {
            assert(e * u > f * u);
        }
    }
    assert(q * t >= 0) by (nonlinear_arith)
        requires
            q >= 0,
            t >= 0,
    ;
    lemma_ratio_near((q * t) as nat, u as nat);
    let e = rounded_ratio((q * t) as nat, u as nat) as int;
    // Everything brought to units times units times the time.
    let (qd, kd) = (q * d, rate * d);
    assert(m * qd <= m * (5 * kd) + 5 * kd + m * d && m * (5 * kd) <= m * qd + 5 * kd + m * d)
        by (nonlinear_arith)
        requires
            m * q <= m * (5 * rate) + 5 * rate + m,
            m * (5 * rate) <= m * q + 5 * rate + m,
            qd == q * d,
            kd == rate * d,
            d >= 0,
    {
        assert((m * q) * d <= (m * (5 * rate) + 5 * rate + m) * d);
        assert((m * (5 * rate)) * d <= (m * q + 5 * rate + m) * d);
        assert((m * q) * d == m * qd);
        assert((m * (5 * rate)) * d == m * (5 * kd));
        assert((m * (5 * rate) + 5 * rate + m) * d == m * (5 * kd) + 5 * kd + m * d);
        assert((m * q + 5 * rate + m) * d == m * qd + 5 * kd + m * d);
    }
    assert(m * qd <= (5 * m + 59) * uu && (5 * m - 59) * uu <= m * qd) by (nonlinear_arith)
        requires
            m * qd <= m * (5 * kd) + 5 * kd + m * d,
            m * (5 * kd) <= m * qd + 5 * kd + m * d,
            m * kd <= (m + 1) * uu + m * d,
            (m - 1) * uu <= m * kd + m * d,
            m * d <= 8 * uu,
            uu >= 0,
            m == 0x100_0000,
    ;
    let (y, z) = (qd * t, uu * t);
    assert(m * y <= (5 * m + 59) * z && (5 * m - 59) * z <= m * y && z >= 0) by (nonlinear_arith)
        requires
            m * qd <= (5 * m + 59) * uu,
            (5 * m - 59) * uu <= m * qd,
            y == qd * t,
            z == uu * t,
            uu == u * u,
            t >= 0,
    {
        assert((m * qd) * t <= ((5 * m + 59) * uu) * t);
        assert(((5 * m - 59) * uu) * t <= (m * qd) * t);
        assert((m * qd) * t == m * y);
        assert(((5 * m + 59) * uu) * t == (5 * m + 59) * z);
        assert(((5 * m - 59) * uu) * t == (5 * m - 59) * z);
    }
    let x = (e * d) * u;
    assert(m * x <= m * y + y + m * (u * d) && m * y <= m * x + y + m * (u * d))
        by (nonlinear_arith)
        requires
            m * (e * u) <= m * (q * t) + q * t + m * u,
            m * (q * t) <= m * (e * u) + q * t + m * u,
            x == (e * d) * u,
            y == (q * d) * t,
            d >= 0,
    {
        let (a, b) = (e * u, q * t);
        assert((m * a) * d <= (m * b + b + m * u) * d);
        assert((m * b) * d <= (m * a + b + m * u) * d);
        assert(a * d == x && b * d == y);
        assert((m * a) * d == m * (a * d));
        assert((m * b) * d == m * (b * d));
        assert((m * b + b + m * u) * d == m * (b * d) + b * d + m * (u * d));
        assert((m * a + b + m * u) * d == m * (a * d) + b * d + m * (u * d));
    }
    assert(m * x <= m * (5 * z) + 66 * z + m * (u * d) && m * (5 * z) <= m * x + 66 * z + m * (u
        * d)) by (nonlinear_arith)
        requires
            m * x <= m * y + y + m * (u * d),
            m * y <= m * x + y + m * (u * d),
            m * y <= (5 * m + 59) * z,
            (5 * m - 59) * z <= m * y,
            z >= 0,
            m == 0x100_0000,
    ;
    let (ed, ut) = (e * d, u * t);
    assert(z == ut * u) by (nonlinear_arith)
        requires
            z == uu * t,
            uu == u * u,
            ut == u * t,
    ;
    assert(m * ed <= m * (5 * ut) + 66 * ut + m * d && m * (5 * ut) <= m * ed + 66 * ut + m * d)
        by (nonlinear_arith)
        requires
            m * x <= m * (5 * z) + 66 * z + m * (u * d),
            m * (5 * z) <= m * x + 66 * z + m * (u * d),
            x == ed * u,
            z == ut * u,
            u > 0,
    {
        let (a, b) = (m * ed, m * (5 * ut) + 66 * ut + m * d);
        let (c, f) = (m * (5 * ut), m * ed + 66 * ut + m * d);
        assert(a * u == m * x && b * u == m * (5 * z) + 66 * z + m * (u * d));
        assert(c * u == m * (5 * z) && f * u == m * x + 66 * z + m * (u * d));
        if a > b {
            assert(a * u > b * u);
        }
        if c > f {
            assert(c * u > f * u);
        }
    }
}

/// An exponential tick scales the intensity by its power, to a part in two to the
/// power of 24 and a unit, and puts out what is below a hundredth of full
/// intensity: what it leaves is never between none and 0.0099999, and it leaves
/// none only where less than 0.010001 would be left.
pub proof fn law_exponential_tick_scales(envelope: DecayEnvelope, time: u32, power: u32)
    requires
        envelope.decay_profile == DecayProfile::Exponential,
    ensures
        ({
            let left = envelope.faded(time, power);
            let exact = envelope.level() * units(power);
            &&& left > 0 ==> {
                &&& 0x100_0000 * (left * one()) <= 0x100_0001 * exact + 0x100_0000 * one()
                &&& 0xFF_FFFF * exact <= 0x100_0000 * (left * one()) + 0x100_0000 * one()
                &&& 10_000_000 * left >= 99_999 * one()
            }
            &&& left == 0 ==> 1_000_000 * exact <= 10_001 * (one() * one())
        }),
{
    let (u, p) = (one(), envelope.level() * units(power));
    lemma2_to64_rest();
    lemma_pow2_strictly_increases(60, 149);
    lemma_ratio_near(p, u);
    lemma_pow2_adds(30, 119);
    lemma_pow2_pos(119);
    assert(SNAP / 0x80_0000 == 120 && SNAP % 0x80_0000 == 0x23_D70A);
    let snap = units(SNAP);
    lemma2_to64();
    assert(snap == 0xA3_D70A * pow2(119));
    assert(u == 0x4000_0000 * pow2(119));
    assert(10_000_000 * snap >= 99_999 * u && 1_000_000_000 * snap <= 10_000_001 * u);
    let left = rounded_ratio(p, u);
    if left < snap {
        assert(1_000_000_000 * (left * u) <= 10_000_001 * (u * u) && u * u
            >= 0x1000_0000_0000_0000 * u) by (nonlinear_arith)
            requires
                1_000_000_000 * left <= 10_000_001 * u,
                u >= 0x1000_0000_0000_0000,
        ;
        assert(0xFF_FFFF * p <= 0x100_0000 * (left * u) + 0x100_0000 * u);
        assert(1_000_000 * p <= 10_001 * (u * u));
    }
}

} // verus!
