use pulseplex::binary32::seconds_of;
use pulseplex::envelope::{DecayEnvelope, DecayProfile, VelocityCurve};

/// The power that an exponential tick needs.
fn power(envelope: &DecayEnvelope, dt: f32) -> u32 {
    (-f32::from_bits(envelope.decay_exponent(dt.to_bits())))
        .exp()
        .to_bits()
}

fn tick(envelope: &mut DecayEnvelope, dt: f32) {
    let power = power(envelope, dt);
    envelope.tick(dt.to_bits(), power);
}

fn intensity(envelope: &DecayEnvelope) -> f32 {
    f32::from_bits(envelope.intensity)
}

fn envelope(seconds: f32, curve: VelocityCurve, profile: DecayProfile) -> DecayEnvelope {
    DecayEnvelope::new(seconds.to_bits(), curve, profile)
}

#[test]
fn test_time_aware_decay() {
    let mut envelope = envelope(1.0, VelocityCurve::Soft, DecayProfile::Linear);
    envelope.trigger(127);

    // After 1/2 second, intensity should be roughly half
    let dt = std::time::Duration::from_millis(500);
    tick(&mut envelope, dt.as_secs_f32());
    assert!((intensity(&envelope) - 0.5).abs() < 0.01);
    assert_eq!(envelope.dmx_value(), 127);
}

#[test]
fn test_velocity_curves() {
    let mut env_hard = envelope(1.0, VelocityCurve::Hard, DecayProfile::Linear);
    let mut env_soft = envelope(1.0, VelocityCurve::Soft, DecayProfile::Linear);

    // MIDI velocity 64 is roughly 0.5 normalized
    env_hard.trigger(64);
    env_soft.trigger(64);

    // Hard curve: 0.5^2 = 0.25
    assert!((intensity(&env_hard) - 0.25).abs() < 0.01);

    // Soft curve: sqrt(0.5) is about 0.707
    assert!((intensity(&env_soft) - 0.707).abs() < 0.01);
}

#[test]
fn test_decay_profiles() {
    let mut env_lin = envelope(1.0, VelocityCurve::Linear, DecayProfile::Linear);
    let mut env_exp = envelope(1.0, VelocityCurve::Linear, DecayProfile::Exponential);

    env_lin.trigger(127); // Intensity 1.0
    env_exp.trigger(127); // Intensity 1.0

    // Tick forward 0.5 seconds
    let dt = std::time::Duration::from_millis(500);
    tick(&mut env_lin, dt.as_secs_f32());
    tick(&mut env_exp, dt.as_secs_f32());

    // Linear: should be exactly 0.5
    assert_eq!(intensity(&env_lin), 0.5);

    // Exponential: should be e^(-5 * 0.5) = e^-2.5, about 0.082
    assert!((intensity(&env_exp) - 0.082).abs() < 0.01);
}

#[test]
fn every_velocity_gives_the_intensity_of_its_curve() {
    for velocity in 0..=255u8 {
        let normalized = velocity as f32 / 127.0;
        for (curve, expected) in [
            (VelocityCurve::Linear, normalized),
            (VelocityCurve::Hard, normalized * normalized),
            (VelocityCurve::Soft, normalized.sqrt()),
        ] {
            let mut envelope = envelope(1.0, curve, DecayProfile::Linear);
            envelope.trigger(velocity);
            assert_eq!(envelope.intensity, expected.to_bits(), "{curve:?} {velocity}");
            assert_eq!(envelope.dmx_value(), (expected * 255.0) as u8);
            assert_eq!(envelope.is_dead(), velocity == 0);
        }
    }
}

#[test]
fn decay_times_become_rates() {
    for seconds in [
        0.001f32, 0.0015, 0.01, 0.3, 0.5, 0.9, 1.0, 1.5, 3.0, 7.25, 60.0, 1e9, 3e38,
    ] {
        let made = envelope(seconds, VelocityCurve::Linear, DecayProfile::Linear);
        assert_eq!(made.decay_per_second, (1.0 / seconds).to_bits(), "{seconds}");
    }
}

#[test]
fn decay_times_below_a_millisecond_count_as_one() {
    for seconds in [0.0f32, -0.0, -1.0, 0.0009, f32::NEG_INFINITY, f32::NAN] {
        let made = envelope(seconds, VelocityCurve::Linear, DecayProfile::Linear);
        assert_eq!(made.decay_per_second, (1.0 / 0.001f32).to_bits(), "{seconds}");
    }
}

#[test]
fn endless_decay_has_no_rate() {
    let mut made = envelope(f32::INFINITY, VelocityCurve::Linear, DecayProfile::Linear);
    assert_eq!(made.decay_per_second, 0);
    made.trigger(127);
    tick(&mut made, 3600.0);
    assert_eq!(intensity(&made), 1.0);
}

#[test]
fn ticks_follow_single_precision_arithmetic() {
    for seconds in [0.05f32, 0.3, 1.0, 2.7] {
        for velocity in [1u8, 20, 64, 100, 127] {
            for dt in [0.0f32, 0.001, 0.0249, 0.025, 0.1, 1.0] {
                let mut linear = envelope(seconds, VelocityCurve::Linear, DecayProfile::Linear);
                let mut expected = velocity as f32 / 127.0;
                linear.trigger(velocity);
                let mut falling = envelope(seconds, VelocityCurve::Soft, DecayProfile::Exponential);
                let mut left = (velocity as f32 / 127.0).sqrt();
                falling.trigger(velocity);
                let rate = 1.0 / seconds;
                for _ in 0..50 {
                    tick(&mut linear, dt);
                    expected = (expected - rate * dt).max(0.0);
                    assert_eq!(linear.intensity, expected.to_bits());
                    assert_eq!(linear.is_dead(), expected <= 0.0);
                    tick(&mut falling, dt);
                    left *= (-(5.0 * rate) * dt).exp();
                    if left < 0.01 {
                        left = 0.0;
                    }
                    assert_eq!(falling.intensity, left.to_bits());
                }
            }
        }
    }
}

#[test]
fn exponential_decay_ends_below_one_percent() {
    let mut made = envelope(1.0, VelocityCurve::Linear, DecayProfile::Exponential);
    made.trigger(127);
    tick(&mut made, 0.92);
    assert!(!made.is_dead());
    tick(&mut made, 0.01);
    assert!(made.is_dead());
    assert_eq!(made.intensity, 0);
}

#[test]
fn dead_envelopes_stay_dead() {
    for profile in [DecayProfile::Linear, DecayProfile::Exponential] {
        let mut made = envelope(1.0, VelocityCurve::Linear, profile);
        tick(&mut made, 0.025);
        assert!(made.is_dead());
        assert_eq!(made.dmx_value(), 0);
    }
}

#[test]
fn harder_hits_are_no_dimmer_and_curves_are_ordered() {
    for curve in [VelocityCurve::Linear, VelocityCurve::Hard, VelocityCurve::Soft] {
        let mut before = 0;
        for velocity in 0..=127u8 {
            let mut made = envelope(1.0, curve, DecayProfile::Linear);
            made.trigger(velocity);
            assert!(velocity == 0 || made.intensity > before);
            before = made.intensity;
        }
        assert_eq!(before, 1.0f32.to_bits());
    }
    for velocity in 0..=127u8 {
        let struck = |curve: VelocityCurve| {
            let mut made = envelope(1.0, curve, DecayProfile::Linear);
            made.trigger(velocity);
            made.intensity
        };
        assert!(struck(VelocityCurve::Hard) <= struck(VelocityCurve::Linear));
        assert!(struck(VelocityCurve::Linear) <= struck(VelocityCurve::Soft));
    }
}

#[test]
fn defaults_are_linear() {
    assert_eq!(VelocityCurve::default(), VelocityCurve::Linear);
    assert_eq!(DecayProfile::default(), DecayProfile::Linear);
}

#[test]
fn more_time_never_leaves_more() {
    let mut before = f32::INFINITY;
    for step in 0..200 {
        let mut made = envelope(0.7, VelocityCurve::Hard, DecayProfile::Linear);
        made.trigger(111);
        let struck = intensity(&made);
        tick(&mut made, step as f32 * 0.005);
        assert!(intensity(&made) <= before);
        if step == 0 {
            assert_eq!(intensity(&made), struck);
        }
        before = intensity(&made);
    }
    assert_eq!(before, 0.0);
}

#[test]
fn decay_depends_on_elapsed_time_only() {
    let millis = std::time::Duration::from_millis;
    for profile in [DecayProfile::Linear, DecayProfile::Exponential] {
        for seconds in [0.05f32, 0.4, 1.0, 3.0] {
            for (a, b) in [(1, 2), (7, 25), (25, 25), (33, 100), (500, 1), (0, 40)] {
                let (first, second) = (millis(a), millis(b));
                let mut cut = envelope(seconds, VelocityCurve::Soft, profile);
                cut.trigger(119);
                let mut whole = cut;
                tick(&mut cut, first.as_secs_f32());
                tick(&mut cut, second.as_secs_f32());
                tick(&mut whole, (first + second).as_secs_f32());
                if profile == DecayProfile::Linear || intensity(&whole) > 0.011 {
                    assert!((intensity(&cut) - intensity(&whole)).abs() < 1e-5);
                }
            }
        }
    }
}

#[test]
fn exponents_add_up_with_the_time() {
    let fading = envelope(0.4, VelocityCurve::Linear, DecayProfile::Exponential);
    for (a, b) in [(1u64, 1u64), (25_000_000, 25_000_001), (3, 999_999_999), (7_654_321, 1 << 40)] {
        let exponent = |nanos| f32::from_bits(fading.decay_exponent(seconds_of(nanos)));
        let (parts, whole) = (exponent(a) + exponent(b), exponent(a + b));
        assert!((parts - whole).abs() <= whole * 21.0 / 16_777_216.0);
    }
}

#[test]
fn powers_are_close_to_the_exponential_function() {
    for step in 0..60_000u32 {
        let exponent = step as f32 / 10_000.0;
        let (power, exact) = (f64::from((-exponent).exp()), (-f64::from(exponent)).exp());
        assert!(4_194_304.0 * (power - exact).abs() <= exact, "{exponent}");
    }
}

#[test]
fn any_envelope_can_be_triggered() {
    let mut odd = DecayEnvelope {
        intensity: f32::NAN.to_bits(),
        decay_per_second: f32::INFINITY.to_bits(),
        velocity_curve: VelocityCurve::Linear,
        decay_profile: DecayProfile::Linear,
    };
    odd.trigger(127);
    assert_eq!(intensity(&odd), 1.0);
}
