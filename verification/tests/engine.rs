use std::collections::HashMap;

use pulseplex::engine::PulsePlexEngine;
use pulseplex::envelope::{BehaviorConfig, DecayProfile, VelocityCurve};
use pulseplex::fixture::{
    CapabilityType, FixtureError, FixtureInstance, OflCapability, OflChannel, OflFixture, OflMode,
};
use pulseplex::sink::MockSink;
use pulseplex::source::{MockSource, SourceEvent};

fn behavior(decay_seconds: f32, decay_profile: DecayProfile) -> BehaviorConfig {
    BehaviorConfig {
        decay_seconds: decay_seconds.to_bits(),
        velocity_curve: VelocityCurve::Linear,
        decay_profile,
    }
}

fn channel(cap_type: &str, color: Option<&str>) -> OflChannel {
    OflChannel {
        capabilities: vec![OflCapability {
            cap_type: cap_type.to_string(),
            dmx_range: [0, 255],
            color: color.map(str::to_string),
        }],
    }
}

fn profile() -> OflFixture {
    OflFixture {
        name: "TestFixture".to_string(),
        available_channels: vec![(
            "Red".to_string(),
            channel("ColorIntensity", Some("Red")),
        )],
        modes: vec![OflMode {
            name: "3-channel".to_string(),
            channels: vec!["Red".to_string()],
        }],
    }
}

fn advance(engine: &mut PulsePlexEngine, dt: f32) {
    let exponents = engine.decay_exponents(dt.to_bits());
    let powers: HashMap<u16, u32> = exponents
        .into_iter()
        .map(|(id, exponent)| (id, (-f32::from_bits(exponent)).exp().to_bits()))
        .collect();
    engine.tick(dt.to_bits(), &powers);
}

#[test]
fn test_htp_merging() {
    let mut behaviors = HashMap::new();
    behaviors.insert(1, behavior(1.0, DecayProfile::Linear));
    behaviors.insert(2, behavior(1.0, DecayProfile::Linear));

    // Setup a fixture: 1 channel, Red capability at offset 0, start address 1, universe 1.
    let fixture =
        FixtureInstance::from_ofl("f1".to_string(), &profile(), "3-channel", 1, 1).unwrap();

    let mut capability_mappings = HashMap::new();
    // behavior 1 -> fixture 0, Red
    capability_mappings.insert(1, vec![(0, CapabilityType::Red)]);
    // behavior 2 -> fixture 0, Red
    capability_mappings.insert(2, vec![(0, CapabilityType::Red)]);

    let mut engine = PulsePlexEngine::new(behaviors, vec![fixture], capability_mappings);
    let mut sink = MockSink::default();

    let mut source = MockSource::new(vec![
        SourceEvent::Trigger { id: 1, velocity: 64 },
        SourceEvent::Trigger { id: 2, velocity: 100 },
    ]);
    while let Some(event) = source.next_event() {
        engine.handle_event(&event);
    }
    advance(&mut engine, 0.0);
    sink.write_universe(1, engine.universe());

    // The Red channel (index 0) should be the max of the two triggers.
    let val = sink.states[0][0];
    // 100 / 127 * 255 is about 200.7
    assert!(
        val > 190 && val < 210,
        "HTP merging failed: expected ~200, got {}",
        val
    );
    assert_eq!(val, 200);
    assert_eq!(engine.active_envelopes_count(), 2);
}

fn one_light() -> PulsePlexEngine {
    let fixture =
        FixtureInstance::from_ofl("f1".to_string(), &profile(), "3-channel", 1, 10).unwrap();
    PulsePlexEngine::new(
        HashMap::from([
            (1, behavior(1.0, DecayProfile::Linear)),
            (2, behavior(1.0, DecayProfile::Exponential)),
        ]),
        vec![fixture],
        HashMap::from([
            (1, vec![(0, CapabilityType::Red), (7, CapabilityType::Red)]),
            (2, vec![(0, CapabilityType::Red), (0, CapabilityType::Blue)]),
        ]),
    )
}

#[test]
fn envelopes_fade_and_are_dropped() {
    let mut engine = one_light();
    engine.handle_event(&SourceEvent::Trigger { id: 1, velocity: 127 });
    assert_eq!(*engine.universe(), [0u8; 512]);
    advance(&mut engine, 0.0);
    assert_eq!(engine.universe()[9], 255);
    advance(&mut engine, 0.5);
    assert_eq!(engine.universe()[9], 127);
    advance(&mut engine, 0.5);
    assert_eq!(*engine.universe(), [0u8; 512]);
    assert_eq!(engine.active_envelopes_count(), 0);
    assert!(engine.envelopes().is_empty());
}

#[test]
fn exponential_envelopes_fade_by_the_given_powers() {
    let mut engine = one_light();
    engine.handle_event(&SourceEvent::Trigger { id: 2, velocity: 127 });
    advance(&mut engine, 0.5);
    let left = (-2.5f32).exp();
    assert_eq!(engine.envelopes()[&2].intensity, left.to_bits());
    assert_eq!(engine.universe()[9], (left * 255.0) as u8);
}

#[test]
fn unknown_behaviors_are_ignored() {
    let mut engine = one_light();
    engine.handle_event(&SourceEvent::Trigger { id: 9, velocity: 127 });
    advance(&mut engine, 0.0);
    assert_eq!(engine.active_envelopes_count(), 0);
    assert_eq!(*engine.universe(), [0u8; 512]);
}

#[test]
fn frames_of_the_primary_universe_are_merged() {
    let mut engine = one_light();
    let mut data = Box::new([0u8; 512]);
    data[3] = 7;
    engine.handle_event(&SourceEvent::DmxFrame { universe: 1, data: data.clone() });
    assert_eq!(*engine.universe(), *data);
    let mut more = Box::new([0u8; 512]);
    more[3] = 5;
    more[4] = 9;
    engine.handle_event(&SourceEvent::DmxFrame { universe: 2, data: more.clone() });
    assert_eq!(*engine.universe(), *data);
    engine.handle_event(&SourceEvent::DmxFrame { universe: 1, data: more });
    assert_eq!(engine.universe()[3], 7);
    assert_eq!(engine.universe()[4], 9);
    // The order does not matter.
    let mut other = one_light();
    let mut first = Box::new([0u8; 512]);
    first[3] = 5;
    first[4] = 9;
    other.handle_event(&SourceEvent::DmxFrame { universe: 1, data: first });
    other.handle_event(&SourceEvent::DmxFrame { universe: 1, data });
    assert_eq!(other.universe(), engine.universe());
    // A tick sends them out, and the next one no more.
    let merged = *engine.universe();
    advance(&mut engine, 0.025);
    assert_eq!(*engine.universe(), merged);
    advance(&mut engine, 0.025);
    assert_eq!(*engine.universe(), [0u8; 512]);
}

#[test]
fn external_frames_reach_the_frame_of_the_tick() {
    let mut engine = PulsePlexEngine::new(HashMap::new(), vec![], HashMap::new());
    engine.handle_event(&SourceEvent::DmxFrame { universe: 1, data: Box::new([7u8; 512]) });
    advance(&mut engine, 0.025);
    assert_eq!(*engine.universe(), [7u8; 512]);
    // Behaviors and external frames are merged, the higher value taking precedence.
    let mut engine = one_light();
    engine.handle_event(&SourceEvent::Trigger { id: 1, velocity: 127 });
    engine.handle_event(&SourceEvent::DmxFrame { universe: 1, data: Box::new([90u8; 512]) });
    advance(&mut engine, 0.5);
    assert_eq!(engine.universe()[9], 127);
    assert_eq!(engine.universe()[8], 90);
    engine.handle_event(&SourceEvent::DmxFrame { universe: 1, data: Box::new([200u8; 512]) });
    advance(&mut engine, 0.1);
    assert_eq!(*engine.universe(), [200u8; 512]);
    engine.handle_event(&SourceEvent::DmxFrame { universe: 1, data: Box::new([3u8; 512]) });
    engine.handle_event(&SourceEvent::ClearAll);
    advance(&mut engine, 0.0);
    assert_eq!(*engine.universe(), [0u8; 512]);
}

#[test]
fn setups_can_be_changed_while_lit() {
    let mut engine = one_light();
    engine.handle_event(&SourceEvent::Trigger { id: 1, velocity: 127 });
    let moved =
        FixtureInstance::from_ofl("f1".to_string(), &profile(), "3-channel", 1, 20).unwrap();
    engine.reconfigure(
        HashMap::from([(5, behavior(1.0, DecayProfile::Linear))]),
        vec![moved],
        HashMap::from([(1, vec![(0, CapabilityType::Red)])]),
    );
    advance(&mut engine, 0.0);
    assert_eq!(engine.universe()[9], 0);
    assert_eq!(engine.universe()[19], 255);
    engine.handle_event(&SourceEvent::Trigger { id: 2, velocity: 127 });
    assert_eq!(engine.active_envelopes_count(), 1);
    engine.handle_event(&SourceEvent::Trigger { id: 5, velocity: 127 });
    assert_eq!(engine.active_envelopes_count(), 2);
}

#[test]
fn clearing_puts_everything_out() {
    let mut engine = one_light();
    engine.handle_event(&SourceEvent::Trigger { id: 1, velocity: 127 });
    engine.handle_event(&SourceEvent::Trigger { id: 2, velocity: 127 });
    advance(&mut engine, 0.0);
    engine.handle_event(&SourceEvent::ClearAll);
    assert_eq!(engine.active_envelopes_count(), 0);
    assert_eq!(*engine.universe(), [0u8; 512]);
    advance(&mut engine, 0.0);
    assert_eq!(*engine.universe(), [0u8; 512]);
}

#[test]
fn more_light_lowers_no_channel() {
    let mut dim = one_light();
    dim.handle_event(&SourceEvent::Trigger { id: 1, velocity: 50 });
    let mut bright = one_light();
    bright.handle_event(&SourceEvent::Trigger { id: 1, velocity: 50 });
    bright.handle_event(&SourceEvent::Trigger { id: 2, velocity: 20 });
    advance(&mut dim, 0.01);
    advance(&mut bright, 0.01);
    for i in 0..512 {
        assert!(dim.universe()[i] <= bright.universe()[i]);
    }
}

#[test]
fn fixtures_outside_the_universe_are_left_out() {
    let other = FixtureInstance::from_ofl("f1".to_string(), &profile(), "3-channel", 2, 1).unwrap();
    let far = FixtureInstance::from_ofl("f2".to_string(), &profile(), "3-channel", 1, 513).unwrap();
    let mut engine = PulsePlexEngine::new(
        HashMap::from([(1, behavior(1.0, DecayProfile::Linear))]),
        vec![other, far],
        HashMap::from([(1, vec![(0, CapabilityType::Red), (1, CapabilityType::Red)])]),
    );
    engine.handle_event(&SourceEvent::Trigger { id: 1, velocity: 127 });
    advance(&mut engine, 0.0);
    assert_eq!(engine.active_envelopes_count(), 1);
    assert_eq!(*engine.universe(), [0u8; 512]);
}

#[test]
fn profiles_give_offsets_by_capability() {
    let mut all = profile();
    all.available_channels = vec![
        ("Dimmer".to_string(), channel("Intensity", None)),
        ("R".to_string(), channel("ColorIntensity", Some("red"))),
        ("G".to_string(), channel("ColorIntensity", Some("Green"))),
        ("B".to_string(), channel("ColorIntensity", Some("Blue"))),
        ("W".to_string(), channel("ColorIntensity", Some("White"))),
        ("A".to_string(), channel("ColorIntensity", Some("Amber"))),
        ("P".to_string(), channel("Pan", None)),
        ("T".to_string(), channel("Tilt", None)),
        ("S".to_string(), channel("Strobe", None)),
    ];
    all.modes.push(OflMode {
        name: "all".to_string(),
        channels: ["Dimmer", "R", "G", "B", "W", "A", "P", "T", "S"]
            .map(str::to_string)
            .to_vec(),
    });
    let made = FixtureInstance::from_ofl("x".to_string(), &all, "all", 3, 100).unwrap();
    assert_eq!(made.get_dmx_address(CapabilityType::Intensity), Some((3, 99)));
    assert_eq!(made.get_dmx_address(CapabilityType::Red), None);
    assert_eq!(made.get_dmx_address(CapabilityType::Green), Some((3, 101)));
    assert_eq!(made.get_dmx_address(CapabilityType::Pan), Some((3, 105)));
    assert_eq!(made.get_dmx_address(CapabilityType::Strobe), Some((3, 107)));
}

#[test]
fn missing_modes_and_channels_are_errors() {
    let error = FixtureInstance::from_ofl("f".to_string(), &profile(), "none", 1, 1).unwrap_err();
    assert!(matches!(&error, FixtureError::ModeNotFound(name) if name == "none"));
    assert_eq!(error.message(), "Mode 'none' not found in fixture profile");
    let mut broken = profile();
    broken.modes[0].channels.push("Blue".to_string());
    let error =
        FixtureInstance::from_ofl("f".to_string(), &broken, "3-channel", 1, 1).unwrap_err();
    assert!(matches!(&error, FixtureError::ChannelNotFound(name) if name == "Blue"));
    assert_eq!(error.message(), "Channel 'Blue' not found in fixture profile");
}

#[test]
fn mock_source_sends_in_order() {
    let events = vec![
        SourceEvent::ClearAll,
        SourceEvent::Trigger { id: 4, velocity: 5 },
    ];
    let mut source = MockSource::new(events.clone());
    assert_eq!(source.next_event(), Some(events[0].clone()));
    assert_eq!(source.next_event(), Some(events[1].clone()));
    assert_eq!(source.next_event(), None);
}
