//! The engine: triggers become envelopes, envelopes fade, and what is left of
//! them is merged into one DMX universe, the highest value taking precedence.

use crate::binary32::{
    encodes, law_level8_is_proportional, lemma_units_ordered, lemma_zero_units, level8,
    not_positive, one, rounded_ratio, rounded_root, units, FULL, INFINITY,
};
use crate::envelope::{
    decay_rate, exponent_units, law_curves_differ, law_curves_span_all_intensities,
    law_exponent_is_five_decays, law_hard_curve_is_quadratic, law_linear_curve_is_proportional, law_rate_is_the_reciprocal,
    law_soft_curve_is_a_square_root, normalized, struck, BehaviorConfig, DecayEnvelope,
    DecayProfile, VelocityCurve,
};
use crate::fixture::{CapabilityType, FixtureInstance};
use crate::maps::{keys_of, lemma_take_contains};
use crate::source::SourceEvent;
use std::collections::HashMap;
use vstd::prelude::*;

verus! {

broadcast use vstd::std_specs::hash::group_hash_axioms;

/// The one universe that the engine merges.
pub const PRIMARY_UNIVERSE: u16 = 1;

/// An envelope as a trigger of the given velocity leaves it.
pub open spec fn is_struck(envelope: DecayEnvelope, config: BehaviorConfig, velocity: u8) -> bool {
    &&& envelope.wf()
    &&& envelope.level() == struck(config.velocity_curve, velocity)
    &&& envelope.rate() == decay_rate(config.decay_seconds)
    &&& envelope.velocity_curve == config.velocity_curve
    &&& envelope.decay_profile == config.decay_profile
}

/// The greater of two channel values.
pub open spec fn higher(a: u8, b: u8) -> u8 {
    if a < b {
        b
    } else {
        a
    }
}

/// Two frames merged channel by channel, the higher value taking precedence.
pub open spec fn merged_frames(a: Seq<u8>, b: Seq<u8>) -> Seq<u8> {
    Seq::new(a.len(), |i: int| higher(a[i], b[i]))
}

/// A frame in which every channel is off.
pub open spec fn blackout() -> Seq<u8> {
    Seq::new(512, |i: int| 0u8)
}

/// Raises the channels of a frame to those of another.
fn raise(frame: &mut [u8; 512], data: &[u8; 512])
    ensures
        final(frame)@ == merged_frames(old(frame)@, data@),
{
    let ghost before = frame@;
    let mut i: usize = 0;
    while i < 512
        invariant
            i <= 512,
            forall|j: int| 0 <= j < i ==> frame@[j] == higher(before[j], data@[j]),
            forall|j: int| i <= j < 512 ==> frame@[j] == before[j],
        decreases 512 - i,
    {
        if frame[i] < data[i] {
            frame[i] = data[i];
        }
        i += 1;
    }
    assert(frame@ =~= merged_frames(before, data@));
}

/// Merges behaviors and external frames into a DMX universe.
pub struct PulsePlexEngine {
    /// Internal DMX state (only one universe is supported)
    universe_buffer: [u8; 512],
    /// What external frames have called for since the last tick.
    external_frame: [u8; 512],
    active_envelopes: HashMap<u16, DecayEnvelope>,
    behaviors: HashMap<u16, BehaviorConfig>,
    fixtures: Vec<FixtureInstance>,
    /// Maps a behavior ID to a list of (fixture_index, capability_type)
    capability_mappings: HashMap<u16, Vec<(usize, CapabilityType)>>,
}

impl PulsePlexEngine {
    /// The DMX universe.
    pub closed spec fn frame(self) -> Seq<u8> {
        self.universe_buffer@
    }

    /// What external frames have called for since the last tick, merged.
    pub closed spec fn external(self) -> Seq<u8> {
        self.external_frame@
    }

    /// The envelopes that are lit, by behavior.
    pub closed spec fn active(self) -> Map<u16, DecayEnvelope> {
        self.active_envelopes@
    }

    /// How each behavior reacts to a trigger.
    pub closed spec fn configs(self) -> Map<u16, BehaviorConfig> {
        self.behaviors@
    }

    /// The fixtures that are patched.
    pub closed spec fn rig(self) -> Seq<FixtureInstance> {
        self.fixtures@
    }

    /// The fixture and capability pairs that each behavior drives.
    pub closed spec fn patches(self) -> Map<u16, Vec<(usize, CapabilityType)>> {
        self.capability_mappings@
    }

    /// Every active envelope is well formed, and the frames are universes.
    pub open spec fn wf(self) -> bool {
        &&& self.frame().len() == 512
        &&& self.external().len() == 512
        &&& forall|id: u16| #[trigger] self.active().contains_key(id) ==> self.active()[id].wf()
    }

    /// The two engines are set up alike.
    pub open spec fn same_setup(self, other: Self) -> bool {
        &&& self.configs() == other.configs()
        &&& self.rig() == other.rig()
        &&& self.patches() == other.patches()
    }

    /// The `i`th pair that behavior `id` drives.
    pub open spec fn patch(self, id: u16, i: int) -> (usize, CapabilityType) {
        self.patches()[id]@[i]
    }

    pub open spec fn has_patch(self, id: u16, i: int) -> bool {
        self.patches().contains_key(id) && 0 <= i < self.patches()[id]@.len()
    }

    /// The `i`th pair that behavior `id` drives lies at `channel` of the primary
    /// universe.
    pub open spec fn drives(self, id: u16, i: int, channel: int) -> bool {
        let (fixture, kind) = self.patch(id, i);
        &&& self.has_patch(id, i)
        &&& fixture < self.rig().len()
        &&& self.rig()[fixture as int].dmx_address(kind) == Some((PRIMARY_UNIVERSE, channel))
    }

    /// The fixture of the `i`th pair that behavior `id` drives has an address for it.
    pub open spec fn can_address(self, id: u16, i: int) -> bool {
        let (fixture, kind) = self.patch(id, i);
        self.has_patch(id, i) && fixture < self.rig().len()
            ==> self.rig()[fixture as int].addressable(kind)
    }

    /// The channel value that behavior `id` calls for.
    pub open spec fn value_of(self, id: u16) -> nat {
        level8(self.active()[id].intensity)
    }

    /// `value` is the highest that an active behavior calls for on `channel`,
    /// and zero where none does.
    pub open spec fn takes_precedence(self, channel: int, value: u8) -> bool {
        &&& forall|id: u16, i: int|
            self.active().contains_key(id) && #[trigger] self.drives(id, i, channel)
                ==> self.value_of(id) <= value
        &&& value == 0 || exists|id: u16, i: int|
            self.active().contains_key(id) && #[trigger] self.drives(id, i, channel)
                && self.value_of(id) == value
    }

    /// The frame holds, on `channel`, the higher of an external value and the
    /// one that takes precedence among the active behaviors.
    pub open spec fn channel_is_merged(self, channel: int, external: u8) -> bool {
        exists|value: u8| #[trigger]
            self.takes_precedence(channel, value) && self.frame()[channel] == higher(
                external,
                value,
            )
    }

    /// The frame is merged, on every channel, from the active behaviors and an
    /// external frame.
    pub open spec fn frame_is_merged(self, external: Seq<u8>) -> bool {
        forall|channel: int|
            0 <= channel < 512 ==> #[trigger] self.channel_is_merged(channel, external[channel])
    }

    /// What a tick of `time` leaves of the envelope of `id`, in units.
    pub open spec fn faded(self, id: u16, time: u32, powers: Map<u16, u32>) -> nat {
        self.active()[id].faded(time, powers[id])
    }

    /// The exponent, without its sign, by which the envelope of `id` fades in a tick
    /// of `time`, in units.
    pub open spec fn exponent(self, id: u16, time: u32) -> nat {
        exponent_units(self.active()[id].rate(), units(time))
    }

    /// The envelope of `id` is still lit after a tick of `time`.
    pub open spec fn survives(self, id: u16, time: u32, powers: Map<u16, u32>) -> bool {
        self.active().contains_key(id) && self.faded(id, time, powers) > 0
    }

    /// This engine is another one after an event.
    pub open spec fn follows(self, before: Self, event: SourceEvent) -> bool {
        &&& self.same_setup(before)
        &&& match event {
            SourceEvent::Trigger { id, velocity } => {
                &&& self.frame() == before.frame()
                &&& self.external() == before.external()
                &&& forall|other: u16|
                    other != id ==> #[trigger] self.active().contains_key(other)
                        == before.active().contains_key(other)
                &&& forall|other: u16|
                    other != id && #[trigger] self.active().contains_key(other)
                        ==> self.active()[other] == before.active()[other]
                &&& if before.configs().contains_key(id) {
                    self.active().contains_key(id) && is_struck(
                        self.active()[id],
                        before.configs()[id],
                        velocity,
                    )
                } else {
                    self.active() == before.active()
                }
            },
            SourceEvent::DmxFrame { universe, data } => {
                &&& self.active() == before.active()
                &&& universe == PRIMARY_UNIVERSE ==> self.frame() == merged_frames(
                    before.frame(),
                    data@,
                ) && self.external() == merged_frames(before.external(), data@)
                &&& universe != PRIMARY_UNIVERSE ==> self.frame() == before.frame()
                    && self.external() == before.external()
            },
            SourceEvent::ClearAll => {
                &&& self.active() == Map::<u16, DecayEnvelope>::empty()
                &&& self.frame() == blackout()
                &&& self.external() == blackout()
            },
        }
    }

    /// This engine is another one after a tick of `time`.
    pub open spec fn is_tick_of(self, before: Self, time: u32, powers: Map<u16, u32>) -> bool {
        &&& self.same_setup(before)
        &&& self.external() == blackout()
        &&& self.frame_is_merged(before.external())
        &&& forall|id: u16| #[trigger]
            self.active().contains_key(id) <==> before.survives(id, time, powers)
        &&& forall|id: u16| #[trigger]
            self.active().contains_key(id) ==> {
                let (old_one, new_one) = (before.active()[id], self.active()[id]);
                &&& new_one.wf()
                &&& new_one.level() == before.faded(id, time, powers)
                &&& new_one.decay_per_second == old_one.decay_per_second
                &&& new_one.velocity_curve == old_one.velocity_curve
                &&& new_one.decay_profile == old_one.decay_profile
            }
    }

    /// An engine with nothing lit.
    pub fn new(
        behaviors: HashMap<u16, BehaviorConfig>,
        fixtures: Vec<FixtureInstance>,
        capability_mappings: HashMap<u16, Vec<(usize, CapabilityType)>>,
    ) -> (engine: Self)
        ensures
            engine.wf(),
            engine.frame() == blackout(),
            engine.external() == blackout(),
            engine.active() == Map::<u16, DecayEnvelope>::empty(),
            engine.configs() == behaviors@,
            engine.rig() == fixtures@,
            engine.patches() == capability_mappings@,
    {
        let engine = PulsePlexEngine {
            universe_buffer: [0u8; 512],
            external_frame: [0u8; 512],
            active_envelopes: HashMap::new(),
            behaviors,
            fixtures,
            capability_mappings,
        };
        assert(engine.frame() =~= blackout());
        assert(engine.external() =~= blackout());
        engine
    }

    /// Goes by another setup from now on, and keeps what is lit.
    pub fn reconfigure(
        &mut self,
        behaviors: HashMap<u16, BehaviorConfig>,
        fixtures: Vec<FixtureInstance>,
        capability_mappings: HashMap<u16, Vec<(usize, CapabilityType)>>,
    )
        requires
            old(self).wf(),
        ensures
            final(self).wf(),
            final(self).frame() == old(self).frame(),
            final(self).external() == old(self).external(),
            final(self).active() == old(self).active(),
            final(self).configs() == behaviors@,
            final(self).rig() == fixtures@,
            final(self).patches() == capability_mappings@,
    {
        self.behaviors = behaviors;
        self.fixtures = fixtures;
        self.capability_mappings = capability_mappings;
        assert(self.active() == old(self).active());
    }

    /// Takes in one event. A trigger lights the envelope of its behavior anew,
    /// a frame for the primary universe is merged into the buffer and kept for
    /// the next tick, and clearing puts everything out.
    pub fn handle_event(&mut self, event: &SourceEvent)
        requires
            old(self).wf(),
        ensures
            final(self).wf(),
            final(self).same_setup(*old(self)),
            final(self).follows(*old(self), *event),
            match *event {
                SourceEvent::Trigger { id, velocity } => {
                    &&& final(self).frame() == old(self).frame()
                    &&& final(self).external() == old(self).external()
                    &&& if old(self).configs().contains_key(id) {
                        &&& final(self).active().contains_key(id)
                        &&& final(self).active() == old(self).active().insert(
                            id,
                            final(self).active()[id],
                        )
                        &&& is_struck(
                            final(self).active()[id],
                            old(self).configs()[id],
                            velocity,
                        )
                        &&& final(self).active()[id].velocity_curve
                            == old(self).configs()[id].velocity_curve
                        &&& final(self).active()[id].decay_profile
                            == old(self).configs()[id].decay_profile
                        &&& final(self).active()[id].rate() == decay_rate(
                            old(self).configs()[id].decay_seconds,
                        )
                        &&& final(self).active()[id].level() == (match
                            old(self).configs()[id].velocity_curve {
                            VelocityCurve::Linear => normalized(velocity),
                            VelocityCurve::Hard => rounded_ratio(
                                normalized(velocity) * normalized(velocity),
                                one(),
                            ),
                            VelocityCurve::Soft => rounded_root(normalized(velocity) * one()),
                        })
                    } else {
                        final(self).active() == old(self).active()
                    }
                },
                SourceEvent::DmxFrame { universe, data } => {
                    &&& final(self).active() == old(self).active()
                    &&& final(self).frame() == if universe == PRIMARY_UNIVERSE {
                        merged_frames(old(self).frame(), data@)
                    } else {
                        old(self).frame()
                    }
                    &&& final(self).external() == if universe == PRIMARY_UNIVERSE {
                        merged_frames(old(self).external(), data@)
                    } else {
                        old(self).external()
                    }
                },
                SourceEvent::ClearAll => {
                    &&& final(self).active() == Map::<u16, DecayEnvelope>::empty()
                    &&& final(self).frame() == blackout()
                    &&& final(self).external() == blackout()
                },
            },
    {
        match event {
            SourceEvent::Trigger { id, velocity } => {
                let config: Option<&BehaviorConfig> = self.behaviors.get(id);
                if let Some(config) = config {
                    let mut envelope = DecayEnvelope::new(
                        config.decay_seconds,
                        config.velocity_curve,
                        config.decay_profile,
                    );
                    envelope.trigger(*velocity);
                    self.active_envelopes.insert(*id, envelope);
                    assert forall|k: u16| #[trigger]
                        self.active().contains_key(k) implies self.active()[k].wf() by {
                        if k != *id {
                            assert(old(self).active().contains_key(k));
                        }
                    }
                }
            },
            SourceEvent::DmxFrame { universe, data } => {
                if *universe == PRIMARY_UNIVERSE {
                    raise(&mut self.universe_buffer, data);
                    raise(&mut self.external_frame, data);
                    assert(self.active() == old(self).active());
                }
            },
            SourceEvent::ClearAll => {
                self.active_envelopes.clear();
                self.universe_buffer = [0u8; 512];
                self.external_frame = [0u8; 512];
                assert(self.frame() =~= blackout());
                assert(self.external() =~= blackout());
            },
        }
    }

    /// The exponents of the active envelopes that fade exponentially in a tick
    /// of `dt_seconds`, without their signs.
    pub fn decay_exponents(&self, dt_seconds: u32) -> (exponents: HashMap<u16, u32>)
        requires
            self.wf(),
            dt_seconds < INFINITY,
        ensures
            forall|id: u16| #[trigger]
                exponents@.contains_key(id) <==> self.active().contains_key(id)
                    && self.active()[id].decay_profile == DecayProfile::Exponential,
            forall|id: u16| #[trigger]
                exponents@.contains_key(id) ==> encodes(
                    exponents@[id],
                    exponent_units(self.active()[id].rate(), units(dt_seconds)),
                ),
            forall|id: u16| #[trigger]
                exponents@.contains_key(id) ==> encodes(
                    exponents@[id],
                    self.exponent(id, dt_seconds),
                ),
    {
        let ids: Vec<u16> = keys_of(&self.active_envelopes);
        let mut exponents: HashMap<u16, u32> = HashMap::new();
        let mut n: usize = 0;
        while n < ids.len()
            invariant
                self.wf(),
                dt_seconds < INFINITY,
                n <= ids@.len(),
                forall|id: u16| #[trigger] ids@.contains(id) <==> self.active().contains_key(id),
                forall|id: u16| #[trigger]
                    exponents@.contains_key(id) <==> ids@.take(n as int).contains(id)
                        && self.active()[id].decay_profile == DecayProfile::Exponential,
                forall|id: u16| #[trigger]
                    exponents@.contains_key(id) ==> encodes(
                        exponents@[id],
                        exponent_units(self.active()[id].rate(), units(dt_seconds)),
                    ),
            decreases ids@.len() - n,
        {
            let id: u16 = ids[n];
            assert(ids@.contains(id));
            let entry: Option<&DecayEnvelope> = self.active_envelopes.get(&id);
            if let Some(envelope) = entry {
                match envelope.decay_profile {
                    DecayProfile::Exponential => {
                        let exponent: u32 = envelope.decay_exponent(dt_seconds);
                        exponents.insert(id, exponent);
                    },
                    DecayProfile::Linear => {},
                }
            }
            proof {
                lemma_take_contains(ids@, n as int);
            }
            n += 1;
        }
        assert(ids@.take(n as int) =~= ids@);
        exponents
    }

    /// Process a single tick of the engine: every envelope fades by
    /// `dt_seconds`, those that went dark are dropped, and the rest is merged
    /// into a fresh frame, together with the external frames that have come in
    /// since the last tick. `powers` holds, by behavior, the powers with the
    /// exponents of [`Self::decay_exponents`].
    pub fn tick(&mut self, dt_seconds: u32, powers: &HashMap<u16, u32>)
        requires
            old(self).wf(),
            dt_seconds < INFINITY,
            forall|id: u16| #[trigger]
                old(self).active().contains_key(id) && old(self).active()[id].decay_profile
                    == DecayProfile::Exponential ==> powers@.contains_key(id) && powers@[id]
                    <= FULL,
            forall|id: u16, i: int|
                old(self).survives(id, dt_seconds, powers@) ==> #[trigger] old(self).can_address(
                    id,
                    i,
                ),
        ensures
            final(self).wf(),
            final(self).same_setup(*old(self)),
            forall|id: u16| #[trigger]
                final(self).active().contains_key(id) <==> old(self).survives(
                    id,
                    dt_seconds,
                    powers@,
                ),
            forall|id: u16| #[trigger]
                final(self).active().contains_key(id) ==> {
                    let (before, after) = (old(self).active()[id], final(self).active()[id]);
                    &&& after.level() == old(self).faded(id, dt_seconds, powers@)
                    &&& after.intensity <= before.intensity
                    &&& after.decay_per_second == before.decay_per_second
                    &&& after.velocity_curve == before.velocity_curve
                    &&& after.decay_profile == before.decay_profile
                },
            forall|id: u16| #[trigger]
                final(self).active().contains_key(id) ==> final(self).active()[id].level()
                    == old(self).active()[id].faded(dt_seconds, powers@[id]),
            final(self).external() == blackout(),
            final(self).frame_is_merged(old(self).external()),
            final(self).is_tick_of(*old(self), dt_seconds, powers@),
            forall|id: u16, i: int|
                #![trigger final(self).patches()[id]@[i]]
                final(self).active().contains_key(id) && final(self).patches().contains_key(id)
                    && 0 <= i < final(self).patches()[id]@.len() ==> {
                    let (place, kind) = final(self).patches()[id]@[i];
                    let fixture = final(self).rig()[place as int];
                    let channel = fixture.start_address - 1 + fixture.capability_offsets@[kind];
                    place < final(self).rig().len() && fixture.universe == 1
                        && fixture.capability_offsets@.contains_key(kind) && 0 <= channel < 512
                        ==> level8(final(self).active()[id].intensity)
                        <= final(self).frame()[channel]
                },
    {
        self.fade(dt_seconds, powers);
        proof {
            assert forall|id: u16, i: int|
                self.active().contains_key(id) implies #[trigger] self.can_address(id, i) by {
                assert(old(self).can_address(id, i));
            }
        }
        let mut frame: [u8; 512] = self.merged();
        let ghost (faded, lit) = (*self, frame@);
        raise(&mut frame, &self.external_frame);
        self.universe_buffer = frame;
        self.external_frame = [0u8; 512];
        assert(self.external() =~= blackout());
        assert forall|c: int| 0 <= c < 512 implies self.takes_precedence(
            c,
            #[trigger] lit[c],
        ) && self.frame()[c] == higher(old(self).external()[c], lit[c]) by {
            assert(faded.takes_precedence(c, lit[c]));
            assert forall|id: u16, i: int| #[trigger]
                self.drives(id, i, c) == faded.drives(id, i, c) by {}
            assert forall|id: u16| #[trigger] self.value_of(id) == faded.value_of(id) by {}
            if lit[c] != 0 {
                let (id, i) = choose|id: u16, i: int|
                    faded.active().contains_key(id) && #[trigger] faded.drives(id, i, c)
                        && faded.value_of(id) == lit[c];
                assert(self.drives(id, i, c));
            }
        }
        assert forall|c: int| 0 <= c < 512 implies #[trigger] self.channel_is_merged(
            c,
            old(self).external()[c],
        ) by {
            assert(self.takes_precedence(c, lit[c]));
        }
        assert forall|id: u16, i: int|
            #![trigger self.patches()[id]@[i]]
            self.active().contains_key(id) && self.patches().contains_key(id) && 0 <= i
                < self.patches()[id]@.len() implies {
            let (place, kind) = self.patches()[id]@[i];
            let fixture = self.rig()[place as int];
            let channel = fixture.start_address - 1 + fixture.capability_offsets@[kind];
            place < self.rig().len() && fixture.universe == 1
                && fixture.capability_offsets@.contains_key(kind) && 0 <= channel < 512 ==> level8(
                self.active()[id].intensity,
            ) <= self.frame()[channel]
        } by {
            law_every_patched_channel_is_lit(*self, old(self).external(), id, i);
        }
    }

    /// Fades every envelope by `dt_seconds` and drops those that went dark.
    fn fade(&mut self, dt_seconds: u32, powers: &HashMap<u16, u32>)
        requires
            old(self).wf(),
            dt_seconds < INFINITY,
            forall|id: u16| #[trigger]
                old(self).active().contains_key(id) && old(self).active()[id].decay_profile
                    == DecayProfile::Exponential ==> powers@.contains_key(id) && powers@[id]
                    <= FULL,
        ensures
            final(self).wf(),
            final(self).same_setup(*old(self)),
            final(self).external() == old(self).external(),
            forall|id: u16| #[trigger]
                final(self).active().contains_key(id) <==> old(self).survives(
                    id,
                    dt_seconds,
                    powers@,
                ),
            forall|id: u16| #[trigger]
                final(self).active().contains_key(id) ==> {
                    let (before, after) = (old(self).active()[id], final(self).active()[id]);
                    &&& after.level() == old(self).faded(id, dt_seconds, powers@)
                    &&& after.intensity <= before.intensity
                    &&& after.decay_per_second == before.decay_per_second
                    &&& after.velocity_curve == before.velocity_curve
                    &&& after.decay_profile == before.decay_profile
                },
    {
        let ids: Vec<u16> = keys_of(&self.active_envelopes);
        let mut lit: HashMap<u16, DecayEnvelope> = HashMap::new();
        let mut n: usize = 0;
        while n < ids.len()
            invariant
                *self == *old(self),
                self.wf(),
                dt_seconds < INFINITY,
                forall|id: u16| #[trigger]
                    self.active().contains_key(id) && self.active()[id].decay_profile
                        == DecayProfile::Exponential ==> powers@.contains_key(id) && powers@[id]
                        <= FULL,
                n <= ids@.len(),
                ids@.no_duplicates(),
                forall|id: u16| #[trigger] ids@.contains(id) <==> self.active().contains_key(id),
                forall|id: u16| #[trigger]
                    lit@.contains_key(id) <==> ids@.take(n as int).contains(id) && self.survives(
                        id,
                        dt_seconds,
                        powers@,
                    ),
                forall|id: u16| #[trigger]
                    lit@.contains_key(id) ==> {
                        let (before, after) = (self.active()[id], lit@[id]);
                        &&& after.wf()
                        &&& after.level() == self.faded(id, dt_seconds, powers@)
                        &&& after.intensity <= before.intensity
                        &&& after.decay_per_second == before.decay_per_second
                        &&& after.velocity_curve == before.velocity_curve
                        &&& after.decay_profile == before.decay_profile
                    },
            decreases ids@.len() - n,
        {
            let id: u16 = ids[n];
            assert(ids@.contains(id));
            assert(self.active().contains_key(id));
            let entry: Option<&DecayEnvelope> = self.active_envelopes.get(&id);
            if let Some(current) = entry {
                let mut envelope: DecayEnvelope = *current;
                let power: u32 = match envelope.decay_profile {
                    DecayProfile::Linear => 0,
                    DecayProfile::Exponential => match powers.get(&id) {
                        Some(power) => *power,
                        None => 0,
                    },
                };
                envelope.tick(dt_seconds, power);
                proof {
                    lemma_dark(envelope);
                }
                if !envelope.is_dead() {
                    lit.insert(id, envelope);
                }
            }
            proof {
                lemma_take_contains(ids@, n as int);
            }
            n += 1;
        }
        assert(ids@.take(n as int) =~= ids@);
        self.active_envelopes = lit;
    }

    /// A fresh frame with what the active envelopes call for.
    fn merged(&self) -> (frame: [u8; 512])
        requires
            forall|id: u16, i: int|
                self.active().contains_key(id) ==> #[trigger] self.can_address(id, i),
        ensures
            forall|channel: int|
                0 <= channel < 512 ==> self.takes_precedence(channel, #[trigger] frame@[channel]),
    {
        let ids: Vec<u16> = keys_of(&self.active_envelopes);
        let mut frame: [u8; 512] = [0u8; 512];
        let ghost mut seen: Set<(u16, int)> = Set::empty();
        let mut n: usize = 0;
        while n < ids.len()
            invariant
                n <= ids@.len(),
                forall|id: u16| #[trigger] ids@.contains(id) <==> self.active().contains_key(id),
                forall|id: u16, i: int|
                    self.active().contains_key(id) ==> #[trigger] self.can_address(id, i),
                self.merged_over(seen, frame@),
                forall|id: u16, i: int|
                    ids@.take(n as int).contains(id) && self.has_patch(id, i)
                        ==> #[trigger] seen.contains((id, i)),
            decreases ids@.len() - n,
        {
            let id: u16 = ids[n];
            assert(ids@.contains(id));
            let entry: Option<&DecayEnvelope> = self.active_envelopes.get(&id);
            if let Some(envelope) = entry {
                let value: u8 = envelope.dmx_value();
                let list: Option<&Vec<(usize, CapabilityType)>> = self.capability_mappings.get(
                    &id,
                );
                if let Some(mappings) = list {
                    let ghost seen_before = seen;
                    let mut i: usize = 0;
                    while i < mappings.len()
                        invariant
                            i <= mappings@.len(),
                            self.active().contains_key(id),
                            self.patches().contains_key(id),
                            self.patches()[id] == *mappings,
                            value == self.value_of(id),
                            forall|id: u16, i: int|
                                self.active().contains_key(id) ==> #[trigger] self.can_address(
                                    id,
                                    i,
                                ),
                            self.merged_over(seen, frame@),
                            seen_before.subset_of(seen),
                            forall|j: int| 0 <= j < i ==> #[trigger] seen.contains((id, j)),
                        decreases mappings@.len() - i,
                    {
                        let ghost before = frame@;
                        let (fixture_idx, kind): (usize, CapabilityType) = mappings[i];
                        assert(self.can_address(id, i as int));
                        if fixture_idx < self.fixtures.len() {
                            let address: Option<(u16, usize)> =
                                self.fixtures[fixture_idx].get_dmx_address(kind);
                            // Only one universe is supported
                            if let Some((universe, channel)) = address {
                                if universe == PRIMARY_UNIVERSE && channel < 512 {
                                    if frame[channel] < value {
                                        frame[channel] = value;
                                    }
                                }
                            }
                        }
                        proof {
                            self.lemma_merge_step(seen, before, id, i as int, frame@);
                            seen = seen.insert((id, i as int));
                        }
                        i += 1;
                    }
                }
            }
            proof {
                lemma_take_contains(ids@, n as int);
            }
            n += 1;
        }
        assert(ids@.take(n as int) =~= ids@);
        assert forall|channel: int| 0 <= channel < 512 implies self.takes_precedence(
            channel,
            #[trigger] frame@[channel],
        ) by {
            assert forall|id: u16, i: int|
                self.active().contains_key(id) && #[trigger] self.drives(
                    id,
                    i,
                    channel,
                ) implies self.value_of(id) <= frame@[channel] by {
                assert(seen.contains((id, i)));
            }
        }
        frame
    }

    /// The frame holds, on every channel, the highest value that the pairs in
    /// `seen` call for.
    spec fn merged_over(self, seen: Set<(u16, int)>, frame: Seq<u8>) -> bool {
        &&& frame.len() == 512
        &&& forall|channel: int, id: u16, i: int|
            #![trigger self.drives(id, i, channel)]
            0 <= channel < 512 && seen.contains((id, i)) && self.active().contains_key(id)
                && self.drives(id, i, channel) ==> self.value_of(id) <= frame[channel]
        &&& forall|channel: int|
            0 <= channel < 512 && #[trigger] frame[channel] != 0 ==> exists|id: u16, i: int|
                self.active().contains_key(id) && #[trigger] self.drives(id, i, channel)
                    && self.value_of(id) == frame[channel]
    }

    /// Raising the channel of one more pair to its value keeps the frame merged.
    proof fn lemma_merge_step(
        self,
        seen: Set<(u16, int)>,
        before: Seq<u8>,
        id: u16,
        i: int,
        after: Seq<u8>,
    )
        requires
            self.merged_over(seen, before),
            self.active().contains_key(id),
            self.has_patch(id, i),
            after.len() == 512,
            forall|channel: int|
                0 <= channel < 512 ==> #[trigger] after[channel] == if self.drives(id, i, channel)
                    && before[channel] < self.value_of(id) {
                    self.value_of(id) as u8
                } else {
                    before[channel]
                },
            self.value_of(id) <= 255,
        ensures
            self.merged_over(seen.insert((id, i)), after),
    {
        assert forall|channel: int|
            0 <= channel < 512 && #[trigger] after[channel] != 0 implies exists|a: u16, b: int|
            self.active().contains_key(a) && #[trigger] self.drives(a, b, channel)
                && self.value_of(a) == after[channel] by {
            if self.drives(id, i, channel) && before[channel] < self.value_of(id) {
                assert(self.value_of(id) == after[channel]);
            } else {
                assert(before[channel] != 0);
                let (a, b) = choose|a: u16, b: int|
                    self.active().contains_key(a) && #[trigger] self.drives(a, b, channel)
                        && self.value_of(a) == before[channel];
                assert(self.drives(a, b, channel));
            }
        }
    }

    /// The DMX universe.
    pub fn universe(&self) -> (universe: &[u8; 512])
        ensures
            universe@ == self.frame(),
    {
        &self.universe_buffer
    }

    /// The envelopes that are lit, by behavior.
    pub fn envelopes(&self) -> (envelopes: &HashMap<u16, DecayEnvelope>)
        ensures
            envelopes@ == self.active(),
    {
        &self.active_envelopes
    }

    /// How many envelopes are lit.
    pub fn active_envelopes_count(&self) -> (count: usize)
        ensures
            count == self.active().len(),
    {
        self.active_envelopes.len()
    }
}

/// A well-formed envelope is dead where its intensity is none.
proof fn lemma_dark(envelope: DecayEnvelope)
    requires
        envelope.wf(),
    ensures
        not_positive(envelope.intensity) == (envelope.level() == 0),
{
    lemma_zero_units();
    if envelope.intensity > 0 {
        lemma_units_ordered(0, envelope.intensity);
    }
}

/// On each channel only one value takes precedence, so that a merged frame
/// depends on what is lit alone and not on the order of merging.
pub proof fn law_one_value_takes_precedence(engine: PulsePlexEngine, channel: int, a: u8, b: u8)
    requires
        engine.takes_precedence(channel, a),
        engine.takes_precedence(channel, b),
    ensures
        a == b,
{
}

/// Where nothing is lit a merged frame is the external one, and so dark where
/// none came in.
pub proof fn law_nothing_lit_leaves_external(engine: PulsePlexEngine, external: Seq<u8>)
    requires
        engine.wf(),
        external.len() == 512,
        engine.frame_is_merged(external),
        engine.active() == Map::<u16, DecayEnvelope>::empty(),
    ensures
        engine.frame() == external,
{
    assert forall|channel: int| 0 <= channel < 512 implies #[trigger] engine.frame()[channel]
        == external[channel] by {
        assert(engine.channel_is_merged(channel, external[channel]));
    }
    assert(engine.frame() =~= external);
}

/// An external frame is lost on no channel.
pub proof fn law_external_frame_comes_through(engine: PulsePlexEngine, external: Seq<u8>)
    requires
        engine.frame_is_merged(external),
    ensures
        forall|channel: int|
            0 <= channel < 512 ==> external[channel] <= #[trigger] engine.frame()[channel],
{
    assert forall|channel: int| 0 <= channel < 512 implies external[channel]
        <= #[trigger] engine.frame()[channel] by {
        assert(engine.channel_is_merged(channel, external[channel]));
    }
}

/// Highest takes precedence: lighting more, or the same more brightly, lowers
/// no channel.
pub proof fn law_more_light_lowers_no_channel(
    dim: PulsePlexEngine,
    dim_external: Seq<u8>,
    bright: PulsePlexEngine,
    bright_external: Seq<u8>,
)
    requires
        dim.same_setup(bright),
        dim.frame_is_merged(dim_external),
        bright.frame_is_merged(bright_external),
        forall|channel: int|
            0 <= channel < 512 ==> #[trigger] dim_external[channel] <= bright_external[channel],
        forall|id: u16| #[trigger]
            dim.active().contains_key(id) ==> bright.active().contains_key(id) && dim.value_of(id)
                <= bright.value_of(id),
    ensures
        forall|channel: int|
            0 <= channel < 512 ==> #[trigger] dim.frame()[channel] <= bright.frame()[channel],
{
    assert forall|channel: int| 0 <= channel < 512 implies #[trigger] dim.frame()[channel]
        <= bright.frame()[channel] by {
        let (x, y) = (dim_external[channel], bright_external[channel]);
        assert(dim.channel_is_merged(channel, x));
        assert(bright.channel_is_merged(channel, y));
        let a = choose|a: u8| #[trigger]
            dim.takes_precedence(channel, a) && dim.frame()[channel] == higher(x, a);
        let b = choose|b: u8| #[trigger]
            bright.takes_precedence(channel, b) && bright.frame()[channel] == higher(y, b);
        if a > 0 {
            let (id, i) = choose|id: u16, i: int|
                dim.active().contains_key(id) && #[trigger] dim.drives(id, i, channel)
                    && dim.value_of(id) == a;
            assert(bright.drives(id, i, channel));
        }
    }
}

/// Merging frames takes no account of their order, and merging one again
/// changes nothing.
pub proof fn law_merging_is_symmetric(a: Seq<u8>, b: Seq<u8>)
    requires
        a.len() == b.len(),
    ensures
        merged_frames(a, b) == merged_frames(b, a),
        merged_frames(merged_frames(a, b), b) == merged_frames(a, b),
{
    assert(merged_frames(a, b) =~= merged_frames(b, a));
    assert(merged_frames(merged_frames(a, b), b) =~= merged_frames(a, b));
}

/// Every fixture that a lit behavior is patched to shows it: on the channel of
/// each pair of fixture and capability in the behavior's list, wherever in the
/// list it stands, a merged frame is at least the behavior's channel value. The
/// channel is the fixture's start address, counted from 1, and the capability's
/// offset, in universe 1.
pub proof fn law_every_patched_channel_is_lit(
    engine: PulsePlexEngine,
    external: Seq<u8>,
    id: u16,
    i: int,
)
    requires
        engine.frame_is_merged(external),
        engine.active().contains_key(id),
        engine.patches().contains_key(id),
        0 <= i < engine.patches()[id]@.len(),
    ensures
        ({
            let (place, kind) = engine.patches()[id]@[i];
            let fixture = engine.rig()[place as int];
            let channel = fixture.start_address - 1 + fixture.capability_offsets@[kind];
            place < engine.rig().len() && fixture.universe == 1
                && fixture.capability_offsets@.contains_key(kind) && 0 <= channel < 512 ==> level8(
                engine.active()[id].intensity,
            ) <= engine.frame()[channel]
        }),
{
    let (place, kind) = engine.patches()[id]@[i];
    let fixture = engine.rig()[place as int];
    let channel = fixture.start_address - 1 + fixture.capability_offsets@[kind];
    if place < engine.rig().len() && fixture.universe == 1
        && fixture.capability_offsets@.contains_key(kind) && 0 <= channel < 512 {
        assert(engine.channel_is_merged(channel, external[channel]));
        assert(engine.drives(id, i, channel));
    }
}

/// Each channel that a behavior shows on is lit in proportion: a merged frame is
/// at least 255 times the behavior's intensity, less the fraction and a part in
/// two to the power of 24, or 255.
pub proof fn law_patched_channels_are_as_bright_as_their_behavior(
    engine: PulsePlexEngine,
    external: Seq<u8>,
    id: u16,
    i: int,
)
    requires
        engine.wf(),
        engine.frame_is_merged(external),
        engine.active().contains_key(id),
        engine.patches().contains_key(id),
        0 <= i < engine.patches()[id]@.len(),
    ensures
        ({
            let (place, kind) = engine.patches()[id]@[i];
            let fixture = engine.rig()[place as int];
            let channel = fixture.start_address - 1 + fixture.capability_offsets@[kind];
            place < engine.rig().len() && fixture.universe == 1
                && fixture.capability_offsets@.contains_key(kind) && 0 <= channel < 512 ==> {
                ||| engine.frame()[channel] == 255
                ||| 0xFF_FFFF * (255 * units(engine.active()[id].intensity)) < 0x100_0000 * ((
                engine.frame()[channel] + 1) * one()) + 0x100_0000
            }
        }),
{
    law_every_patched_channel_is_lit(engine, external, id, i);
    law_level8_is_proportional(engine.active()[id].intensity);
    let (place, kind) = engine.patches()[id]@[i];
    let fixture = engine.rig()[place as int];
    let channel = fixture.start_address - 1 + fixture.capability_offsets@[kind];
    let (low, high) = (
        level8(engine.active()[id].intensity) as int,
        engine.frame()[channel] as int,
    );
    if low <= high {
        assert((low + 1) * one() <= (high + 1) * one()) by (nonlinear_arith)
            requires
                low <= high,
        ;
    }
}

/// Nothing lights a channel but an external frame and a lit behavior that is
/// patched to it: a channel of a merged frame is the external one's, or higher
/// and then the channel value of a behavior that has, somewhere in its list, a
/// fixture of universe 1 with a capability at that very channel.
pub proof fn law_only_patched_channels_are_lit(
    engine: PulsePlexEngine,
    external: Seq<u8>,
    channel: int,
)
    requires
        engine.frame_is_merged(external),
        0 <= channel < 512,
        engine.frame()[channel] != external[channel],
    ensures
        engine.frame()[channel] > external[channel],
        exists|id: u16, i: int|
            #![trigger engine.patches()[id]@[i]]
            {
                let (place, kind) = engine.patches()[id]@[i];
                let fixture = engine.rig()[place as int];
                &&& engine.active().contains_key(id)
                &&& level8(engine.active()[id].intensity) == engine.frame()[channel]
                &&& engine.patches().contains_key(id)
                &&& 0 <= i < engine.patches()[id]@.len()
                &&& place < engine.rig().len()
                &&& fixture.universe == 1
                &&& fixture.capability_offsets@.contains_key(kind)
                &&& fixture.start_address - 1 + fixture.capability_offsets@[kind] == channel
            },
{
    assert(engine.channel_is_merged(channel, external[channel]));
    let value = choose|value: u8| #[trigger]
        engine.takes_precedence(channel, value) && engine.frame()[channel] == higher(
            external[channel],
            value,
        );
    let (id, i) = choose|id: u16, i: int|
        engine.active().contains_key(id) && #[trigger] engine.drives(id, i, channel)
            && engine.value_of(id) == value;
    let (place, kind) = engine.patches()[id]@[i];
    assert(engine.rig()[place as int].capability_offsets@.contains_key(kind));
}

/// A trigger strikes by its behavior's configuration: the envelope has the
/// configured velocity curve and decay profile; its intensity is the velocity
/// over 127 on the linear curve, the square of that on the hard one, and on the
/// soft one a number whose square it is, each to a part in two to the power of
/// 20; and the decay takes the configured seconds, 0.001 at least.
pub proof fn law_trigger_strikes_by_configuration(
    envelope: DecayEnvelope,
    config: BehaviorConfig,
    velocity: u8,
)
    requires
        is_struck(envelope, config, velocity),
    ensures
        envelope.velocity_curve == config.velocity_curve,
        envelope.decay_profile == config.decay_profile,
        ({
            let (s, v) = (envelope.level(), velocity as nat);
            match config.velocity_curve {
                VelocityCurve::Linear => {
                    &&& 0x10_0000 * (127 * s) <= 0x10_0001 * (v * one())
                    &&& 0xF_FFFF * (v * one()) <= 0x10_0000 * (127 * s)
                },
                VelocityCurve::Hard => {
                    &&& 0x10_0000 * (16_129 * s) <= 0x10_0001 * (v * v * one())
                    &&& 0xF_FFFF * (v * v * one()) <= 0x10_0000 * (16_129 * s)
                },
                VelocityCurve::Soft => {
                    &&& 0x10_0000 * (127 * (s * s)) <= 0x10_0001 * (v * (one() * one()))
                    &&& 0xF_FFFF * (v * (one() * one())) <= 0x10_0000 * (127 * (s * s))
                },
            }
        }),
        0x3A83_126F <= config.decay_seconds < 0x7F80_0000 ==> {
            let d = units(config.decay_seconds);
            &&& 0x100_0000 * (envelope.rate() * d) <= 0x100_0001 * (one() * one()) + 0x100_0000 * d
            &&& 0xFF_FFFF * (one() * one()) <= 0x100_0000 * (envelope.rate() * d) + 0x100_0000 * d
        },
        config.decay_seconds < 0x3A83_126F || config.decay_seconds > 0x7F80_0000 ==> envelope.rate()
            == decay_rate(0x3A83_126F),
        config.decay_seconds == 0x7F80_0000 ==> envelope.rate() == 0,
{
    law_linear_curve_is_proportional(velocity);
    law_hard_curve_is_quadratic(velocity);
    law_soft_curve_is_a_square_root(velocity);
    law_rate_is_the_reciprocal(config.decay_seconds);
    assert(velocity as nat * one() >= 0) by (nonlinear_arith);
}

/// Two behaviors that differ in their curves alone are told apart by any hit
/// strictly between none and the hardest: the hard one is dimmer than the linear
/// one, and that than the soft one.
pub proof fn law_configured_curves_are_told_apart(
    hard: (DecayEnvelope, BehaviorConfig),
    linear: (DecayEnvelope, BehaviorConfig),
    soft: (DecayEnvelope, BehaviorConfig),
    velocity: u8,
)
    requires
        0 < velocity < 127,
        hard.1.velocity_curve == VelocityCurve::Hard,
        linear.1.velocity_curve == VelocityCurve::Linear,
        soft.1.velocity_curve == VelocityCurve::Soft,
        is_struck(hard.0, hard.1, velocity),
        is_struck(linear.0, linear.1, velocity),
        is_struck(soft.0, soft.1, velocity),
    ensures
        hard.0.level() < linear.0.level() < soft.0.level(),
{
    law_curves_differ(velocity);
}

/// A tick fades each envelope as that envelope by itself fades, by its own power.
pub proof fn law_envelopes_fade_by_themselves(
    engine: PulsePlexEngine,
    other: PulsePlexEngine,
    id: u16,
    time: u32,
    powers: Map<u16, u32>,
    other_powers: Map<u16, u32>,
)
    requires
        engine.active().contains_key(id),
        other.active().contains_key(id),
        engine.active()[id] == other.active()[id],
        powers[id] == other_powers[id],
    ensures
        engine.faded(id, time, powers) == engine.active()[id].faded(time, powers[id]),
        engine.faded(id, time, powers) == other.faded(id, time, other_powers),
{
}

/// A tick puts out exactly the envelopes of which it leaves nothing.
pub proof fn law_only_dark_envelopes_go_out(
    engine: PulsePlexEngine,
    id: u16,
    time: u32,
    powers: Map<u16, u32>,
)
    requires
        engine.active().contains_key(id),
    ensures
        engine.survives(id, time, powers) <==> engine.active()[id].faded(time, powers[id]) != 0,
{
}

/// A merged channel is the higher of the two that were merged.
pub proof fn law_higher_takes_precedence(a: Seq<u8>, b: Seq<u8>, channel: int)
    requires
        a.len() == b.len(),
        0 <= channel < a.len(),
    ensures
        merged_frames(a, b).len() == a.len(),
        merged_frames(a, b)[channel] >= a[channel],
        merged_frames(a, b)[channel] >= b[channel],
        merged_frames(a, b)[channel] == a[channel] || merged_frames(a, b)[channel] == b[channel],
{
}

/// After clearing, every one of the 512 channels is off.
pub proof fn law_blackout_is_dark()
    ensures
        blackout().len() == 512,
        forall|channel: int| 0 <= channel < 512 ==> #[trigger] blackout()[channel] == 0,
{
}

/// A trigger touches its own behavior alone: every other envelope, the frame and the
/// setup stay, and so does everything where the behavior is not configured. A
/// behavior that is configured is lit, anew where it was lit before.
pub proof fn law_triggers_light_their_own_behavior(
    before: PulsePlexEngine,
    after: PulsePlexEngine,
    id: u16,
    velocity: u8,
    other: u16,
)
    requires
        after.follows(before, SourceEvent::Trigger { id, velocity }),
        other != id,
    ensures
        after.frame() == before.frame(),
        after.external() == before.external(),
        after.configs() == before.configs() && after.rig() == before.rig() && after.patches()
            == before.patches(),
        after.active().contains_key(other) <==> before.active().contains_key(other),
        after.active().contains_key(other) ==> after.active()[other] == before.active()[other],
        before.configs().contains_key(id) ==> after.active().contains_key(id)
            && after.active()[id].velocity_curve == before.configs()[id].velocity_curve
            && after.active()[id].decay_profile == before.configs()[id].decay_profile,
        !before.configs().contains_key(id) ==> after.active() == before.active(),
        before.configs().contains_key(id) && velocity == 127 ==> after.active()[id].level()
            == units(FULL),
        before.configs().contains_key(id) && velocity == 0 ==> after.active()[id].level() == 0,
{
    if before.configs().contains_key(id) {
        law_curves_span_all_intensities(before.configs()[id].velocity_curve);
    }
}

/// A frame for universe 1 raises each channel to at least its value and lowers
/// none, at once and in the next tick; one for another universe changes nothing.
/// Neither touches an envelope.
pub proof fn law_external_frames_are_merged(
    before: PulsePlexEngine,
    after: PulsePlexEngine,
    universe: u16,
    data: Box<[u8; 512]>,
    channel: int,
)
    requires
        before.wf(),
        after.follows(before, SourceEvent::DmxFrame { universe, data }),
        0 <= channel < 512,
    ensures
        after.active() == before.active(),
        universe == 1 ==> {
            &&& after.frame()[channel] >= data@[channel]
            &&& after.frame()[channel] >= before.frame()[channel]
            &&& after.frame()[channel] == data@[channel] || after.frame()[channel]
                == before.frame()[channel]
            &&& after.external()[channel] >= data@[channel]
            &&& after.external()[channel] >= before.external()[channel]
            &&& after.external()[channel] == data@[channel] || after.external()[channel]
                == before.external()[channel]
        },
        universe != 1 ==> after.frame() == before.frame() && after.external()
            == before.external(),
{
}

/// Clearing puts out every envelope and every channel, and keeps the setup.
pub proof fn law_clearing_puts_everything_out(
    before: PulsePlexEngine,
    after: PulsePlexEngine,
    id: u16,
    channel: int,
)
    requires
        after.follows(before, SourceEvent::ClearAll),
        0 <= channel < 512,
    ensures
        !after.active().contains_key(id),
        after.frame()[channel] == 0,
        after.external()[channel] == 0,
        after.configs() == before.configs() && after.rig() == before.rig() && after.patches()
            == before.patches(),
{
}

/// After a tick, what it has left of an envelope shows on every channel that the
/// behavior is patched to, and an envelope of which it has left nothing is gone.
/// What is left is what that envelope fades to by itself; its rate, curve and
/// profile stay.
pub proof fn law_ticks_show_what_is_left(
    before: PulsePlexEngine,
    after: PulsePlexEngine,
    time: u32,
    powers: Map<u16, u32>,
    id: u16,
    i: int,
    left: u32,
)
    requires
        after.is_tick_of(before, time, powers),
        before.active().contains_key(id),
        left < INFINITY,
        units(left) == before.active()[id].faded(time, powers[id]),
        before.patches().contains_key(id),
        0 <= i < before.patches()[id]@.len(),
    ensures
        after.active().contains_key(id) <==> units(left) > 0,
        units(left) > 0 ==> {
            &&& after.active()[id].intensity == left
            &&& after.active()[id].decay_per_second == before.active()[id].decay_per_second
            &&& after.active()[id].velocity_curve == before.active()[id].velocity_curve
            &&& after.active()[id].decay_profile == before.active()[id].decay_profile
        },
        units(left) > 0 ==> {
            let (place, kind) = before.patches()[id]@[i];
            let fixture = before.rig()[place as int];
            let channel = fixture.start_address - 1 + fixture.capability_offsets@[kind];
            place < before.rig().len() && fixture.universe == 1
                && fixture.capability_offsets@.contains_key(kind) && 0 <= channel < 512 ==> level8(
                left,
            ) <= after.frame()[channel]
        },
{
    if units(left) > 0 {
        assert(after.active().contains_key(id));
        let shown = after.active()[id].intensity;
        if shown < left {
            lemma_units_ordered(shown, left);
        } else if left < shown {
            lemma_units_ordered(left, shown);
        }
        law_every_patched_channel_is_lit(after, before.external(), id, i);
    }
}

/// After a tick no envelope is lit that was not, and external frames have been used
/// up: each channel is at least theirs now, and the next tick starts without them.
pub proof fn law_ticks_use_up_external_frames(
    before: PulsePlexEngine,
    after: PulsePlexEngine,
    time: u32,
    powers: Map<u16, u32>,
    id: u16,
    channel: int,
)
    requires
        after.is_tick_of(before, time, powers),
        0 <= channel < 512,
    ensures
        after.active().contains_key(id) ==> before.active().contains_key(id),
        after.frame()[channel] >= before.external()[channel],
        after.external()[channel] == 0,
{
    law_external_frame_comes_through(after, before.external());
}

/// The exponent of a tick is five times its time over the seconds in which the
/// behavior is configured to decay, to 66 parts in two to the power of 24 and what a
/// unit makes out: so it does not depend on what else is lit.
pub proof fn law_exponents_go_by_the_configured_decay(
    engine: PulsePlexEngine,
    id: u16,
    config: BehaviorConfig,
    time: u32,
)
    requires
        engine.active().contains_key(id),
        0x3A83_126F <= config.decay_seconds < 0x7F80_0000,
        engine.active()[id].rate() == decay_rate(config.decay_seconds),
    ensures
        ({
            let (d, t) = (units(config.decay_seconds), units(time));
            &&& 0x100_0000 * (engine.exponent(id, time) * d) <= 0x100_0000 * (5 * (one() * t)) + 66
                * (one() * t) + 0x100_0000 * d
            &&& 0x100_0000 * (5 * (one() * t)) <= 0x100_0000 * (engine.exponent(id, time) * d) + 66
                * (one() * t) + 0x100_0000 * d
        }),
{
    law_exponent_is_five_decays(config.decay_seconds, units(time));
}

} // verus!
