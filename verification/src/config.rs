//! The configuration, and its compilation into the numbered form that the
//! engine runs on.

use crate::envelope::{BehaviorConfig, DecayProfile, VelocityCurve};
use crate::fixture::{CapabilityType, FixtureInstance};
use crate::maps::{keys_of, lemma_take_contains};
use crate::text::{decimal, push_decimal, same_text};
use std::collections::HashMap;
use vstd::prelude::*;

verus! {

broadcast use vstd::std_specs::hash::group_hash_axioms;

/// A whole configuration.
#[derive(Debug, Clone, PartialEq)]
pub struct PulsePlexConfig {
    pub midi: MidiConfig,
    pub behavior: Vec<BehaviorDefinition>,
    pub output: OutputConfig,
    pub targets: Vec<TargetConfig>,
    pub shutdown: ShutdownConfig,
}

/// Which device is played, and which behavior each of its notes has.
#[derive(Debug, Clone, PartialEq)]
pub struct MidiConfig {
    pub device_name: String,
    pub mappings: HashMap<u8, String>,
}

/// A behavior under its logical ID.
#[derive(Debug, Clone, PartialEq)]
pub struct BehaviorDefinition {
    pub id: String,
    /// Bit pattern of the seconds from full intensity to none.
    pub decay_seconds: u32,
    pub velocity_curve: VelocityCurve,
    pub decay_profile: DecayProfile,
}

/// Where behaviors show.
#[derive(Debug, Clone, PartialEq)]
pub struct OutputConfig {
    pub artnet: Option<ArtNetConfig>,
    pub dmx: Vec<DmxOutputDefinition>,
    pub hue: Vec<HueOutputDefinition>,
}

/// A behavior on a DMX channel, or on three in a row where it has a color.
#[derive(Debug, Clone, PartialEq)]
pub struct DmxOutputDefinition {
    pub id: String,
    pub channel: usize,
    pub color: Option<[u8; 3]>,
}

/// A behavior on a channel of a Hue entertainment area.
#[derive(Debug, Clone, PartialEq)]
pub struct HueOutputDefinition {
    pub id: String,
    pub channel_id: u8,
    pub color: Option<[u8; 3]>,
}

/// Something that frames are sent to.
#[derive(Debug, PartialEq)]
pub enum TargetConfig {
    ArtNet(ArtNetConfig),
    Hue(HueConfig),
}

#[derive(Debug, PartialEq)]
pub struct ArtNetConfig {
    pub target_ip: String,
    pub universe: u16,
}

#[derive(Debug, PartialEq)]
pub struct HueConfig {
    pub bridge_ip: String,
    pub bridge_id: String,
    pub username: String,
    pub client_key: String,
    pub area_id: String,
}

/// How the lights are left.
#[derive(Debug, Clone, Copy, PartialEq, Eq, Structural)]
pub enum ShutdownMode {
    Blackout,
    Default,
    Restore,
}

#[derive(Debug, Clone, PartialEq)]
pub struct ShutdownConfig {
    pub mode: ShutdownMode,
    /// Channel values, by channel counted from 0.
    pub defaults: Option<HashMap<usize, u8>>,
}

impl Clone for ArtNetConfig {
    fn clone(&self) -> (copy: Self)
        ensures
            copy == *self,
    {
        ArtNetConfig { target_ip: self.target_ip.clone(), universe: self.universe }
    }
}

impl Clone for HueConfig {
    fn clone(&self) -> (copy: Self)
        ensures
            copy == *self,
    {
        HueConfig {
            bridge_ip: self.bridge_ip.clone(),
            bridge_id: self.bridge_id.clone(),
            username: self.username.clone(),
            client_key: self.client_key.clone(),
            area_id: self.area_id.clone(),
        }
    }
}

impl Clone for TargetConfig {
    fn clone(&self) -> (copy: Self)
        ensures
            copy == *self,
    {
        match self {
            TargetConfig::ArtNet(artnet) => TargetConfig::ArtNet(artnet.clone()),
            TargetConfig::Hue(hue) => TargetConfig::Hue(hue.clone()),
        }
    }
}

/// A configuration in which behaviors go by number.
#[derive(Clone)]
pub struct CompiledConfig {
    pub midi_device: String,
    pub midi_id_map: HashMap<u8, usize>,
    pub behaviors: HashMap<usize, BehaviorConfig>,
    pub dmx_outputs: Vec<DmxOutputCompiled>,
    pub hue_outputs: Vec<HueOutputCompiled>,
    pub targets: Vec<TargetConfig>,
    /// The fixtures that are patched.
    pub fixtures: Vec<FixtureInstance>,
    /// The fixture and capability pairs that each behavior drives.
    pub fixture_mappings: HashMap<usize, Vec<(usize, CapabilityType)>>,
}

#[derive(Debug, Clone, Copy)]
pub struct DmxOutputCompiled {
    pub internal_id: usize,
    pub channel: usize,
    pub color: Option<[u8; 3]>,
}

#[derive(Debug, Clone, Copy)]
pub struct HueOutputCompiled {
    pub internal_id: usize,
    pub channel_id: u8,
    pub color: Option<[u8; 3]>,
}

/// Why a configuration does not compile.
#[derive(Debug)]
pub enum ConfigError {
    /// Two behaviors have this ID.
    DuplicateBehavior(String),
    /// This note is mapped to a behavior that is not defined.
    UnknownBehavior { note: u8, behavior: String },
}

impl ConfigError {
    /// The error in words.
    pub open spec fn text(self) -> Seq<char> {
        match self {
            ConfigError::DuplicateBehavior(id) => "Duplicate behavior id '"@ + id@
                + "' in configuration"@,
            ConfigError::UnknownBehavior { note, behavior } => "MIDI mapping for note "@ + decimal(
                note as nat,
            ) + " points to non-existent behavior '"@ + behavior@ + "'"@,
        }
    }

    /// The error in words.
    pub fn message(&self) -> (message: String)
        ensures
            message@ == self.text(),
    {
        match self {
            ConfigError::DuplicateBehavior(id) => {
                let mut message: String = "Duplicate behavior id '".to_owned();
                message.append(id.as_str());
                message.append("' in configuration");
                message
            },
            ConfigError::UnknownBehavior { note, behavior } => {
                let mut message: String = "MIDI mapping for note ".to_owned();
                push_decimal(&mut message, *note as u64);
                message.append(" points to non-existent behavior '");
                message.append(behavior.as_str());
                message.append("'");
                message
            },
        }
    }
}

/// The number of the behavior with the given ID: its place in the list, the
/// last one where there are several.
pub open spec fn position(behaviors: Seq<BehaviorDefinition>, id: Seq<char>) -> Option<usize>
    decreases behaviors.len(),
{
    if behaviors.len() == 0 {
        None
    } else if behaviors.last().id@ == id {
        Some((behaviors.len() - 1) as usize)
    } else {
        position(behaviors.drop_last(), id)
    }
}

/// The behavior at `i` has the ID of an earlier one.
pub open spec fn repeats_earlier(behaviors: Seq<BehaviorDefinition>, i: int) -> bool {
    exists|j: int| 0 <= j < i && (#[trigger] behaviors[j]).id@ == behaviors[i].id@
}

/// No two behaviors have one ID.
pub open spec fn distinct_ids(behaviors: Seq<BehaviorDefinition>) -> bool {
    forall|i: int| 0 <= i < behaviors.len() ==> !#[trigger] repeats_earlier(behaviors, i)
}

/// A behavior without its ID.
pub open spec fn behavior_config(definition: BehaviorDefinition) -> BehaviorConfig {
    BehaviorConfig {
        decay_seconds: definition.decay_seconds,
        velocity_curve: definition.velocity_curve,
        decay_profile: definition.decay_profile,
    }
}

/// The behaviors by number.
pub open spec fn numbered(behaviors: Seq<BehaviorDefinition>) -> Map<usize, BehaviorConfig> {
    Map::new(
        |i: usize| i < behaviors.len(),
        |i: usize| behavior_config(behaviors[i as int]),
    )
}

/// The outputs whose behavior is defined, in order, with its number.
pub open spec fn compiled_dmx(
    behaviors: Seq<BehaviorDefinition>,
    outputs: Seq<DmxOutputDefinition>,
) -> Seq<DmxOutputCompiled>
    decreases outputs.len(),
{
    if outputs.len() == 0 {
        Seq::empty()
    } else {
        let rest = compiled_dmx(behaviors, outputs.drop_last());
        let output = outputs.last();
        match position(behaviors, output.id@) {
            Some(internal_id) => rest.push(
                DmxOutputCompiled { internal_id, channel: output.channel, color: output.color },
            ),
            None => rest,
        }
    }
}

/// The outputs whose behavior is defined, in order, with its number.
pub open spec fn compiled_hue(
    behaviors: Seq<BehaviorDefinition>,
    outputs: Seq<HueOutputDefinition>,
) -> Seq<HueOutputCompiled>
    decreases outputs.len(),
{
    if outputs.len() == 0 {
        Seq::empty()
    } else {
        let rest = compiled_hue(behaviors, outputs.drop_last());
        let output = outputs.last();
        match position(behaviors, output.id@) {
            Some(internal_id) => rest.push(
                HueOutputCompiled {
                    internal_id,
                    channel_id: output.channel_id,
                    color: output.color,
                },
            ),
            None => rest,
        }
    }
}

/// Two Art-Net targets are the same.
pub open spec fn same_artnet(a: ArtNetConfig, b: ArtNetConfig) -> bool {
    a.target_ip@ == b.target_ip@ && a.universe == b.universe
}

/// One of the targets is the given Art-Net one.
pub open spec fn has_artnet(targets: Seq<TargetConfig>, artnet: ArtNetConfig) -> bool {
    exists|i: int|
        0 <= i < targets.len() && (#[trigger] targets[i] matches TargetConfig::ArtNet(existing)
            && same_artnet(existing, artnet))
}

/// The targets, and the Art-Net output after them where it is none of them.
pub open spec fn all_targets(
    targets: Seq<TargetConfig>,
    artnet: Option<ArtNetConfig>,
) -> Seq<TargetConfig> {
    match artnet {
        Some(artnet) => if has_artnet(targets, artnet) {
            targets
        } else {
            targets.push(TargetConfig::ArtNet(artnet))
        },
        None => targets,
    }
}

/// The mapping of `note` points to no behavior.
pub open spec fn dangling(config: PulsePlexConfig, note: u8) -> bool {
    config.midi.mappings@.contains_key(note) && position(
        config.behavior@,
        config.midi.mappings@[note]@,
    ) is None
}

/// Every ID is given once, and every mapping points to a behavior.
pub open spec fn is_linked(config: PulsePlexConfig) -> bool {
    &&& distinct_ids(config.behavior@)
    &&& forall|note: u8| !#[trigger] dangling(config, note)
}

/// What an error says is so: its ID is the first that is given again, or no ID
/// is and its note points to no behavior. Which of several such notes it is
/// stays open.
pub open spec fn is_fault(config: PulsePlexConfig, error: ConfigError) -> bool {
    match error {
        ConfigError::DuplicateBehavior(id) => exists|i: int|
            {
                &&& 0 <= i < config.behavior@.len()
                &&& #[trigger] repeats_earlier(config.behavior@, i)
                &&& forall|j: int| 0 <= j < i ==> !#[trigger] repeats_earlier(config.behavior@, j)
                &&& id@ == config.behavior@[i].id@
            },
        ConfigError::UnknownBehavior { note, behavior } => {
            &&& distinct_ids(config.behavior@)
            &&& dangling(config, note)
            &&& behavior@ == config.midi.mappings@[note]@
        },
    }
}

impl PulsePlexConfig {
    /// Resolves every logical ID to a number.
    pub fn compile(&self) -> (result: Result<CompiledConfig, ConfigError>)
        ensures
            match result {
                Ok(compiled) => {
                    &&& is_linked(*self)
                    &&& compiled.midi_device == self.midi.device_name
                    &&& compiled.midi_id_map@.dom() == self.midi.mappings@.dom()
                    &&& forall|note: u8| #[trigger]
                        compiled.midi_id_map@.contains_key(note) ==> position(
                            self.behavior@,
                            self.midi.mappings@[note]@,
                        ) == Some(compiled.midi_id_map@[note])
                    &&& forall|note: u8| #[trigger]
                        compiled.midi_id_map@.contains_key(note) ==> {
                            let number = compiled.midi_id_map@[note] as int;
                            &&& 0 <= number < self.behavior@.len()
                            &&& self.behavior@[number].id@ == self.midi.mappings@[note]@
                        }
                    &&& compiled.behaviors@ == numbered(self.behavior@)
                    &&& forall|i: usize| #[trigger]
                        compiled.behaviors@.contains_key(i) <==> i < self.behavior@.len()
                    &&& forall|i: usize| #[trigger]
                        compiled.behaviors@.contains_key(i) ==> {
                            let (given, made) = (self.behavior@[i as int], compiled.behaviors@[i]);
                            &&& made.decay_seconds == given.decay_seconds
                            &&& made.velocity_curve == given.velocity_curve
                            &&& made.decay_profile == given.decay_profile
                        }
                    &&& compiled.dmx_outputs@ == compiled_dmx(self.behavior@, self.output.dmx@)
                    &&& compiled.hue_outputs@ == compiled_hue(self.behavior@, self.output.hue@)
                    &&& compiled.targets@ == all_targets(self.targets@, self.output.artnet)
                    &&& compiled.fixtures@ == Seq::<FixtureInstance>::empty()
                    &&& compiled.fixture_mappings@ == Map::<
                        usize,
                        Vec<(usize, CapabilityType)>,
                    >::empty()
                },
                Err(error) => is_fault(*self, error),
            },
    {
        let ghost defs = self.behavior@;
        let behaviors: HashMap<usize, BehaviorConfig> = match number_behaviors(&self.behavior) {
            Ok(behaviors) => behaviors,
            Err(id) => {
                return Err(ConfigError::DuplicateBehavior(id));
            },
        };

        let notes: Vec<u8> = keys_of(&self.midi.mappings);
        let mut midi_id_map: HashMap<u8, usize> = HashMap::new();
        let mut n: usize = 0;
        while n < notes.len()
            invariant
                defs == self.behavior@,
                distinct_ids(defs),
                n <= notes@.len(),
                forall|note: u8| #[trigger]
                    notes@.contains(note) <==> self.midi.mappings@.contains_key(note),
                forall|note: u8| #[trigger]
                    midi_id_map@.contains_key(note) <==> notes@.take(n as int).contains(note),
                forall|note: u8| #[trigger]
                    midi_id_map@.contains_key(note) ==> position(
                        defs,
                        self.midi.mappings@[note]@,
                    ) == Some(midi_id_map@[note]),
            decreases notes@.len() - n,
        {
            let note: u8 = notes[n];
            assert(notes@.contains(note));
            let entry: Option<&String> = self.midi.mappings.get(&note);
            if let Some(behavior_id) = entry {
                match find_behavior(&self.behavior, behavior_id.as_str()) {
                    Some(internal_id) => {
                        midi_id_map.insert(note, internal_id);
                    },
                    None => {
                        assert(dangling(*self, note));
                        return Err(
                            ConfigError::UnknownBehavior { note, behavior: behavior_id.clone() },
                        );
                    },
                }
            }
            proof {
                lemma_take_contains(notes@, n as int);
            }
            n += 1;
        }
        proof {
            assert(notes@.take(n as int) =~= notes@);
            assert(midi_id_map@.dom() =~= self.midi.mappings@.dom());
            assert forall|note: u8| !#[trigger] dangling(*self, note) by {
                assert(notes@.contains(note) || !notes@.contains(note));
                if self.midi.mappings@.contains_key(note) {
                    assert(midi_id_map@.contains_key(note));
                }
            }
        }

        proof {
            assert(defs.len() == self.behavior.len());
            assert forall|note: u8| #[trigger] midi_id_map@.contains_key(note) implies {
                let number = midi_id_map@[note] as int;
                &&& 0 <= number < defs.len()
                &&& defs[number].id@ == self.midi.mappings@[note]@
            } by {
                law_ids_resolve_to_behaviors(defs, self.midi.mappings@[note]@);
            }
        }
        let dmx_outputs: Vec<DmxOutputCompiled> = compile_dmx(&self.behavior, &self.output.dmx);
        let hue_outputs: Vec<HueOutputCompiled> = compile_hue(&self.behavior, &self.output.hue);

        let mut targets: Vec<TargetConfig> = clone_targets(&self.targets);
        if let Some(artnet) = &self.output.artnet {
            if !contains_artnet(&targets, artnet) {
                targets.push(TargetConfig::ArtNet(artnet.clone()));
            }
        }

        Ok(
            CompiledConfig {
                midi_device: self.midi.device_name.clone(),
                midi_id_map,
                behaviors,
                dmx_outputs,
                hue_outputs,
                targets,
                fixtures: Vec::new(),
                fixture_mappings: HashMap::new(),
            },
        )
    }
}

/// The behaviors by number, or the first ID that is there for the second time.
fn number_behaviors(definitions: &Vec<BehaviorDefinition>) -> (result: Result<
    HashMap<usize, BehaviorConfig>,
    String,
>)
    ensures
        match result {
            Ok(behaviors) => distinct_ids(definitions@) && behaviors@ == numbered(definitions@),
            Err(id) => exists|i: int|
                {
                    &&& 0 <= i < definitions@.len()
                    &&& #[trigger] repeats_earlier(definitions@, i)
                    &&& forall|j: int| 0 <= j < i ==> !#[trigger] repeats_earlier(definitions@, j)
                    &&& id@ == definitions@[i].id@
                },
        },
{
    let mut behaviors: HashMap<usize, BehaviorConfig> = HashMap::new();
    let mut i: usize = 0;
    assert(behaviors@ =~= numbered(definitions@.take(0)));
    while i < definitions.len()
        invariant
            i <= definitions@.len(),
            forall|j: int| 0 <= j < i ==> !#[trigger] repeats_earlier(definitions@, j),
            behaviors@ == numbered(definitions@.take(i as int)),
        decreases definitions@.len() - i,
    {
        let definition: &BehaviorDefinition = &definitions[i];
        let mut j: usize = 0;
        while j < i
            invariant
                j <= i < definitions@.len(),
                *definition == definitions@[i as int],
                forall|k: int| 0 <= k < i ==> !#[trigger] repeats_earlier(definitions@, k),
                forall|k: int| 0 <= k < j ==> (#[trigger] definitions@[k]).id@ != definition.id@,
            decreases i - j,
        {
            if same_text(definitions[j].id.as_str(), definition.id.as_str()) {
                assert(repeats_earlier(definitions@, i as int));
                return Err(definition.id.clone());
            }
            j += 1;
        }
        assert(!repeats_earlier(definitions@, i as int));
        behaviors.insert(
            i,
            BehaviorConfig {
                decay_seconds: definition.decay_seconds,
                velocity_curve: definition.velocity_curve,
                decay_profile: definition.decay_profile,
            },
        );
        assert(behaviors@ =~= numbered(definitions@.take(i + 1)));
        i += 1;
    }
    assert(definitions@.take(i as int) =~= definitions@);
    Ok(behaviors)
}

/// The number of the behavior with the given ID.
fn find_behavior(behaviors: &Vec<BehaviorDefinition>, id: &str) -> (found: Option<usize>)
    ensures
        found == position(behaviors@, id@),
{
    let mut i: usize = behaviors.len();
    assert(behaviors@.take(i as int) =~= behaviors@);
    while i > 0
        invariant
            i <= behaviors@.len(),
            position(behaviors@, id@) == position(behaviors@.take(i as int), id@),
        decreases i,
    {
        i -= 1;
        let ghost left = behaviors@.take(i + 1);
        assert(left.drop_last() =~= behaviors@.take(i as int));
        assert(left.last() == behaviors@[i as int]);
        if same_text(behaviors[i].id.as_str(), id) {
            return Some(i);
        }
    }
    None
}

/// The DMX outputs whose behavior is defined.
fn compile_dmx(
    behaviors: &Vec<BehaviorDefinition>,
    outputs: &Vec<DmxOutputDefinition>,
) -> (compiled: Vec<DmxOutputCompiled>)
    ensures
        compiled@ == compiled_dmx(behaviors@, outputs@),
{
    let mut compiled: Vec<DmxOutputCompiled> = Vec::new();
    let mut i: usize = 0;
    while i < outputs.len()
        invariant
            i <= outputs@.len(),
            compiled@ == compiled_dmx(behaviors@, outputs@.take(i as int)),
        decreases outputs@.len() - i,
    {
        let output: &DmxOutputDefinition = &outputs[i];
        assert(outputs@.take(i + 1).drop_last() =~= outputs@.take(i as int));
        assert(outputs@.take(i + 1).last() == *output);
        if let Some(internal_id) = find_behavior(behaviors, output.id.as_str()) {
            compiled.push(
                DmxOutputCompiled { internal_id, channel: output.channel, color: output.color },
            );
        }
        i += 1;
    }
    assert(outputs@.take(i as int) =~= outputs@);
    compiled
}

/// The Hue outputs whose behavior is defined.
fn compile_hue(
    behaviors: &Vec<BehaviorDefinition>,
    outputs: &Vec<HueOutputDefinition>,
) -> (compiled: Vec<HueOutputCompiled>)
    ensures
        compiled@ == compiled_hue(behaviors@, outputs@),
{
    let mut compiled: Vec<HueOutputCompiled> = Vec::new();
    let mut i: usize = 0;
    while i < outputs.len()
        invariant
            i <= outputs@.len(),
            compiled@ == compiled_hue(behaviors@, outputs@.take(i as int)),
        decreases outputs@.len() - i,
    {
        let output: &HueOutputDefinition = &outputs[i];
        assert(outputs@.take(i + 1).drop_last() =~= outputs@.take(i as int));
        assert(outputs@.take(i + 1).last() == *output);
        if let Some(internal_id) = find_behavior(behaviors, output.id.as_str()) {
            compiled.push(
                HueOutputCompiled {
                    internal_id,
                    channel_id: output.channel_id,
                    color: output.color,
                },
            );
        }
        i += 1;
    }
    assert(outputs@.take(i as int) =~= outputs@);
    compiled
}

/// A copy of the targets.
fn clone_targets(targets: &Vec<TargetConfig>) -> (copy: Vec<TargetConfig>)
    ensures
        copy@ == targets@,
{
    let mut copy: Vec<TargetConfig> = Vec::new();
    let mut i: usize = 0;
    while i < targets.len()
        invariant
            i <= targets@.len(),
            copy@ == targets@.take(i as int),
        decreases targets@.len() - i,
    {
        copy.push(targets[i].clone());
        assert(copy@ =~= targets@.take(i + 1));
        i += 1;
    }
    assert(targets@.take(i as int) =~= targets@);
    copy
}

/// Whether one of the targets is the given Art-Net one.
fn contains_artnet(targets: &Vec<TargetConfig>, artnet: &ArtNetConfig) -> (found: bool)
    ensures
        found == has_artnet(targets@, *artnet),
{
    let mut i: usize = 0;
    while i < targets.len()
        invariant
            i <= targets@.len(),
            forall|j: int|
                0 <= j < i ==> !(#[trigger] targets@[j] matches TargetConfig::ArtNet(existing)
                    && same_artnet(existing, *artnet)),
        decreases targets@.len() - i,
    {
        if let TargetConfig::ArtNet(existing) = &targets[i] {
            if existing.universe == artnet.universe && same_text(
                existing.target_ip.as_str(),
                artnet.target_ip.as_str(),
            ) {
                assert(targets@[i as int] matches TargetConfig::ArtNet(found) && same_artnet(
                    found,
                    *artnet,
                ));
                return true;
            }
        }
        i += 1;
    }
    false
}

/// An ID that resolves does so to the number of a behavior with that ID.
pub proof fn law_ids_resolve_to_behaviors(behaviors: Seq<BehaviorDefinition>, id: Seq<char>)
    requires
        behaviors.len() <= usize::MAX,
    ensures
        match position(behaviors, id) {
            Some(n) => n < behaviors.len() && behaviors[n as int].id@ == id && numbered(
                behaviors,
            ).contains_key(n),
            None => forall|i: int|
                0 <= i < behaviors.len() ==> (#[trigger] behaviors[i]).id@ != id,
        },
    decreases behaviors.len(),
{
    if behaviors.len() > 0 && behaviors.last().id@ != id {
        let rest = behaviors.drop_last();
        law_ids_resolve_to_behaviors(rest, id);
        if position(rest, id) is None {
            assert forall|i: int| 0 <= i < behaviors.len() implies (#[trigger] behaviors[i]).id@
                != id by {
                if i < rest.len() {
                    assert(rest[i].id@ != id);
                }
            }
        }
    }
}

/// Where no two behaviors have one ID, each ID resolves to its own behavior.
pub proof fn law_own_id_resolves(behaviors: Seq<BehaviorDefinition>, i: int)
    requires
        behaviors.len() <= usize::MAX,
        distinct_ids(behaviors),
        0 <= i < behaviors.len(),
    ensures
        position(behaviors, behaviors[i].id@) == Some(i as usize),
{
    law_ids_resolve_to_behaviors(behaviors, behaviors[i].id@);
    let n = position(behaviors, behaviors[i].id@)->0 as int;
    if n < i {
        assert(behaviors[n].id@ == behaviors[i].id@);
        assert(repeats_earlier(behaviors, i));
    } else if i < n {
        assert(behaviors[i].id@ == behaviors[n].id@);
        assert(repeats_earlier(behaviors, n));
    }
}

/// The Art-Net output is among the targets, and naming it as a target too
/// makes no difference.
pub proof fn law_artnet_output_is_one_target(targets: Seq<TargetConfig>, artnet: ArtNetConfig)
    ensures
        has_artnet(all_targets(targets, Some(artnet)), artnet),
        all_targets(all_targets(targets, Some(artnet)), Some(artnet)) == all_targets(
            targets,
            Some(artnet),
        ),
{
    if !has_artnet(targets, artnet) {
        let all = targets.push(TargetConfig::ArtNet(artnet));
        assert(all[targets.len() as int] matches TargetConfig::ArtNet(last) && same_artnet(
            last,
            artnet,
        ));
    }
}

/// What an error says is wrong with a configuration is wrong with it: one that
/// is linked has no fault.
pub proof fn law_linked_configurations_have_no_fault(config: PulsePlexConfig, error: ConfigError)
    requires
        is_linked(config),
    ensures
        !is_fault(config, error),
{
}

/// A behavior keeps its physics when it gets its number, which is its place in
/// the list: the seconds that it takes, its velocity curve and its decay profile
/// are those of its definition. There is no other number.
pub proof fn law_numbered_behaviors_keep_their_physics(
    behaviors: Seq<BehaviorDefinition>,
    number: usize,
)
    ensures
        numbered(behaviors).contains_key(number) <==> number < behaviors.len(),
        number < behaviors.len() ==> {
            let (given, made) = (behaviors[number as int], numbered(behaviors)[number]);
            &&& made.decay_seconds == given.decay_seconds
            &&& made.velocity_curve == given.velocity_curve
            &&& made.decay_profile == given.decay_profile
        },
{
}

/// A compiled DMX output is one of the configured ones: its channel and color,
/// and the number of a behavior with its ID.
pub open spec fn is_dmx_of(
    behaviors: Seq<BehaviorDefinition>,
    given: DmxOutputDefinition,
    made: DmxOutputCompiled,
) -> bool {
    &&& made.channel == given.channel
    &&& made.color == given.color
    &&& made.internal_id < behaviors.len()
    &&& behaviors[made.internal_id as int].id@ == given.id@
}

/// A compiled Hue output is one of the configured ones: its channel and color,
/// and the number of a behavior with its ID.
pub open spec fn is_hue_of(
    behaviors: Seq<BehaviorDefinition>,
    given: HueOutputDefinition,
    made: HueOutputCompiled,
) -> bool {
    &&& made.channel_id == given.channel_id
    &&& made.color == given.color
    &&& made.internal_id < behaviors.len()
    &&& behaviors[made.internal_id as int].id@ == given.id@
}

/// One of the behaviors has the given ID.
pub open spec fn is_defined(behaviors: Seq<BehaviorDefinition>, id: Seq<char>) -> bool {
    exists|i: int| 0 <= i < behaviors.len() && (#[trigger] behaviors[i]).id@ == id
}

/// Where every DMX output is of a defined behavior, each is compiled, in order,
/// with its channel, its color and the number of that behavior.
pub proof fn law_dmx_outputs_are_compiled_one_by_one(
    behaviors: Seq<BehaviorDefinition>,
    outputs: Seq<DmxOutputDefinition>,
)
    requires
        behaviors.len() <= usize::MAX,
        forall|i: int|
            0 <= i < outputs.len() ==> is_defined(behaviors, (#[trigger] outputs[i]).id@),
    ensures
        compiled_dmx(behaviors, outputs).len() == outputs.len(),
        forall|i: int|
            0 <= i < outputs.len() ==> is_dmx_of(
                behaviors,
                outputs[i],
                #[trigger] compiled_dmx(behaviors, outputs)[i],
            ),
    decreases outputs.len(),
{
    if outputs.len() > 0 {
        let rest = outputs.drop_last();
        assert forall|i: int| 0 <= i < rest.len() implies is_defined(
            behaviors,
            (#[trigger] rest[i]).id@,
        ) by {
            assert(rest[i] == outputs[i]);
        }
        law_dmx_outputs_are_compiled_one_by_one(behaviors, rest);
        let last = outputs[outputs.len() - 1];
        assert(is_defined(behaviors, last.id@));
        law_ids_resolve_to_behaviors(behaviors, last.id@);
    }
}

/// Where every Hue output is of a defined behavior, each is compiled, in order,
/// with its channel, its color and the number of that behavior.
pub proof fn law_hue_outputs_are_compiled_one_by_one(
    behaviors: Seq<BehaviorDefinition>,
    outputs: Seq<HueOutputDefinition>,
)
    requires
        behaviors.len() <= usize::MAX,
        forall|i: int|
            0 <= i < outputs.len() ==> is_defined(behaviors, (#[trigger] outputs[i]).id@),
    ensures
        compiled_hue(behaviors, outputs).len() == outputs.len(),
        forall|i: int|
            0 <= i < outputs.len() ==> is_hue_of(
                behaviors,
                outputs[i],
                #[trigger] compiled_hue(behaviors, outputs)[i],
            ),
    decreases outputs.len(),
{
    if outputs.len() > 0 {
        let rest = outputs.drop_last();
        assert forall|i: int| 0 <= i < rest.len() implies is_defined(
            behaviors,
            (#[trigger] rest[i]).id@,
        ) by {
            assert(rest[i] == outputs[i]);
        }
        law_hue_outputs_are_compiled_one_by_one(behaviors, rest);
        let last = outputs[outputs.len() - 1];
        assert(is_defined(behaviors, last.id@));
        law_ids_resolve_to_behaviors(behaviors, last.id@);
    }
}

/// The given output shows among the compiled ones.
pub open spec fn has_dmx(
    behaviors: Seq<BehaviorDefinition>,
    made: Seq<DmxOutputCompiled>,
    given: DmxOutputDefinition,
) -> bool {
    exists|k: int| 0 <= k < made.len() && is_dmx_of(behaviors, given, #[trigger] made[k])
}

/// The compiled output stems from one of the given ones.
pub open spec fn dmx_is_given(
    behaviors: Seq<BehaviorDefinition>,
    given: Seq<DmxOutputDefinition>,
    made: DmxOutputCompiled,
) -> bool {
    exists|i: int| 0 <= i < given.len() && is_dmx_of(behaviors, #[trigger] given[i], made)
}

/// A DMX output is compiled exactly where its behavior is defined, and none is
/// made up.
pub proof fn law_dmx_outputs_of_defined_behaviors_are_compiled(
    behaviors: Seq<BehaviorDefinition>,
    outputs: Seq<DmxOutputDefinition>,
)
    requires
        behaviors.len() <= usize::MAX,
    ensures
        forall|i: int|
            0 <= i < outputs.len() && is_defined(behaviors, (#[trigger] outputs[i]).id@)
                ==> has_dmx(behaviors, compiled_dmx(behaviors, outputs), outputs[i]),
        forall|k: int|
            0 <= k < compiled_dmx(behaviors, outputs).len() ==> dmx_is_given(
                behaviors,
                outputs,
                #[trigger] compiled_dmx(behaviors, outputs)[k],
            ),
    decreases outputs.len(),
{
    if outputs.len() > 0 {
        let (rest, last, end) = (outputs.drop_last(), outputs.last(), outputs.len() - 1);
        law_dmx_outputs_of_defined_behaviors_are_compiled(behaviors, rest);
        law_ids_resolve_to_behaviors(behaviors, last.id@);
        let (older, all) = (compiled_dmx(behaviors, rest), compiled_dmx(behaviors, outputs));
        assert forall|i: int|
            0 <= i < outputs.len() && is_defined(
                behaviors,
                (#[trigger] outputs[i]).id@,
            ) implies has_dmx(behaviors, all, outputs[i]) by {
            if i < end {
                assert(has_dmx(behaviors, older, rest[i]));
                let k = choose|k: int|
                    0 <= k < older.len() && is_dmx_of(behaviors, rest[i], #[trigger] older[k]);
                assert(all[k] == older[k]);
            } else {
                assert(is_dmx_of(behaviors, last, all[all.len() - 1]));
            }
        }
        assert forall|k: int| 0 <= k < all.len() implies dmx_is_given(
            behaviors,
            outputs,
            #[trigger] all[k],
        ) by {
            if k < older.len() {
                assert(dmx_is_given(behaviors, rest, older[k]));
                let i = choose|i: int|
                    0 <= i < rest.len() && is_dmx_of(behaviors, #[trigger] rest[i], older[k]);
                assert(outputs[i] == rest[i]);
            } else {
                assert(is_dmx_of(behaviors, outputs[end], all[k]));
            }
        }
    }
}

/// The given output shows among the compiled ones.
pub open spec fn has_hue_output(
    behaviors: Seq<BehaviorDefinition>,
    made: Seq<HueOutputCompiled>,
    given: HueOutputDefinition,
) -> bool {
    exists|k: int| 0 <= k < made.len() && is_hue_of(behaviors, given, #[trigger] made[k])
}

/// The compiled output stems from one of the given ones.
pub open spec fn hue_is_given(
    behaviors: Seq<BehaviorDefinition>,
    given: Seq<HueOutputDefinition>,
    made: HueOutputCompiled,
) -> bool {
    exists|i: int| 0 <= i < given.len() && is_hue_of(behaviors, #[trigger] given[i], made)
}

/// A Hue output is compiled exactly where its behavior is defined, and none is
/// made up.
pub proof fn law_hue_outputs_of_defined_behaviors_are_compiled(
    behaviors: Seq<BehaviorDefinition>,
    outputs: Seq<HueOutputDefinition>,
)
    requires
        behaviors.len() <= usize::MAX,
    ensures
        forall|i: int|
            0 <= i < outputs.len() && is_defined(behaviors, (#[trigger] outputs[i]).id@)
                ==> has_hue_output(behaviors, compiled_hue(behaviors, outputs), outputs[i]),
        forall|k: int|
            0 <= k < compiled_hue(behaviors, outputs).len() ==> hue_is_given(
                behaviors,
                outputs,
                #[trigger] compiled_hue(behaviors, outputs)[k],
            ),
    decreases outputs.len(),
{
    if outputs.len() > 0 {
        let (rest, last, end) = (outputs.drop_last(), outputs.last(), outputs.len() - 1);
        law_hue_outputs_of_defined_behaviors_are_compiled(behaviors, rest);
        law_ids_resolve_to_behaviors(behaviors, last.id@);
        let (older, all) = (compiled_hue(behaviors, rest), compiled_hue(behaviors, outputs));
        assert forall|i: int|
            0 <= i < outputs.len() && is_defined(
                behaviors,
                (#[trigger] outputs[i]).id@,
            ) implies has_hue_output(behaviors, all, outputs[i]) by {
            if i < end {
                assert(has_hue_output(behaviors, older, rest[i]));
                let k = choose|k: int|
                    0 <= k < older.len() && is_hue_of(behaviors, rest[i], #[trigger] older[k]);
                assert(all[k] == older[k]);
            } else {
                assert(is_hue_of(behaviors, last, all[all.len() - 1]));
            }
        }
        assert forall|k: int| 0 <= k < all.len() implies hue_is_given(
            behaviors,
            outputs,
            #[trigger] all[k],
        ) by {
            if k < older.len() {
                assert(hue_is_given(behaviors, rest, older[k]));
                let i = choose|i: int|
                    0 <= i < rest.len() && is_hue_of(behaviors, #[trigger] rest[i], older[k]);
                assert(outputs[i] == rest[i]);
            } else {
                assert(is_hue_of(behaviors, outputs[end], all[k]));
            }
        }
    }
}

/// The configured targets all stay, in order, and the Art-Net output comes after
/// them unless one of them has its address and universe.
pub proof fn law_targets_are_collected(
    targets: Seq<TargetConfig>,
    artnet: Option<ArtNetConfig>,
)
    ensures
        ({
            let all = all_targets(targets, artnet);
            &&& targets.len() <= all.len() <= targets.len() + 1
            &&& forall|i: int| 0 <= i < targets.len() ==> #[trigger] all[i] == targets[i]
            &&& artnet is None ==> all.len() == targets.len()
            &&& artnet matches Some(output) ==> {
                let named = exists|i: int|
                    0 <= i < targets.len() && (#[trigger] targets[i] matches TargetConfig::ArtNet(a)
                        && a.target_ip@ == output.target_ip@ && a.universe == output.universe);
                if named {
                    all.len() == targets.len()
                } else {
                    all.len() == targets.len() + 1 && all.last() == TargetConfig::ArtNet(output)
                }
            }
        }),
{
    if let Some(output) = artnet {
        if has_artnet(targets, output) {
            let i = choose|i: int|
                0 <= i < targets.len() && (#[trigger] targets[i] matches TargetConfig::ArtNet(
                    existing,
                ) && same_artnet(existing, output));
            assert(targets[i] matches TargetConfig::ArtNet(a) && a.target_ip@ == output.target_ip@
                && a.universe == output.universe);
        } else {
            assert forall|i: int| 0 <= i < targets.len() implies !(
            #[trigger] targets[i] matches TargetConfig::ArtNet(a) && a.target_ip@
                == output.target_ip@ && a.universe == output.universe) by {}
        }
    }
}

/// A configuration is linked exactly where no two behaviors have one ID and every
/// note is mapped to the ID of a behavior.
pub proof fn law_linked_is_distinct_and_defined(config: PulsePlexConfig)
    requires
        config.behavior@.len() <= usize::MAX,
    ensures
        is_linked(config) <==> {
            &&& forall|i: int, j: int|
                0 <= i < j < config.behavior@.len() ==> (#[trigger] config.behavior@[i]).id@ != (
                #[trigger] config.behavior@[j]).id@
            &&& forall|note: u8| #[trigger]
                config.midi.mappings@.contains_key(note) ==> is_defined(
                    config.behavior@,
                    config.midi.mappings@[note]@,
                )
        },
{
    let (defs, notes) = (config.behavior@, config.midi.mappings@);
    assert forall|note: u8| notes.contains_key(note) implies (position(defs, #[trigger] notes[note]@)
        is Some <==> is_defined(defs, notes[note]@)) by {
        law_ids_resolve_to_behaviors(defs, notes[note]@);
    }
    if is_linked(config) {
        assert forall|i: int, j: int| 0 <= i < j < defs.len() implies (#[trigger] defs[i]).id@ != (
        #[trigger] defs[j]).id@ by {
            assert(!repeats_earlier(defs, j));
        }
        assert forall|note: u8| #[trigger] notes.contains_key(note) implies is_defined(
            defs,
            notes[note]@,
        ) by {
            assert(!dangling(config, note));
        }
    } else if forall|i: int, j: int|
        0 <= i < j < defs.len() ==> (#[trigger] defs[i]).id@ != (#[trigger] defs[j]).id@ {
        assert(distinct_ids(defs));
        let note = choose|note: u8| #[trigger] dangling(config, note);
        assert(notes.contains_key(note));
    }
}

/// What an error names is wrong: an ID that two behaviors have, or a note whose
/// behavior is not defined.
pub proof fn law_errors_name_what_is_wrong(config: PulsePlexConfig, error: ConfigError)
    requires
        config.behavior@.len() <= usize::MAX,
        is_fault(config, error),
    ensures
        match error {
            ConfigError::DuplicateBehavior(id) => exists|i: int, j: int|
                0 <= i < j < config.behavior@.len() && (#[trigger] config.behavior@[i]).id@ == id@
                    && (#[trigger] config.behavior@[j]).id@ == id@,
            ConfigError::UnknownBehavior { note, behavior } => {
                &&& config.midi.mappings@.contains_key(note)
                &&& config.midi.mappings@[note]@ == behavior@
                &&& !is_defined(config.behavior@, behavior@)
            },
        },
{
    let defs = config.behavior@;
    match error {
        ConfigError::DuplicateBehavior(id) => {
            let j = choose|j: int|
                0 <= j < defs.len() && #[trigger] repeats_earlier(defs, j) && id@ == defs[j].id@;
            let i = choose|i: int| 0 <= i < j && (#[trigger] defs[i]).id@ == defs[j].id@;
            assert(defs[i].id@ == id@ && defs[j].id@ == id@);
        },
        ConfigError::UnknownBehavior { note, behavior } => {
            law_ids_resolve_to_behaviors(defs, behavior@);
        },
    }
}

} // verus!
