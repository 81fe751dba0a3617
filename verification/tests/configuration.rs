use std::collections::HashMap;

use pulseplex::check::{
    check_channels, check_config, check_links, check_target, conclude, AddressForm, ChannelFinding,
    CheckFailure,
};
use pulseplex::config::{
    ArtNetConfig, BehaviorDefinition, ConfigError, DmxOutputDefinition, HueConfig,
    HueOutputDefinition, MidiConfig, OutputConfig, PulsePlexConfig, ShutdownConfig, ShutdownMode,
    TargetConfig,
};
use pulseplex::daemon::{
    choose_device, config_place, device_found, has_device, hue_mappings, hue_target, is_quit_key,
    narrow_keys, narrow_values, needs_setup, next_deadline, time_left, ConfigPlace, DeviceChoice,
    TICK_INTERVAL,
};
use pulseplex::edit::{
    redirect_hue, relink_hue, set_hue_text, set_midi_device, update_hue_ip, update_hue_link,
    update_midi_device, EditError,
};
use pulseplex::envelope::{DecayProfile, VelocityCurve};
use pulseplex::midi::{find_midi_port, list_midi_devices, MidiSource};
use pulseplex::source::SourceEvent;

fn behavior(id: &str, seconds: f32) -> BehaviorDefinition {
    BehaviorDefinition {
        id: id.to_string(),
        decay_seconds: seconds.to_bits(),
        velocity_curve: VelocityCurve::Hard,
        decay_profile: DecayProfile::Exponential,
    }
}

fn artnet(target_ip: &str, universe: u16) -> ArtNetConfig {
    ArtNetConfig { target_ip: target_ip.to_string(), universe }
}

fn hue(bridge_ip: &str) -> HueConfig {
    HueConfig {
        bridge_ip: bridge_ip.to_string(),
        bridge_id: "id".to_string(),
        username: "user".to_string(),
        client_key: "00".to_string(),
        area_id: "area".to_string(),
    }
}

fn dmx(id: &str, channel: usize, color: Option<[u8; 3]>) -> DmxOutputDefinition {
    DmxOutputDefinition { id: id.to_string(), channel, color }
}

fn light(id: &str, channel_id: u8, color: Option<[u8; 3]>) -> HueOutputDefinition {
    HueOutputDefinition { id: id.to_string(), channel_id, color }
}

fn config() -> PulsePlexConfig {
    PulsePlexConfig {
        midi: MidiConfig {
            device_name: "Kit".to_string(),
            mappings: HashMap::from([(36, "kick".to_string()), (38, "snare".to_string())]),
        },
        behavior: vec![behavior("snare", 0.5), behavior("kick", 1.5)],
        output: OutputConfig {
            artnet: None,
            dmx: vec![
                dmx("kick", 10, None),
                dmx("nobody", 11, None),
                dmx("snare", 12, Some([1, 2, 3])),
            ],
            hue: vec![light("nobody", 4, None), light("snare", 5, Some([9, 8, 7]))],
        },
        targets: vec![TargetConfig::ArtNet(artnet("10.0.0.1:6454", 0))],
        shutdown: ShutdownConfig { mode: ShutdownMode::Blackout, defaults: None },
    }
}

#[test]
fn compiling_numbers_the_behaviors() {
    let compiled = config().compile().unwrap();
    assert_eq!(compiled.midi_device, "Kit");
    assert_eq!(compiled.midi_id_map, HashMap::from([(36, 1), (38, 0)]));
    assert_eq!(compiled.behaviors.len(), 2);
    assert_eq!(compiled.behaviors[&0].decay_seconds, 0.5f32.to_bits());
    assert_eq!(compiled.behaviors[&1].decay_seconds, 1.5f32.to_bits());
    assert_eq!(compiled.behaviors[&1].velocity_curve, VelocityCurve::Hard);
    assert_eq!(compiled.behaviors[&1].decay_profile, DecayProfile::Exponential);
    let outputs: Vec<_> = compiled
        .dmx_outputs
        .iter()
        .map(|d| (d.internal_id, d.channel, d.color))
        .collect();
    assert_eq!(outputs, vec![(1, 10, None), (0, 12, Some([1, 2, 3]))]);
    let mappings = hue_mappings(&compiled.hue_outputs);
    assert_eq!(mappings.len(), 1);
    assert_eq!(mappings[0].internal_id, 0);
    assert_eq!(mappings[0].channel_id, 5);
    assert_eq!(mappings[0].color, Some([9, 8, 7]));
    assert_eq!(compiled.targets, config().targets);
    assert!(compiled.fixtures.is_empty() && compiled.fixture_mappings.is_empty());
}

#[test]
fn artnet_output_becomes_a_target_once() {
    let mut given = config();
    given.output.artnet = Some(artnet("10.0.0.2:6454", 3));
    let compiled = given.compile().unwrap();
    assert_eq!(compiled.targets.len(), 2);
    assert_eq!(compiled.targets[1], TargetConfig::ArtNet(artnet("10.0.0.2:6454", 3)));
    given.targets.push(TargetConfig::ArtNet(artnet("10.0.0.2:6454", 3)));
    assert_eq!(given.compile().unwrap().targets.len(), 2);
}

#[test]
fn duplicate_behaviors_do_not_compile() {
    let mut given = config();
    given.behavior.push(behavior("snare", 9.0));
    let error = given.compile().err().unwrap();
    assert!(matches!(&error, ConfigError::DuplicateBehavior(id) if id == "snare"));
    assert_eq!(error.message(), "Duplicate behavior id 'snare' in configuration");
}

#[test]
fn dangling_notes_do_not_compile() {
    let mut given = config();
    given.midi.mappings.insert(40, "tom".to_string());
    let error = given.compile().err().unwrap();
    assert_eq!(
        error.message(),
        "MIDI mapping for note 40 points to non-existent behavior 'tom'"
    );
    assert!(matches!(error, ConfigError::UnknownBehavior { note: 40, .. }));
    let failure = check_links(&given).unwrap_err();
    assert_eq!(
        failure.message(),
        "Configuration Error: MIDI mapping for note 40 points to non-existent behavior 'tom'"
    );
    assert!(matches!(failure, CheckFailure::Link(_)));
}

#[test]
fn configurations_need_a_target() {
    assert!(check_links(&config()).is_ok());
    let mut given = config();
    given.targets.clear();
    let failure = check_links(&given).unwrap_err();
    assert!(matches!(failure, CheckFailure::NoTargets));
    assert_eq!(failure.message(), "Error: No lighting targets configured.");
}

#[test]
fn addresses_are_judged_by_their_form() {
    let target = TargetConfig::ArtNet(artnet("node", 0));
    assert_eq!(
        check_target(&target, AddressForm::Literal).unwrap(),
        "Network (Art-Net): Target IP/Port format is valid"
    );
    assert_eq!(
        check_target(&target, AddressForm::Hostname).unwrap(),
        "Network: 'node' is a valid hostname/shorthand, but not a literal IP"
    );
    let failure = check_target(&target, AddressForm::Invalid).unwrap_err();
    assert_eq!(failure.message(), "Network: Invalid target_ip format 'node'");
    assert!(matches!(failure, CheckFailure::Address(_)));
    assert_eq!(
        check_target(&TargetConfig::Hue(hue("1.2.3.4")), AddressForm::Invalid).unwrap(),
        "Network (Hue): bridge_ip=1.2.3.4, area_id=area"
    );
}

#[test]
fn channels_are_checked_for_range_and_collisions() {
    let outputs = vec![
        dmx("a", 509, Some([0, 0, 0])),
        dmx("b", 511, None),
        dmx("c", 511, Some([0, 0, 0])),
    ];
    let found = check_channels(&outputs);
    let said: Vec<String> = found.iter().map(ChannelFinding::message).collect();
    assert_eq!(
        said,
        vec![
            "DMX Collision: Channel 511 is used by both ID 'a' and ID 'b'",
            "DMX Collision: Channel 511 is used by both ID 'b' and ID 'c'",
            "DMX: ID c (channel 512) exceeds universe limit (511)",
            "DMX: ID c (channel 513) exceeds universe limit (511)",
        ]
    );
    let failure = conclude(&found).unwrap_err();
    assert!(matches!(failure, CheckFailure::Channels));
    assert_eq!(failure.message(), "Configuration check failed due to DMX errors.");
    assert!(matches!(
        &found[2],
        ChannelFinding::OutOfRange { id, channel: 512 } if id == "c"
    ));
}

#[test]
fn collisions_alone_pass() {
    let found = check_channels(&vec![dmx("a", 0, None), dmx("a", 0, None)]);
    assert_eq!(found.len(), 1);
    assert!(matches!(&found[0], ChannelFinding::Collision { channel: 0, .. }));
    assert!(conclude(&found).is_ok());
    assert!(check_channels(&vec![dmx("a", 509, Some([0; 3]))]).is_empty());
}

fn names(list: &[&str]) -> Vec<String> {
    list.iter().map(|name| name.to_string()).collect()
}

#[test]
fn devices_are_found_by_part_of_their_name() {
    let devices = names(&["Alesis Nitro MIDI 1", "Through"]);
    assert!(device_found(&devices, "Nitro"));
    assert!(!device_found(&devices, "nitro"));
    assert!(!device_found(&devices, ""));
    assert!(has_device(&devices, "Through"));
    assert!(!has_device(&devices, "Nitro"));
}

#[test]
fn devices_are_chosen() {
    let both = names(&["A", "B"]);
    let one = names(&["A"]);
    assert!(matches!(choose_device(&both, "A", false, true), DeviceChoice::Keep));
    assert!(matches!(choose_device(&both, "A", true, true), DeviceChoice::Ask));
    assert!(matches!(choose_device(&both, "C", false, true), DeviceChoice::Ask));
    assert!(matches!(choose_device(&both, "C", false, false), DeviceChoice::Ambiguous));
    assert!(matches!(choose_device(&one, "C", false, false), DeviceChoice::Only(d) if d == "A"));
    assert!(matches!(choose_device(&names(&[]), "C", false, true), DeviceChoice::NoDevices));
}

#[test]
fn configuration_places_have_an_order() {
    let file = "x.toml".to_string();
    let home = "/etc".to_string();
    assert!(matches!(
        config_place(Some(&file), Some(&home), true),
        ConfigPlace::File(path) if path == file
    ));
    assert!(matches!(
        config_place(None, Some(&home), true),
        ConfigPlace::Directory(path) if path == home
    ));
    assert!(matches!(config_place(None, None, true), ConfigPlace::Local));
    assert!(matches!(config_place(None, None, false), ConfigPlace::Standard));
    assert!(needs_setup(true, true, true));
    assert!(needs_setup(false, false, false));
    assert!(!needs_setup(false, false, true));
    assert!(!needs_setup(false, true, false));
}

#[test]
fn quit_keys() {
    assert!(is_quit_key('q', false));
    assert!(is_quit_key('q', true));
    assert!(is_quit_key('c', true));
    assert!(!is_quit_key('c', false));
    assert!(!is_quit_key('x', true));
}

#[test]
fn ticks_are_paced() {
    assert_eq!(TICK_INTERVAL, 25_000_000);
    assert_eq!(time_left(10, 25), 15);
    assert_eq!(time_left(30, 25), 0);
    assert_eq!(next_deadline(10, 25), 25 + TICK_INTERVAL);
    assert_eq!(next_deadline(90, 25), 90 + TICK_INTERVAL);
}

#[test]
fn ids_are_narrowed() {
    let wide = HashMap::from([(1usize, "a"), (65535, "b"), (65536 + 7, "c")]);
    assert_eq!(narrow_keys(wide), HashMap::from([(1u16, "a"), (65535, "b"), (7, "c")]));
    assert_eq!(
        narrow_values(&HashMap::from([(36u8, 3usize), (38, 65536)])),
        HashMap::from([(36u8, 3u16), (38, 0)])
    );
}

#[test]
fn the_first_hue_target_is_diagnosed() {
    let targets = vec![
        TargetConfig::ArtNet(artnet("a", 0)),
        TargetConfig::Hue(hue("1.1.1.1")),
        TargetConfig::Hue(hue("2.2.2.2")),
    ];
    assert_eq!(hue_target(&targets).unwrap().bridge_ip, "1.1.1.1");
    assert!(hue_target(&config().targets).is_none());
}

#[test]
fn midi_messages_become_triggers() {
    let source = MidiSource::new("Kit", HashMap::from([(36, 7)]));
    assert_eq!(source.target_device(), "Kit");
    let trigger = Some(SourceEvent::Trigger { id: 7, velocity: 100 });
    assert_eq!(source.event_for(&[0x90, 36, 100]), trigger);
    assert_eq!(source.event_for(&[0x99, 36, 100, 0]), trigger);
    assert_eq!(source.event_for(&[0x90, 36, 0]), None);
    assert_eq!(source.event_for(&[0x80, 36, 100]), None);
    assert_eq!(source.event_for(&[0x90, 37, 100]), None);
    assert_eq!(source.event_for(&[0x90, 36]), None);
    assert_eq!(source.event_for(&[]), None);
}

#[test]
fn midi_ports_are_found_by_part_of_their_name() {
    let ports = vec![None, Some("Through".to_string()), Some("Nitro 1".to_string())];
    assert_eq!(list_midi_devices(&ports), names(&["Through", "Nitro 1"]));
    assert_eq!(find_midi_port(&ports, "Nitro"), Some(2));
    assert_eq!(find_midi_port(&ports, "r"), Some(1));
    assert_eq!(find_midi_port(&ports, "absent"), None);
}

const TABLES: &str = r#"# rig
[midi]
device_name = "Old" # kit

[[targets]]
type = "artnet"
bridge_ip = "keep"

[[targets]]
type = "hue"
bridge_ip = "1.1.1.1"
"#;

fn parsed(text: String) -> toml_edit::DocumentMut {
    text.parse().unwrap()
}

#[test]
fn hue_addresses_are_replaced_in_tables() {
    assert_eq!(
        update_hue_ip(TABLES, "9.9.9.9").unwrap(),
        TABLES.replace("1.1.1.1", "9.9.9.9")
    );
    let twice = update_hue_ip(&update_hue_ip(TABLES, "9.9.9.9").unwrap(), "9.9.9.9").unwrap();
    assert_eq!(twice, TABLES.replace("1.1.1.1", "9.9.9.9"));
}

#[test]
fn hue_addresses_are_replaced_in_inline_tables() {
    let inline =
        r#"targets = [{ type = "hue", bridge_ip = "1.1.1.1" }, 3, { type = "artnet" }]"#;
    let edited = parsed(update_hue_ip(inline, "9.9.9.9").unwrap());
    assert_eq!(edited["targets"][0]["bridge_ip"].as_str(), Some("9.9.9.9"));
    assert_eq!(edited["targets"][1].as_integer(), Some(3));
    assert!(edited["targets"][2].get("bridge_ip").is_none());
    // An address that is missing is added.
    let bare = "[[targets]]\ntype = \"hue\"\n";
    let edited = parsed(update_hue_ip(bare, "9.9.9.9").unwrap());
    assert_eq!(edited["targets"][0]["bridge_ip"].as_str(), Some("9.9.9.9"));
}

#[test]
fn files_without_a_hue_target_are_not_changed() {
    for contents in [
        "",
        "targets = 3\n",
        "[targets]\ntype = \"hue\"\n",
        "[[targets]]\ntype = 1\n",
    ] {
        assert!(matches!(update_hue_ip(contents, "9.9.9.9"), Err(EditError::NoHueTarget)));
    }
    assert!(matches!(update_hue_ip("= 3", "9.9.9.9"), Err(EditError::Parse(_))));
}

#[test]
fn midi_devices_are_replaced() {
    let edited = parsed(update_midi_device(TABLES, "New").unwrap());
    assert_eq!(edited["midi"]["device_name"].as_str(), Some("New"));
    assert_eq!(edited["targets"][1]["bridge_ip"].as_str(), Some("1.1.1.1"));
    let edited = parsed(update_midi_device("", "New").unwrap());
    assert_eq!(edited["midi"]["device_name"].as_str(), Some("New"));
    let inline = "midi = { device_name = \"Old\" }\n";
    let edited = parsed(update_midi_device(inline, "New").unwrap());
    assert_eq!(edited["midi"]["device_name"].as_str(), Some("New"));
    assert!(matches!(update_midi_device("midi = 3\n", "New"), Err(EditError::NoMidiTable)));
    assert!(matches!(update_midi_device("[midi", "New"), Err(EditError::Parse(_))));
}

#[test]
fn mapped_notes_trigger_the_behaviors_of_the_engine() {
    let given = config();
    let compiled = given.compile().unwrap();
    let ids = narrow_values(&compiled.midi_id_map);
    let behaviors = narrow_keys(compiled.behaviors);
    for (note, name) in &given.midi.mappings {
        let definition = given.behavior.iter().find(|b| b.id == *name).unwrap();
        assert_eq!(behaviors[&ids[note]].decay_seconds, definition.decay_seconds);
    }
}

#[test]
fn whole_configurations_are_checked_in_order() {
    let literal = vec![AddressForm::Literal];
    let invalid = vec![AddressForm::Invalid];
    assert!(check_config(&config(), &literal).unwrap().is_empty());

    let mut broken = config();
    broken.output.dmx.push(dmx("far", 512, None));
    assert!(matches!(check_config(&broken, &literal), Err(CheckFailure::Channels)));
    assert!(matches!(
        check_config(&broken, &invalid),
        Err(CheckFailure::Address(address)) if address == "10.0.0.1:6454"
    ));
    broken.midi.mappings.insert(1, "nobody".to_string());
    assert!(matches!(check_config(&broken, &invalid), Err(CheckFailure::Link(_))));
    broken.targets.clear();
    assert!(matches!(check_config(&broken, &vec![]), Err(CheckFailure::Link(_))));
    broken.midi.mappings.remove(&1);
    assert!(matches!(check_config(&broken, &vec![]), Err(CheckFailure::NoTargets)));

    // Hue targets have no address to check, and collisions pass.
    let mut passing = config();
    passing.targets = vec![TargetConfig::Hue(hue("x"))];
    passing.output.dmx = vec![dmx("a", 511, None), dmx("b", 511, None)];
    assert_eq!(check_config(&passing, &invalid).unwrap().len(), 1);
    // An output without a color takes one channel, wherever it is.
    passing.output.dmx = vec![dmx("a", usize::MAX, None)];
    assert!(matches!(check_config(&passing, &invalid), Err(CheckFailure::Channels)));
}

#[test]
fn entries_that_were_taken_out_do_not_shift_the_others() {
    let mut doc = parsed(TABLES.to_string());
    doc["targets"][0] = toml_edit::Item::None;
    assert!(redirect_hue(&mut doc, "9.9.9.9"));
    assert_eq!(doc["targets"][1]["bridge_ip"].as_str(), Some("9.9.9.9"));
    let inline = r#"targets = [{ type = "artnet" }, { type = "hue" }]"#;
    let mut doc = parsed(inline.to_string());
    doc["targets"][0] = toml_edit::Item::None;
    assert!(redirect_hue(&mut doc, "9.9.9.9"));
    assert_eq!(doc["targets"][1]["bridge_ip"].as_str(), Some("9.9.9.9"));
    let once = doc.to_string();
    assert!(redirect_hue(&mut doc, "9.9.9.9"));
    assert_eq!(doc.to_string(), once);
}

#[test]
fn the_rest_of_a_file_stays() {
    let file = r#"# head
top = 1

[midi] # section
device_name = 'Old' # kit
mappings = { 36 = "kick" }

[[targets]] # first
type = "hue" # kind
bridge_ip = "1.1.1.1"
extra = [1, 2, { three = 3 }]
[targets.nested]
bridge_ip = "1.1.1.1"

[[targets]]
type = "hue"
"#;
    let edited = update_hue_ip(file, "9.9.9.9").unwrap();
    let expected = file.replacen("bridge_ip = \"1.1.1.1\"", "bridge_ip = \"9.9.9.9\"", 1)
        + "bridge_ip = \"9.9.9.9\"\n";
    assert_eq!(edited, expected);
    assert_eq!(update_hue_ip(&edited, "9.9.9.9").unwrap(), edited);
    let mut doc = parsed(file.to_string());
    set_midi_device(&mut doc, "New");
    assert_eq!(doc.to_string(), update_midi_device(file, "New").unwrap());
    assert_eq!(doc["midi"]["mappings"]["36"].as_str(), Some("kick"));
    assert_eq!(doc["targets"][0]["bridge_ip"].as_str(), Some("1.1.1.1"));
}

#[test]
fn links_are_written_to_every_hue_target() {
    let file = r#"top = 1.5
[[targets]]
type = "hue"
bridge_ip = "1.1.1.1" # address
area_id = 3
retries = 4
[[targets]]
type = "artnet"
bridge_ip = 7
username = "mine"
[[targets]]
type = "hue"
"#;
    let link = HueConfig {
        bridge_ip: "9.9.9.9".to_string(),
        bridge_id: "id".to_string(),
        username: "user".to_string(),
        client_key: "SECRET-REDACTED".to_string(),
        area_id: "area".to_string(),
    };
    let text = update_hue_link(file, &link).unwrap();
    let edited = parsed(text.clone());
    for target in [0, 2] {
        for (key, value) in [
            ("type", "hue"),
            ("bridge_ip", "9.9.9.9"),
            ("bridge_id", "id"),
            ("username", "user"),
            ("client_key", "SECRET-REDACTED"),
            ("area_id", "area"),
        ] {
            assert_eq!(edited["targets"][target][key].as_str(), Some(value));
        }
    }
    assert_eq!(edited["top"].as_float(), Some(1.5));
    assert_eq!(edited["targets"][0]["retries"].as_integer(), Some(4));
    assert_eq!(edited["targets"][1]["bridge_ip"].as_integer(), Some(7));
    assert_eq!(edited["targets"][1]["username"].as_str(), Some("mine"));
    assert!(edited["targets"][1].get("area_id").is_none());

    let mut doc = parsed(file.to_string());
    assert!(relink_hue(&mut doc, &link));
    assert_eq!(doc.to_string(), text);
    assert!(set_hue_text(&mut doc, "area_id", "other"));
    assert_eq!(doc["targets"][2]["area_id"].as_str(), Some("other"));
    assert_eq!(doc["targets"][2]["username"].as_str(), Some("user"));

    assert!(matches!(update_hue_link("", &link), Err(EditError::NoHueTarget)));
    assert!(matches!(update_hue_link("= 3", &link), Err(EditError::Parse(_))));
}

#[test]
fn parse_errors_are_those_of_the_text() {
    for bad in ["= 3", "[midi", "a = 1\na = 2\n"] {
        let expected = bad.parse::<toml_edit::DocumentMut>().unwrap_err().to_string();
        for error in [update_hue_ip(bad, "x").unwrap_err(), update_midi_device(bad, "x").unwrap_err()]
        {
            match error {
                EditError::Parse(error) => assert_eq!(error.to_string(), expected),
                _ => unreachable!(),
            }
        }
    }
}

#[test]
fn configurations_can_be_cloned() {
    let given = config();
    assert_eq!(given.clone(), given);
    let compiled = given.compile().unwrap();
    let copy = compiled.clone();
    assert_eq!(copy.midi_id_map, compiled.midi_id_map);
    assert_eq!(copy.behaviors, compiled.behaviors);
    assert_eq!(copy.targets, compiled.targets);
}
