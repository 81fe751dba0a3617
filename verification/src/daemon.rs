//! The decisions of the running program: which device it listens to, where its
//! configuration lies, and when its next tick is due.

use crate::config::{
    behavior_config, law_ids_resolve_to_behaviors, numbered, position, BehaviorDefinition,
    HueConfig, HueOutputCompiled, TargetConfig,
};
use crate::envelope::BehaviorConfig;
use crate::hue::HueOutputMapping;
use crate::maps::{keys_of, lemma_take_contains};
use crate::text::{contains, contains_text, law_what_stands_in_a_text_is_found, same_text};
use std::collections::HashMap;
use vstd::prelude::*;

verus! {

broadcast use vstd::std_specs::hash::group_hash_axioms;

/// Nanoseconds from one tick to the next: 40 ticks a second.
pub const TICK_INTERVAL: u64 = 25_000_000;

/// Whether one of the devices goes by the name in the configuration, or by a
/// name that contains it.
pub open spec fn is_present(devices: Seq<String>, name: Seq<char>) -> bool {
    name.len() > 0 && exists|i: int|
        0 <= i < devices.len() && contains_text((#[trigger] devices[i])@, name)
}

/// Whether one of the devices goes by the name in the configuration, or by a
/// name that contains it.
pub fn device_found(devices: &Vec<String>, name: &str) -> (found: bool)
    ensures
        found == is_present(devices@, name@),
{
    if name.unicode_len() == 0 {
        return false;
    }
    let mut i: usize = 0;
    while i < devices.len()
        invariant
            i <= devices@.len(),
            name@.len() > 0,
            forall|j: int| 0 <= j < i ==> !contains_text((#[trigger] devices@[j])@, name@),
        decreases devices@.len() - i,
    {
        if contains(devices[i].as_str(), name) {
            return true;
        }
        i += 1;
    }
    false
}

/// How the device to listen to is settled.
#[derive(Debug)]
pub enum DeviceChoice {
    /// The configured one is there.
    Keep,
    /// There is none.
    NoDevices,
    /// Somebody is asked.
    Ask,
    /// Nobody can be asked, but there is only this one.
    Only(String),
    /// Nobody can be asked, and there are several.
    Ambiguous,
}

/// How the device to listen to is settled.
pub open spec fn settled(
    devices: Seq<String>,
    name: Seq<char>,
    force_select: bool,
    interactive: bool,
) -> DeviceChoice {
    if is_present(devices, name) && !force_select {
        DeviceChoice::Keep
    } else if devices.len() == 0 {
        DeviceChoice::NoDevices
    } else if interactive {
        DeviceChoice::Ask
    } else if devices.len() == 1 {
        DeviceChoice::Only(devices[0])
    } else {
        DeviceChoice::Ambiguous
    }
}

/// How the device to listen to is settled, given the devices that there are,
/// the configured name, whether a new choice is asked for, and whether somebody
/// is there to make it.
pub fn choose_device(
    devices: &Vec<String>,
    name: &str,
    force_select: bool,
    interactive: bool,
) -> (choice: DeviceChoice)
    ensures
        match choice {
            DeviceChoice::Keep => is_present(devices@, name@) && !force_select,
            _ => !is_present(devices@, name@) || force_select,
        },
        match choice {
            DeviceChoice::Keep => true,
            DeviceChoice::NoDevices => devices@.len() == 0,
            DeviceChoice::Ask => devices@.len() > 0 && interactive,
            DeviceChoice::Only(device) => devices@.len() == 1 && !interactive && device
                == devices@[0],
            DeviceChoice::Ambiguous => devices@.len() > 1 && !interactive,
        },
        choice == settled(devices@, name@, force_select, interactive),
{
    if device_found(devices, name) && !force_select {
        DeviceChoice::Keep
    } else if devices.len() == 0 {
        DeviceChoice::NoDevices
    } else if interactive {
        DeviceChoice::Ask
    } else if devices.len() == 1 {
        DeviceChoice::Only(devices[0].clone())
    } else {
        DeviceChoice::Ambiguous
    }
}

/// Whether one of the devices has exactly this name.
pub fn has_device(devices: &Vec<String>, name: &str) -> (found: bool)
    ensures
        found <==> exists|i: int| 0 <= i < devices@.len() && (#[trigger] devices@[i])@ == name@,
{
    let mut i: usize = 0;
    while i < devices.len()
        invariant
            i <= devices@.len(),
            forall|j: int| 0 <= j < i ==> (#[trigger] devices@[j])@ != name@,
        decreases devices@.len() - i,
    {
        if same_text(devices[i].as_str(), name) {
            return true;
        }
        i += 1;
    }
    false
}

/// The first Hue target.
pub open spec fn first_hue(targets: Seq<TargetConfig>) -> Option<HueConfig>
    decreases targets.len(),
{
    if targets.len() == 0 {
        None
    } else {
        match targets[0] {
            TargetConfig::Hue(hue) => Some(hue),
            TargetConfig::ArtNet(_) => first_hue(targets.skip(1)),
        }
    }
}

/// The first Hue target.
pub fn hue_target(targets: &Vec<TargetConfig>) -> (found: Option<&HueConfig>)
    ensures
        match found {
            Some(hue) => first_hue(targets@) == Some(*hue),
            None => first_hue(targets@) is None,
        },
{
    let mut i: usize = 0;
    assert(targets@.skip(0) =~= targets@);
    while i < targets.len()
        invariant
            i <= targets@.len(),
            first_hue(targets@) == first_hue(targets@.skip(i as int)),
        decreases targets@.len() - i,
    {
        assert(targets@.skip(i as int).skip(1) =~= targets@.skip(i + 1));
        if let TargetConfig::Hue(hue) = &targets[i] {
            return Some(hue);
        }
        i += 1;
    }
    None
}

/// Where the configuration lies.
#[derive(Debug)]
pub enum ConfigPlace {
    /// In this file.
    File(String),
    /// In `pulseplex.toml` in this directory.
    Directory(String),
    /// In `pulseplex.toml` in the working directory.
    Local,
    /// In `pulseplex.toml` in the user's configuration directory.
    Standard,
}

/// Where the configuration lies.
pub open spec fn placed(
    cli_override: Option<String>,
    config_home: Option<String>,
    local_exists: bool,
) -> ConfigPlace {
    match (cli_override, config_home) {
        (Some(path), _) => ConfigPlace::File(path),
        (None, Some(home)) => ConfigPlace::Directory(home),
        (None, None) => if local_exists {
            ConfigPlace::Local
        } else {
            ConfigPlace::Standard
        },
    }
}

/// A referenced text, if any, by itself.
pub open spec fn owned(text: Option<&String>) -> Option<String> {
    match text {
        Some(text) => Some(*text),
        None => None,
    }
}

/// Where the configuration lies, given the file named on the command line, the
/// directory named in the environment, and whether the working directory has
/// one.
pub fn config_place(
    cli_override: Option<&String>,
    config_home: Option<&String>,
    local_exists: bool,
) -> (place: ConfigPlace)
    ensures
        match cli_override {
            Some(path) => place == ConfigPlace::File(*path),
            None => match config_home {
                Some(home) => place == ConfigPlace::Directory(*home),
                None => place == (if local_exists {
                    ConfigPlace::Local
                } else {
                    ConfigPlace::Standard
                }),
            },
        },
        place == placed(owned(cli_override), owned(config_home), local_exists),
{
    if let Some(path) = cli_override {
        return ConfigPlace::File(path.clone());
    }
    if let Some(home) = config_home {
        return ConfigPlace::Directory(home.clone());
    }
    if local_exists {
        ConfigPlace::Local
    } else {
        ConfigPlace::Standard
    }
}

/// The setup wizard runs first.
pub open spec fn sets_up(asked_for: bool, config_exists: bool, config_named: bool) -> bool {
    asked_for || !(config_exists || config_named)
}

/// Whether the setup wizard runs first: it was asked for, or there is no
/// configuration and none was named.
pub fn needs_setup(asked_for: bool, config_exists: bool, config_named: bool) -> (needed: bool)
    ensures
        needed == (asked_for || (!config_exists && !config_named)),
        needed == sets_up(asked_for, config_exists, config_named),
{
    asked_for || (!config_exists && !config_named)
}

/// A key ends the program.
pub open spec fn ends_program(key: char, control: bool) -> bool {
    key == 'q' || (control && key == 'c')
}

/// Whether a key ends the program: `q`, or `c` together with Control.
pub fn is_quit_key(key: char, control: bool) -> (quits: bool)
    ensures
        quits == (key == 'q' || (key == 'c' && control)),
        quits == ends_program(key, control),
{
    key == 'q' || (key == 'c' && control)
}

/// What is left of the time until `deadline`.
pub open spec fn remaining(now: u64, deadline: u64) -> int {
    if deadline <= now {
        0
    } else {
        deadline - now
    }
}

/// How long to sleep at `now` until `deadline`, both counted in nanoseconds
/// from one moment.
pub fn time_left(now: u64, deadline: u64) -> (left: u64)
    ensures
        left == (if now < deadline {
            deadline - now
        } else {
            0
        }),
        left == remaining(now, deadline),
{
    if now < deadline {
        deadline - now
    } else {
        0
    }
}

/// When the next tick is due, where the last was due at `deadline` and it is
/// `now`: one interval after the later of the two, so that a late tick is not
/// made up for.
pub open spec fn deadline_after(now: u64, deadline: u64) -> int {
    if now < deadline {
        deadline + TICK_INTERVAL
    } else {
        now + TICK_INTERVAL
    }
}

/// When the next tick is due.
pub fn next_deadline(now: u64, deadline: u64) -> (next: u64)
    requires
        deadline_after(now, deadline) <= u64::MAX,
    ensures
        next == deadline_after(now, deadline),
{
    if now < deadline {
        deadline + TICK_INTERVAL
    } else {
        now + TICK_INTERVAL
    }
}

/// Ticks are at least one interval apart: the deadline after `deadline` lies
/// no sooner than an interval after both it and the present.
pub proof fn law_ticks_keep_apart(now: u64, deadline: u64)
    ensures
        deadline_after(now, deadline) >= deadline + TICK_INTERVAL,
        deadline_after(now, deadline) >= now + TICK_INTERVAL,
{
}

/// The low 16 bits of a number.
pub open spec fn low_bits(id: usize) -> u16 {
    (id % 65536) as u16
}

/// What is under a 16-bit key was under one with these low bits.
pub open spec fn stems_from<V>(narrow: Map<u16, V>, wide: Map<usize, V>, key: u16) -> bool {
    exists|id: usize| #[trigger]
        wide.contains_key(id) && low_bits(id) == key && narrow[key] == wide[id]
}

/// Each entry under the low 16 bits of its key. Where several keys share them,
/// which of their entries it is stays open.
pub open spec fn is_narrowed<V>(narrow: Map<u16, V>, wide: Map<usize, V>) -> bool {
    &&& forall|id: usize| #[trigger]
        wide.contains_key(id) ==> narrow.contains_key(low_bits(id))
    &&& forall|key: u16|
        narrow.contains_key(key) ==> #[trigger] stems_from(narrow, wide, key)
}

/// Gives every entry a 16-bit key.
pub fn narrow_keys<V>(wide: HashMap<usize, V>) -> (narrow: HashMap<u16, V>)
    ensures
        is_narrowed(narrow@, wide@),
{
    let ids: Vec<usize> = keys_of(&wide);
    let mut left: HashMap<usize, V> = wide;
    let mut narrow: HashMap<u16, V> = HashMap::new();
    let mut n: usize = 0;
    assert forall|i: int| 0 <= i < ids@.len() implies left@.contains_key(#[trigger] ids@[i]) by {
        assert(ids@.contains(ids@[i]));
    }
    while n < ids.len()
        invariant
            n <= ids@.len(),
            ids@.no_duplicates(),
            forall|id: usize| #[trigger] ids@.contains(id) <==> wide@.contains_key(id),
            forall|i: int|
                n <= i < ids@.len() ==> left@.contains_key(#[trigger] ids@[i]) && left@[ids@[i]]
                    == wide@[ids@[i]],
            forall|i: int|
                0 <= i < n ==> narrow@.contains_key(low_bits(#[trigger] ids@[i])),
            forall|key: u16|
                narrow@.contains_key(key) ==> #[trigger] stems_from(narrow@, wide@, key),
        decreases ids@.len() - n,
    {
        let id: usize = ids[n];
        assert(ids@.contains(id));
        let ghost before = narrow@;
        if let Some(value) = left.remove(&id) {
            narrow.insert((id % 65536) as u16, value);
        }
        assert forall|key: u16| narrow@.contains_key(key) implies #[trigger] stems_from(
            narrow@,
            wide@,
            key,
        ) by {
            if key == low_bits(id) {
                assert(wide@.contains_key(id));
            } else {
                assert(stems_from(before, wide@, key));
                let from = choose|from: usize| #[trigger]
                    wide@.contains_key(from) && low_bits(from) == key && before[key]
                        == wide@[from];
                assert(wide@.contains_key(from));
            }
        }
        n += 1;
    }
    assert forall|id: usize| #[trigger] wide@.contains_key(id) implies narrow@.contains_key(
        low_bits(id),
    ) by {
        assert(ids@.contains(id));
        let i = choose|i: int| 0 <= i < ids@.len() && ids@[i] == id;
        assert(narrow@.contains_key(low_bits(ids@[i])));
    }
    narrow
}

/// Cuts every value to its low 16 bits.
pub fn narrow_values(wide: &HashMap<u8, usize>) -> (narrow: HashMap<u8, u16>)
    ensures
        narrow@.dom() == wide@.dom(),
        forall|key: u8| #[trigger]
            wide@.contains_key(key) ==> narrow@[key] == low_bits(wide@[key]),
{
    let keys: Vec<u8> = keys_of(wide);
    let mut narrow: HashMap<u8, u16> = HashMap::new();
    let mut n: usize = 0;
    while n < keys.len()
        invariant
            n <= keys@.len(),
            forall|key: u8| #[trigger] keys@.contains(key) <==> wide@.contains_key(key),
            forall|key: u8| #[trigger]
                narrow@.contains_key(key) <==> keys@.take(n as int).contains(key),
            forall|key: u8| #[trigger]
                narrow@.contains_key(key) ==> narrow@[key] == low_bits(wide@[key]),
        decreases keys@.len() - n,
    {
        let key: u8 = keys[n];
        assert(keys@.contains(key));
        if let Some(value) = wide.get(&key) {
            narrow.insert(key, (*value % 65536) as u16);
        }
        proof {
            lemma_take_contains(keys@, n as int);
        }
        n += 1;
    }
    assert(keys@.take(n as int) =~= keys@);
    assert(narrow@.dom() =~= wide@.dom()) by {
        assert forall|key: u8| narrow@.contains_key(key) <==> wide@.contains_key(key) by {
            assert(keys@.contains(key) <==> wide@.contains_key(key));
        }
    }
    assert forall|key: u8| #[trigger] wide@.contains_key(key) implies narrow@[key] == low_bits(
        wide@[key],
    ) by {
        assert(narrow@.contains_key(key));
    }
    narrow
}

/// Entries whose keys all fit in 16 bits keep their keys, and none is lost.
pub proof fn law_small_keys_stay<V>(narrow: Map<u16, V>, wide: Map<usize, V>)
    requires
        is_narrowed(narrow, wide),
        forall|id: usize| #[trigger] wide.contains_key(id) ==> id < 65536,
    ensures
        forall|key: u16| #[trigger]
            narrow.contains_key(key) <==> wide.contains_key(key as usize),
        forall|key: u16| #[trigger] narrow.contains_key(key) ==> narrow[key] == wide[key as usize],
{
    assert forall|key: u16|
        (#[trigger] narrow.contains_key(key) <==> wide.contains_key(key as usize)) && (
        narrow.contains_key(key) ==> narrow[key] == wide[key as usize]) by {
        if narrow.contains_key(key) {
            assert(stems_from(narrow, wide, key));
            let id = choose|id: usize| #[trigger]
                wide.contains_key(id) && low_bits(id) == key && narrow[key] == wide[id];
            assert(id == key as usize);
        }
        if wide.contains_key(key as usize) {
            assert(low_bits(key as usize) == key);
        }
    }
}

/// An entry is kept under the low bits of its key.
proof fn lemma_kept<V>(narrow: Map<u16, V>, wide: Map<usize, V>, id: usize)
    requires
        is_narrowed(narrow, wide),
        wide.contains_key(id),
    ensures
        narrow.contains_key(low_bits(id)),
        (forall|k: usize| #[trigger] wide.contains_key(k) ==> k < 65536) ==> narrow[low_bits(id)]
            == wide[id],
{
    if forall|k: usize| #[trigger] wide.contains_key(k) ==> k < 65536 {
        assert(low_bits(id) as usize == id);
        assert(stems_from(narrow, wide, low_bits(id)));
    }
}

/// A note that is mapped to a behavior triggers one that the engine knows, and
/// the very one where there are no more than 65536.
pub proof fn law_mapped_notes_trigger_behaviors(
    behaviors: Seq<BehaviorDefinition>,
    id: Seq<char>,
    narrow: Map<u16, BehaviorConfig>,
)
    requires
        behaviors.len() <= usize::MAX,
        position(behaviors, id) is Some,
        is_narrowed(narrow, numbered(behaviors)),
    ensures
        ({
            let number = position(behaviors, id)->0;
            &&& narrow.contains_key(low_bits(number))
            &&& behaviors.len() <= 65536 ==> narrow[low_bits(number)] == behavior_config(
                behaviors[number as int],
            )
        }),
{
    law_ids_resolve_to_behaviors(behaviors, id);
    lemma_kept(narrow, numbered(behaviors), position(behaviors, id)->0);
}

/// The lights that a compiled configuration drives on a bridge.
pub open spec fn mapped(outputs: Seq<HueOutputCompiled>) -> Seq<HueOutputMapping> {
    outputs.map_values(
        |output: HueOutputCompiled| HueOutputMapping {
            internal_id: output.internal_id,
            channel_id: output.channel_id,
            color: output.color,
        },
    )
}

/// The lights that a compiled configuration drives on a bridge.
pub fn hue_mappings(outputs: &Vec<HueOutputCompiled>) -> (mappings: Vec<HueOutputMapping>)
    ensures
        mappings@ == mapped(outputs@),
{
    let mut mappings: Vec<HueOutputMapping> = Vec::new();
    let mut i: usize = 0;
    while i < outputs.len()
        invariant
            i <= outputs@.len(),
            mappings@ == mapped(outputs@).take(i as int),
        decreases outputs@.len() - i,
    {
        let output: &HueOutputCompiled = &outputs[i];
        mappings.push(
            HueOutputMapping {
                internal_id: output.internal_id,
                channel_id: output.channel_id,
                color: output.color,
            },
        );
        assert(mappings@ =~= mapped(outputs@).take(i + 1));
        i += 1;
    }
    assert(mapped(outputs@).take(i as int) =~= mapped(outputs@));
    mappings
}

/// A device is found by any part of its name but the empty one, and nothing else
/// is found.
pub proof fn law_devices_are_found_by_part_of_their_name(
    devices: Seq<String>,
    i: int,
    before: Seq<char>,
    name: Seq<char>,
    after: Seq<char>,
)
    ensures
        0 <= i < devices.len() && devices[i]@ == before + name + after && name.len() > 0
            ==> is_present(devices, name),
        name.len() == 0 ==> !is_present(devices, name),
        (forall|j: int| 0 <= j < devices.len() ==> !contains_text((#[trigger] devices[j])@, name))
            ==> !is_present(devices, name),
{
    law_what_stands_in_a_text_is_found(before, name, after);
    if 0 <= i < devices.len() && devices[i]@ == before + name + after && name.len() > 0 {
        assert(contains_text(devices[i]@, name));
    }
}

/// The Hue target that is found is one of the targets, and none before it is.
pub proof fn law_first_hue_target_is_found(targets: Seq<TargetConfig>)
    ensures
        match first_hue(targets) {
            Some(hue) => exists|n: int|
                {
                    &&& 0 <= n < targets.len()
                    &&& #[trigger] targets[n] == TargetConfig::Hue(hue)
                    &&& forall|earlier: int|
                        0 <= earlier < n ==> #[trigger] targets[earlier] is ArtNet
                },
            None => forall|n: int| 0 <= n < targets.len() ==> #[trigger] targets[n] is ArtNet,
        },
    decreases targets.len(),
{
    if targets.len() > 0 {
        let rest = targets.skip(1);
        law_first_hue_target_is_found(rest);
        if targets[0] is Hue {
            assert(targets[0] == TargetConfig::Hue(first_hue(targets)->0));
        } else if let Some(hue) = first_hue(rest) {
            let n = choose|n: int|
                {
                    &&& 0 <= n < rest.len()
                    &&& #[trigger] rest[n] == TargetConfig::Hue(hue)
                    &&& forall|earlier: int|
                        0 <= earlier < n ==> #[trigger] rest[earlier] is ArtNet
                };
            assert(targets[n + 1] == rest[n]);
            assert forall|earlier: int| 0 <= earlier < n + 1 implies #[trigger] targets[earlier]
                is ArtNet by {
                if earlier > 0 {
                    assert(rest[earlier - 1] is ArtNet);
                }
            }
        } else {
            assert forall|n: int| 0 <= n < targets.len() implies #[trigger] targets[n]
                is ArtNet by {
                if n > 0 {
                    assert(rest[n - 1] is ArtNet);
                }
            }
        }
    }
}

/// Ticks come 40 to the second: a tick that is in time is followed by one 25
/// milliseconds after it was due, and a late one by one 25 milliseconds from now.
pub proof fn law_ticks_are_25_milliseconds_apart(now: u64, deadline: u64)
    ensures
        now <= deadline ==> deadline_after(now, deadline) == deadline + 25_000_000,
        now >= deadline ==> deadline_after(now, deadline) == now + 25_000_000,
{
}

/// The low bits of a number below 65536 are the number, and any other number is
/// off by a multiple of that.
pub proof fn law_low_bits_keep_small_numbers(id: usize)
    ensures
        id < 65536 ==> low_bits(id) == id,
        (id - low_bits(id)) % 65536 == 0,
{
}

/// A note that is mapped to a behavior triggers, where there are no more than
/// 65536, a behavior with the physics that the configuration gives to that ID.
pub proof fn law_mapped_notes_trigger_their_physics(
    behaviors: Seq<BehaviorDefinition>,
    id: Seq<char>,
    narrow: Map<u16, BehaviorConfig>,
)
    requires
        behaviors.len() <= 65536,
        position(behaviors, id) is Some,
        is_narrowed(narrow, numbered(behaviors)),
    ensures
        ({
            let number = position(behaviors, id)->0;
            let made = narrow[low_bits(number)];
            &&& number < behaviors.len()
            &&& behaviors[number as int].id@ == id
            &&& narrow.contains_key(low_bits(number))
            &&& made.decay_seconds == behaviors[number as int].decay_seconds
            &&& made.velocity_curve == behaviors[number as int].velocity_curve
            &&& made.decay_profile == behaviors[number as int].decay_profile
        }),
{
    law_ids_resolve_to_behaviors(behaviors, id);
    lemma_kept(narrow, numbered(behaviors), position(behaviors, id)->0);
}

/// Each light of a compiled configuration keeps its behavior, its channel and its
/// color.
pub proof fn law_lights_keep_what_was_compiled(outputs: Seq<HueOutputCompiled>, i: int)
    requires
        0 <= i < outputs.len(),
    ensures
        mapped(outputs).len() == outputs.len(),
        mapped(outputs)[i].internal_id == outputs[i].internal_id,
        mapped(outputs)[i].channel_id == outputs[i].channel_id,
        mapped(outputs)[i].color == outputs[i].color,
{
}

/// The configured device is kept wherever it is there, unless a new choice is asked
/// for. Otherwise somebody who is there is asked; with nobody there a single device
/// is taken, and several are not chosen from. Where there is no device nothing can
/// be chosen.
pub proof fn law_devices_are_settled(
    devices: Seq<String>,
    name: Seq<char>,
    force_select: bool,
    interactive: bool,
)
    ensures
        settled(devices, name, force_select, interactive) is Keep <==> is_present(devices, name)
            && !force_select,
        !is_present(devices, name) || force_select ==> {
            &&& devices.len() == 0 ==> settled(devices, name, force_select, interactive)
                is NoDevices
            &&& devices.len() > 0 && interactive ==> settled(
                devices,
                name,
                force_select,
                interactive,
            ) is Ask
            &&& devices.len() == 1 && !interactive ==> settled(
                devices,
                name,
                force_select,
                interactive,
            ) == DeviceChoice::Only(devices[0])
            &&& devices.len() > 1 && !interactive ==> settled(
                devices,
                name,
                force_select,
                interactive,
            ) is Ambiguous
        },
{
}

/// A file that is named comes before a directory that is named, that before a file
/// in the working directory, and that before the user's own.
pub proof fn law_named_places_come_first(path: String, home: String, local_exists: bool)
    ensures
        forall|other: Option<String>| #[trigger]
            placed(Some(path), other, local_exists) == ConfigPlace::File(path),
        placed(None, Some(home), local_exists) == ConfigPlace::Directory(home),
        placed(None, None, true) == ConfigPlace::Local,
        placed(None, None, false) == ConfigPlace::Standard,
{
}

/// Whoever asks for the wizard gets it; without being asked for it runs only for
/// want of a configuration, and never in place of one that was named.
pub proof fn law_wizard_runs_for_want_of_a_configuration(exists_already: bool, named: bool)
    ensures
        sets_up(true, exists_already, named),
        sets_up(false, false, false),
        !sets_up(false, true, named),
        !sets_up(false, exists_already, true),
{
}

/// `q` ends the program, with Control or without, and `c` with Control alone; no
/// other key does.
pub proof fn law_quit_keys(key: char, control: bool)
    ensures
        ends_program('q', control),
        ends_program('c', true),
        !ends_program('c', false),
        key != 'q' && key != 'c' ==> !ends_program(key, control),
{
}

/// Sleeping for what is left ends at the deadline, and a deadline that has passed
/// leaves nothing.
pub proof fn law_sleep_ends_at_the_deadline(now: u64, deadline: u64)
    ensures
        now <= deadline ==> now + remaining(now, deadline) == deadline,
        now >= deadline ==> remaining(now, deadline) == 0,
{
}

} // verus!
