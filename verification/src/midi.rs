//! MIDI input: which messages are triggers, and which port is meant.

use crate::source::SourceEvent;
use crate::text::{contains, contains_text, law_what_stands_in_a_text_is_found};
use std::collections::HashMap;
use vstd::prelude::*;

verus! {

broadcast use vstd::std_specs::hash::group_hash_axioms;

/// The message strikes a note: its status is Note On, on any channel, and its
/// velocity is not zero.
pub open spec fn is_note_on(message: Seq<u8>) -> bool {
    message.len() >= 3 && message[0] / 16 == 9 && message[2] > 0
}

/// The event that a message calls for, given the behavior that each note triggers.
pub open spec fn event_of(ids: Map<u8, u16>, message: Seq<u8>) -> Option<SourceEvent> {
    if is_note_on(message) && ids.contains_key(message[1]) {
        Some(SourceEvent::Trigger { id: ids[message[1]], velocity: message[2] })
    } else {
        None
    }
}

/// The name of a port holds the text by which it is looked for.
pub open spec fn name_matches(name: Option<String>, target: Seq<char>) -> bool {
    match name {
        Some(name) => contains_text(name@, target),
        None => false,
    }
}

/// The first of the ports whose name holds the text by which it is looked for.
pub open spec fn port_of(names: Seq<Option<String>>, target: Seq<char>) -> Option<usize>
    decreases names.len(),
{
    if names.len() == 0 {
        None
    } else {
        let end = names.len() - 1;
        match port_of(names.drop_last(), target) {
            Some(i) => Some(i),
            None => if name_matches(names[end], target) {
                Some(end as usize)
            } else {
                None
            },
        }
    }
}

/// The names that could be resolved, in order.
pub open spec fn resolved(names: Seq<Option<String>>) -> Seq<String>
    decreases names.len(),
{
    if names.len() == 0 {
        Seq::empty()
    } else {
        match names.last() {
            Some(name) => resolved(names.drop_last()).push(name),
            None => resolved(names.drop_last()),
        }
    }
}

/// A MIDI device and what its notes mean.
pub struct MidiSource {
    target_device: String,
    id_map: HashMap<u8, u16>,
}

impl MidiSource {
    /// The text by which the device's port is found.
    pub closed spec fn device(self) -> Seq<char> {
        self.target_device@
    }

    /// The behavior that each note triggers.
    pub closed spec fn ids(self) -> Map<u8, u16> {
        self.id_map@
    }

    /// A source for the device whose port name holds `target_device`.
    pub fn new(target_device: &str, id_map: HashMap<u8, u16>) -> (source: Self)
        ensures
            source.device() == target_device@,
            source.ids() == id_map@,
    {
        MidiSource { target_device: target_device.to_owned(), id_map }
    }

    /// The text by which the device's port is found.
    pub fn target_device(&self) -> (name: &str)
        ensures
            name@ == self.device(),
    {
        self.target_device.as_str()
    }

    /// The event that a MIDI message calls for: a trigger where it strikes a
    /// note that is mapped, and none otherwise.
    pub fn event_for(&self, message: &[u8]) -> (event: Option<SourceEvent>)
        ensures
            event == if is_note_on(message@) && self.ids().contains_key(message@[1]) {
                Some(
                    SourceEvent::Trigger {
                        id: self.ids()[message@[1]],
                        velocity: message@[2],
                    },
                )
            } else {
                None::<SourceEvent>
            },
            event == event_of(self.ids(), message@),
    {
        if message.len() < 3 {
            return None;
        }
        let status: u8 = message[0];
        let note: u8 = message[1];
        let velocity: u8 = message[2];
        let entry: Option<&u16> = self.id_map.get(&note);
        match entry {
            Some(internal_id) => if status / 16 == 9 && velocity > 0 {
                Some(SourceEvent::Trigger { id: *internal_id, velocity })
            } else {
                // Releases are not handled
                None
            },
            None => None,
        }
    }
}

/// Of the names of the available ports, in order, those that could be resolved.
pub fn list_midi_devices(names: &Vec<Option<String>>) -> (devices: Vec<String>)
    ensures
        devices@ == resolved(names@),
{
    let mut devices: Vec<String> = Vec::new();
    let mut i: usize = 0;
    while i < names.len()
        invariant
            i <= names@.len(),
            devices@ == resolved(names@.take(i as int)),
        decreases names@.len() - i,
    {
        assert(names@.take(i + 1).drop_last() =~= names@.take(i as int));
        assert(names@.take(i + 1).last() == names@[i as int]);
        if let Some(name) = &names[i] {
            devices.push(name.clone());
        }
        i += 1;
    }
    assert(names@.take(i as int) =~= names@);
    devices
}

/// Finds a MIDI input port by substring match: the first of the available
/// ports whose name could be resolved and holds `target_name`.
pub fn find_midi_port(names: &Vec<Option<String>>, target_name: &str) -> (port: Option<usize>)
    ensures
        port == port_of(names@, target_name@),
        match port {
            Some(i) => {
                &&& i < names@.len()
                &&& name_matches(names@[i as int], target_name@)
                &&& forall|j: int|
                    0 <= j < i ==> !name_matches(#[trigger] names@[j], target_name@)
            },
            None => forall|j: int|
                0 <= j < names@.len() ==> !name_matches(#[trigger] names@[j], target_name@),
        },
{
    let mut i: usize = 0;
    while i < names.len()
        invariant
            i <= names@.len(),
            forall|j: int| 0 <= j < i ==> !name_matches(#[trigger] names@[j], target_name@),
        decreases names@.len() - i,
    {
        if let Some(name) = &names[i] {
            if contains(name.as_str(), target_name) {
                proof {
                    lemma_port(names@, target_name@, Some(i));
                }
                return Some(i);
            }
        }
        i += 1;
    }
    proof {
        lemma_port(names@, target_name@, None);
    }
    None
}

/// The first port that is meant is the one at which the search stops.
proof fn lemma_port(names: Seq<Option<String>>, target: Seq<char>, port: Option<usize>)
    requires
        match port {
            Some(i) => {
                &&& i < names.len()
                &&& name_matches(names[i as int], target)
                &&& forall|j: int| 0 <= j < i ==> !name_matches(#[trigger] names[j], target)
            },
            None => forall|j: int| 0 <= j < names.len() ==> !name_matches(#[trigger] names[j], target),
        },
        names.len() <= usize::MAX,
    ensures
        port == port_of(names, target),
    decreases names.len(),
{
    if names.len() > 0 {
        let (rest, end) = (names.drop_last(), names.len() - 1);
        if port == Some(end as usize) {
            lemma_port(rest, target, None);
        } else {
            if let Some(i) = port {
                assert(rest[i as int] == names[i as int]);
            }
            lemma_port(rest, target, port);
        }
    }
}

/// A message strikes a note exactly where it is three bytes or more, its status
/// is 0x90 to 0x9F and its velocity is not zero.
pub proof fn law_strikes_are_note_on_with_velocity(message: Seq<u8>)
    ensures
        is_note_on(message) <==> message.len() >= 3 && 0x90 <= message[0] <= 0x9F && message[2]
            != 0,
{
}

/// The names that could be resolved are all listed, in order, and no others: where
/// every name could be, there are as many and each is its own, and one more name at
/// the end is one more at the end of the list.
pub proof fn law_resolved_names_are_listed(names: Seq<Option<String>>, more: Option<String>)
    ensures
        resolved(names.push(more)) == (match more {
            Some(name) => resolved(names).push(name),
            None => resolved(names),
        }),
        resolved(Seq::<Option<String>>::empty()) == Seq::<String>::empty(),
        forall|name: String| #[trigger]
            resolved(names).contains(name) <==> names.contains(Some(name)),
    decreases names.len(),
{
    assert(names.push(more).drop_last() =~= names);
    if names.len() > 0 {
        let (rest, last) = (names.drop_last(), names.last());
        law_resolved_names_are_listed(rest, last);
        assert(rest.push(last) =~= names);
        let (older, all) = (resolved(rest), resolved(names));
        assert forall|name: String| #[trigger] all.contains(name) <==> names.contains(
            Some(name),
        ) by {
            if all.contains(name) {
                let k = choose|k: int| 0 <= k < all.len() && all[k] == name;
                if k < older.len() {
                    assert(older[k] == name);
                    assert(older.contains(name));
                    let j = choose|j: int| 0 <= j < rest.len() && rest[j] == Some(name);
                    assert(names[j] == Some(name));
                } else {
                    assert(names[names.len() - 1] == Some(name));
                }
            }
            if names.contains(Some(name)) {
                let j = choose|j: int| 0 <= j < names.len() && names[j] == Some(name);
                if j < rest.len() {
                    assert(rest[j] == Some(name));
                    assert(older.contains(name));
                    let k = choose|k: int| 0 <= k < older.len() && older[k] == name;
                    assert(all[k] == name);
                } else {
                    assert(all[all.len() - 1] == name);
                }
            }
        }
    }
}

/// A struck note that is mapped triggers its own behavior with its own velocity:
/// Note On, on any of the 16 channels, whatever follows the velocity. A note that
/// is released, struck with no velocity or not mapped triggers nothing, and neither
/// does any other message.
pub proof fn law_struck_notes_trigger_their_behavior(
    ids: Map<u8, u16>,
    channel: u8,
    note: u8,
    velocity: u8,
    rest: Seq<u8>,
    status: u8,
)
    requires
        channel < 16,
    ensures
        ids.contains_key(note) && velocity > 0 ==> event_of(
            ids,
            seq![(0x90 + channel) as u8, note, velocity] + rest,
        ) == Some(SourceEvent::Trigger { id: ids[note], velocity }),
        !ids.contains_key(note) || velocity == 0 || status < 0x90 || status > 0x9F ==> event_of(
            ids,
            seq![status, note, velocity] + rest,
        ) is None,
        rest.len() < 3 ==> event_of(ids, rest) is None,
{
    let struck = seq![(0x90 + channel) as u8, note, velocity] + rest;
    assert(struck[0] == 0x90 + channel && struck[1] == note && struck[2] == velocity);
    let other = seq![status, note, velocity] + rest;
    assert(other[0] == status && other[1] == note && other[2] == velocity);
}

/// A port is found by any part of its name, the first of several, and a port whose
/// name could not be resolved is not.
pub proof fn law_first_port_of_a_name_is_found(
    names: Seq<Option<String>>,
    target: Seq<char>,
    i: int,
    before: Seq<char>,
    after: Seq<char>,
)
    requires
        names.len() <= usize::MAX,
        0 <= i < names.len(),
    ensures
        names[i] matches Some(name) && name@ == before + target + after ==> (port_of(names, target)
            matches Some(k) && k <= i),
        port_of(names, target) matches Some(k) ==> k < names.len() && (names[k as int] matches Some(
            found,
        ) && contains_text(found@, target)),
    decreases names.len(),
{
    let (rest, end) = (names.drop_last(), names.len() - 1);
    law_what_stands_in_a_text_is_found(before, target, after);
    if rest.len() > 0 {
        law_first_port_of_a_name_is_found(
            rest,
            target,
            if i < end {
                i
            } else {
                0
            },
            before,
            after,
        );
    }
    if i < end {
        assert(rest[i] == names[i]);
    }
    if let Some(k) = port_of(rest, target) {
        assert(rest.len() > 0);
        assert(rest[k as int] == names[k as int]);
    } else {
        assert(name_matches(names[end], target) ==> port_of(names, target) == Some(end as usize));
    }
}

} // verus!
