//! Fixture profiles and the fixtures made from them.

use crate::text::same_text;
use vstd::prelude::*;

verus! {

/// Why a profile gives no fixture.
#[derive(Debug)]
pub enum FixtureError {
    ModeNotFound(String),
    ChannelNotFound(String),
}

impl FixtureError {
    /// The error in words.
    pub open spec fn text(self) -> Seq<char> {
        match self {
            FixtureError::ModeNotFound(name) => "Mode '"@ + name@
                + "' not found in fixture profile"@,
            FixtureError::ChannelNotFound(name) => "Channel '"@ + name@
                + "' not found in fixture profile"@,
        }
    }

    /// The error in words.
    pub fn message(&self) -> (message: String)
        ensures
            message@ == self.text(),
    {
        let (head, name): (&str, &String) = match self {
            FixtureError::ModeNotFound(name) => ("Mode '", name),
            FixtureError::ChannelNotFound(name) => ("Channel '", name),
        };
        let mut message: String = head.to_owned();
        message.append(name.as_str());
        message.append("' not found in fixture profile");
        message
    }
}

/// What a fixture channel controls.
#[derive(Debug, Clone, Copy, PartialEq, Eq, Hash, Structural)]
pub enum CapabilityType {
    Intensity,
    Red,
    Green,
    Blue,
    White,
    Pan,
    Tilt,
    Strobe,
}

impl CapabilityType {
    /// The position of a capability among the eight.
    pub open spec fn slot(self) -> int {
        match self {
            CapabilityType::Intensity => 0,
            CapabilityType::Red => 1,
            CapabilityType::Green => 2,
            CapabilityType::Blue => 3,
            CapabilityType::White => 4,
            CapabilityType::Pan => 5,
            CapabilityType::Tilt => 6,
            CapabilityType::Strobe => 7,
        }
    }

    fn index(self) -> (i: usize)
        ensures
            i == self.slot(),
            i < 8,
    {
        match self {
            CapabilityType::Intensity => 0,
            CapabilityType::Red => 1,
            CapabilityType::Green => 2,
            CapabilityType::Blue => 3,
            CapabilityType::White => 4,
            CapabilityType::Pan => 5,
            CapabilityType::Tilt => 6,
            CapabilityType::Strobe => 7,
        }
    }
}

/// A fixture profile in the Open Fixture Library's terms.
#[derive(Debug, Clone)]
pub struct OflFixture {
    pub name: String,
    /// The channels by name. Of two entries with one name the later one counts.
    pub available_channels: Vec<(String, OflChannel)>,
    pub modes: Vec<OflMode>,
}

#[derive(Debug, Clone)]
pub struct OflChannel {
    pub capabilities: Vec<OflCapability>,
}

#[derive(Debug, Clone)]
pub struct OflCapability {
    pub dmx_range: [u8; 2],
    pub cap_type: String,
    pub color: Option<String>,
}

#[derive(Debug, Clone)]
pub struct OflMode {
    pub name: String,
    pub channels: Vec<String>,
}

/// The first mode of the given name.
pub open spec fn find_mode(modes: Seq<OflMode>, name: Seq<char>) -> Option<OflMode>
    decreases modes.len(),
{
    if modes.len() == 0 {
        None
    } else if modes[0].name@ == name {
        Some(modes[0])
    } else {
        find_mode(modes.skip(1), name)
    }
}

/// The last channel of the given name.
pub open spec fn find_channel(
    channels: Seq<(String, OflChannel)>,
    name: Seq<char>,
) -> Option<OflChannel>
    decreases channels.len(),
{
    if channels.len() == 0 {
        None
    } else if channels.last().0@ == name {
        Some(channels.last().1)
    } else {
        find_channel(channels.drop_last(), name)
    }
}

/// The color a capability names, if any.
pub open spec fn color_text(color: Option<String>) -> Option<Seq<char>> {
    match color {
        Some(name) => Some(name@),
        None => None,
    }
}

/// What a profile's capability is in this engine's terms, if it has one.
pub open spec fn internal_capability(cap: OflCapability) -> Option<CapabilityType> {
    let kind = cap.cap_type@;
    if kind == "Intensity"@ {
        Some(CapabilityType::Intensity)
    } else if kind == "ColorIntensity"@ {
        let color = color_text(cap.color);
        if color == Some("Red"@) {
            Some(CapabilityType::Red)
        } else if color == Some("Green"@) {
            Some(CapabilityType::Green)
        } else if color == Some("Blue"@) {
            Some(CapabilityType::Blue)
        } else if color == Some("White"@) {
            Some(CapabilityType::White)
        } else {
            None
        }
    } else if kind == "Pan"@ {
        Some(CapabilityType::Pan)
    } else if kind == "Tilt"@ {
        Some(CapabilityType::Tilt)
    } else if kind == "Strobe"@ {
        Some(CapabilityType::Strobe)
    } else {
        None
    }
}

/// A profile's capability calls itself by the name of the given one: a color by
/// the type `ColorIntensity` and its own name, anything else by its type.
pub open spec fn names(cap: OflCapability, kind: CapabilityType) -> bool {
    match kind {
        CapabilityType::Intensity => cap.cap_type@ == "Intensity"@,
        CapabilityType::Red => cap.cap_type@ == "ColorIntensity"@ && cap.color is Some
            && cap.color->0@ == "Red"@,
        CapabilityType::Green => cap.cap_type@ == "ColorIntensity"@ && cap.color is Some
            && cap.color->0@ == "Green"@,
        CapabilityType::Blue => cap.cap_type@ == "ColorIntensity"@ && cap.color is Some
            && cap.color->0@ == "Blue"@,
        CapabilityType::White => cap.cap_type@ == "ColorIntensity"@ && cap.color is Some
            && cap.color->0@ == "White"@,
        CapabilityType::Pan => cap.cap_type@ == "Pan"@,
        CapabilityType::Tilt => cap.cap_type@ == "Tilt"@,
        CapabilityType::Strobe => cap.cap_type@ == "Strobe"@,
    }
}

/// One of the capabilities is `kind`.
pub open spec fn has_capability(caps: Seq<OflCapability>, kind: CapabilityType) -> bool {
    exists|i: int| 0 <= i < caps.len() && internal_capability(#[trigger] caps[i]) == Some(kind)
}

/// The channel named `name` has the capability `kind`.
pub open spec fn offers(
    channels: Seq<(String, OflChannel)>,
    name: Seq<char>,
    kind: CapabilityType,
) -> bool {
    match find_channel(channels, name) {
        Some(channel) => has_capability(channel.capabilities@, kind),
        None => false,
    }
}

/// `offset` is the last position in `names` whose channel has the capability.
pub open spec fn last_offering(
    channels: Seq<(String, OflChannel)>,
    names: Seq<String>,
    kind: CapabilityType,
    offset: int,
) -> bool {
    &&& 0 <= offset < names.len()
    &&& offers(channels, names[offset]@, kind)
    &&& forall|i: int|
        offset < i < names.len() ==> !offers(channels, (#[trigger] names[i])@, kind)
}

/// `offsets` gives each capability that a channel in `names` has the position
/// of the last such channel, and holds no other capability.
pub open spec fn offsets_match(
    channels: Seq<(String, OflChannel)>,
    names: Seq<String>,
    offsets: Map<CapabilityType, usize>,
) -> bool {
    forall|kind: CapabilityType|
        {
            &&& #[trigger] offsets.contains_key(kind) ==> last_offering(
                channels,
                names,
                kind,
                offsets[kind] as int,
            )
            &&& !offsets.contains_key(kind) ==> forall|i: int|
                0 <= i < names.len() ==> !offers(channels, (#[trigger] names[i])@, kind)
        }
}

/// DMX offsets by capability.
#[derive(Debug, Clone, Copy)]
pub struct CapabilityOffsets {
    slots: [Option<usize>; 8],
}

impl View for CapabilityOffsets {
    type V = Map<CapabilityType, usize>;

    closed spec fn view(&self) -> Map<CapabilityType, usize> {
        Map::new(
            |kind: CapabilityType| self.slots@[kind.slot()] is Some,
            |kind: CapabilityType| self.slots@[kind.slot()]->0,
        )
    }
}

impl CapabilityOffsets {
    /// No capability has an offset.
    pub fn new() -> (offsets: Self)
        ensures
            offsets@ == Map::<CapabilityType, usize>::empty(),
    {
        let offsets = CapabilityOffsets { slots: [None; 8] };
        assert(offsets@ =~= Map::<CapabilityType, usize>::empty());
        offsets
    }

    /// Gives a capability an offset, in place of one it had.
    pub fn insert(&mut self, kind: CapabilityType, offset: usize)
        ensures
            final(self)@ == old(self)@.insert(kind, offset),
    {
        self.slots[kind.index()] = Some(offset);
        assert(self@ =~= old(self)@.insert(kind, offset));
    }

    /// The offset of a capability.
    pub fn get(&self, kind: CapabilityType) -> (offset: Option<usize>)
        ensures
            offset == if self@.contains_key(kind) {
                Some(self@[kind])
            } else {
                None::<usize>
            },
    {
        self.slots[kind.index()]
    }
}

/// Represents an instantiated fixture in the system.
#[derive(Debug, Clone)]
pub struct FixtureInstance {
    pub id: String,
    pub name: String,
    pub universe: u16,
    /// The first DMX address, counted from 1.
    pub start_address: u16,
    /// Maps a capability to its 0-indexed DMX offset relative to `start_address`.
    pub capability_offsets: CapabilityOffsets,
}

impl FixtureInstance {
    /// The fixture is made from a profile in a mode, for a universe and address.
    pub open spec fn is_made_from(
        self,
        fixture: OflFixture,
        mode: OflMode,
        universe: u16,
        start_address: u16,
    ) -> bool {
        &&& self.name == fixture.name
        &&& self.universe == universe
        &&& self.start_address == start_address
        &&& offsets_match(fixture.available_channels@, mode.channels@, self.capability_offsets@)
    }

    /// The capability, where the fixture has it, lies at a DMX address: they are
    /// counted from 1.
    pub open spec fn addressable(self, kind: CapabilityType) -> bool {
        self.capability_offsets@.contains_key(kind) ==> {
            &&& self.start_address >= 1
            &&& self.start_address - 1 + self.capability_offsets@[kind] <= usize::MAX
        }
    }

    /// The universe and 0-indexed channel of a capability.
    pub open spec fn dmx_address(self, kind: CapabilityType) -> Option<(u16, int)> {
        if self.capability_offsets@.contains_key(kind) {
            Some((self.universe, self.start_address - 1 + self.capability_offsets@[kind]))
        } else {
            None
        }
    }

    /// A fixture with the given profile in the mode of the given name.
    pub fn from_ofl(
        id: String,
        fixture: &OflFixture,
        mode_name: &str,
        universe: u16,
        start_address: u16,
    ) -> (result: Result<Self, FixtureError>)
        ensures
            match find_mode(fixture.modes@, mode_name@) {
                None => result matches Err(FixtureError::ModeNotFound(name)) && name@ == mode_name@,
                Some(mode) => match result {
                    Ok(made) => {
                        &&& forall|i: int|
                            0 <= i < mode.channels@.len() ==> find_channel(
                                fixture.available_channels@,
                                (#[trigger] mode.channels@[i])@,
                            ) is Some
                        &&& made.id == id
                        &&& made.name == fixture.name
                        &&& made.universe == universe
                        &&& made.start_address == start_address
                        &&& made.is_made_from(*fixture, mode, universe, start_address)
                        &&& offsets_match(
                            fixture.available_channels@,
                            mode.channels@,
                            made.capability_offsets@,
                        )
                    },
                    Err(FixtureError::ModeNotFound(_)) => false,
                    Err(FixtureError::ChannelNotFound(name)) => exists|i: int|
                        {
                            &&& 0 <= i < mode.channels@.len()
                            &&& name@ == (#[trigger] mode.channels@[i])@
                            &&& find_channel(
                                fixture.available_channels@,
                                mode.channels@[i]@,
                            ) is None
                            &&& forall|j: int|
                                0 <= j < i ==> find_channel(
                                    fixture.available_channels@,
                                    (#[trigger] mode.channels@[j])@,
                                ) is Some
                        },
                },
            },
    {
        let mode: &OflMode = match first_mode(&fixture.modes, mode_name) {
            Some(mode) => mode,
            None => {
                return Err(FixtureError::ModeNotFound(mode_name.to_owned()));
            },
        };
        let ghost channels = fixture.available_channels@;
        let ghost names = mode.channels@;
        let mut offsets = CapabilityOffsets::new();
        let mut offset: usize = 0;
        while offset < mode.channels.len()
            invariant
                channels == fixture.available_channels@,
                names == mode.channels@,
                find_mode(fixture.modes@, mode_name@) == Some(*mode),
                offset <= names.len(),
                forall|i: int|
                    0 <= i < offset ==> find_channel(channels, (#[trigger] names[i])@) is Some,
                offsets_match(channels, names.take(offset as int), offsets@),
            decreases names.len() - offset,
        {
            let name: &String = &mode.channels[offset];
            let channel: &OflChannel = match last_channel(
                &fixture.available_channels,
                name.as_str(),
            ) {
                Some(channel) => channel,
                None => {
                    return Err(FixtureError::ChannelNotFound(name.clone()));
                },
            };
            let ghost before = offsets@;
            add_channel(&mut offsets, &channel.capabilities, offset);
            proof {
                lemma_channel_added(
                    channels,
                    names,
                    offset,
                    channel.capabilities@,
                    before,
                    offsets@,
                );
            }
            offset += 1;
        }
        assert(names.take(offset as int) =~= names);
        Ok(
            FixtureInstance {
                id,
                name: fixture.name.clone(),
                universe,
                start_address,
                capability_offsets: offsets,
            },
        )
    }

    /// Returns the absolute DMX address (universe, channel_0_indexed) for a specific capability.
    /// Returns None if the capability is not supported by this fixture.
    pub fn get_dmx_address(&self, cap_type: CapabilityType) -> (address: Option<(u16, usize)>)
        requires
            self.addressable(cap_type),
        ensures
            match address {
                Some((universe, channel)) => self.dmx_address(cap_type) == Some(
                    (universe, channel as int),
                ),
                None => self.dmx_address(cap_type) is None,
            },
    {
        match self.capability_offsets.get(cap_type) {
            // start_address is 1-indexed, convert to 0-indexed for buffer access
            Some(offset) => Some((self.universe, (self.start_address as usize - 1) + offset)),
            None => None,
        }
    }
}

/// `after` is `before` with every capability of one more channel at `offset`.
spec fn channel_added(
    before: Map<CapabilityType, usize>,
    caps: Seq<OflCapability>,
    offset: usize,
    after: Map<CapabilityType, usize>,
) -> bool {
    forall|kind: CapabilityType|
        if has_capability(caps, kind) {
            #[trigger] after.contains_key(kind) && after[kind] == offset
        } else {
            &&& after.contains_key(kind) == before.contains_key(kind)
            &&& after.contains_key(kind) ==> after[kind] == before[kind]
        }
}

/// Adding a channel keeps the offsets right.
proof fn lemma_channel_added(
    channels: Seq<(String, OflChannel)>,
    names: Seq<String>,
    offset: usize,
    caps: Seq<OflCapability>,
    before: Map<CapabilityType, usize>,
    after: Map<CapabilityType, usize>,
)
    requires
        offset < names.len(),
        offsets_match(channels, names.take(offset as int), before),
        find_channel(channels, names[offset as int]@) matches Some(channel)
            && channel.capabilities@ == caps,
        channel_added(before, caps, offset, after),
    ensures
        offsets_match(channels, names.take(offset + 1), after),
{
    let old_names = names.take(offset as int);
    let new_names = names.take(offset + 1);
    assert forall|i: int| 0 <= i < offset implies #[trigger] new_names[i] == old_names[i] by {}
    assert forall|kind: CapabilityType|
        {
            &&& #[trigger] after.contains_key(kind) ==> last_offering(
                channels,
                new_names,
                kind,
                after[kind] as int,
            )
            &&& !after.contains_key(kind) ==> forall|i: int|
                0 <= i < new_names.len() ==> !offers(channels, (#[trigger] new_names[i])@, kind)
        } by {
        assert(new_names[offset as int] == names[offset as int]);
        assert(offers(channels, names[offset as int]@, kind) == has_capability(caps, kind));
        if !has_capability(caps, kind) {
            assert(before.contains_key(kind) == after.contains_key(kind));
        }
    }
}

/// Gives every capability of a channel the given offset.
fn add_channel(offsets: &mut CapabilityOffsets, caps: &Vec<OflCapability>, offset: usize)
    ensures
        channel_added(old(offsets)@, caps@, offset, final(offsets)@),
{
    let ghost before = offsets@;
    let mut i: usize = 0;
    while i < caps.len()
        invariant
            i <= caps@.len(),
            channel_added(before, caps@.take(i as int), offset, offsets@),
        decreases caps@.len() - i,
    {
        let ghost middle = offsets@;
        let kind = map_ofl_capability_to_internal(&caps[i]);
        if let Some(kind) = kind {
            offsets.insert(kind, offset);
        }
        proof {
            let old_caps = caps@.take(i as int);
            let new_caps = caps@.take(i + 1);
            assert forall|k: CapabilityType| has_capability(new_caps, k) == (has_capability(
                old_caps,
                k,
            ) || kind == Some(k)) by {
                if has_capability(old_caps, k) {
                    let j = choose|j: int|
                        0 <= j < old_caps.len() && internal_capability(#[trigger] old_caps[j])
                            == Some(k);
                    assert(new_caps[j] == old_caps[j]);
                }
                if kind == Some(k) {
                    assert(new_caps[i as int] == caps@[i as int]);
                }
                if has_capability(new_caps, k) {
                    let j = choose|j: int|
                        0 <= j < new_caps.len() && internal_capability(#[trigger] new_caps[j])
                            == Some(k);
                    if j < i {
                        assert(old_caps[j] == new_caps[j]);
                    }
                }
            }
            assert forall|k: CapabilityType|
                if has_capability(new_caps, k) {
                    #[trigger] offsets@.contains_key(k) && offsets@[k] == offset
                } else {
                    &&& offsets@.contains_key(k) == before.contains_key(k)
                    &&& offsets@.contains_key(k) ==> offsets@[k] == before[k]
                } by {
                assert(has_capability(new_caps, k) == (has_capability(old_caps, k) || kind == Some(
                    k,
                )));
                assert(has_capability(old_caps, k) ==> middle.contains_key(k));
            }
        }
        i += 1;
    }
    assert(caps@.take(i as int) =~= caps@);
}

/// The first mode of the given name.
fn first_mode<'a>(modes: &'a Vec<OflMode>, name: &str) -> (found: Option<&'a OflMode>)
    ensures
        match found {
            Some(mode) => find_mode(modes@, name@) == Some(*mode),
            None => find_mode(modes@, name@) is None,
        },
{
    let mut i: usize = 0;
    assert(modes@.skip(0) =~= modes@);
    while i < modes.len()
        invariant
            i <= modes@.len(),
            find_mode(modes@, name@) == find_mode(modes@.skip(i as int), name@),
        decreases modes@.len() - i,
    {
        if same_text(modes[i].name.as_str(), name) {
            return Some(&modes[i]);
        }
        assert(modes@.skip(i as int).skip(1) =~= modes@.skip(i + 1));
        i += 1;
    }
    None
}

/// The last channel of the given name.
fn last_channel<'a>(channels: &'a Vec<(String, OflChannel)>, name: &str) -> (found: Option<
    &'a OflChannel,
>)
    ensures
        match found {
            Some(channel) => find_channel(channels@, name@) == Some(*channel),
            None => find_channel(channels@, name@) is None,
        },
{
    let mut i: usize = channels.len();
    assert(channels@.take(channels@.len() as int) =~= channels@);
    while i > 0
        invariant
            i <= channels@.len(),
            find_channel(channels@, name@) == find_channel(channels@.take(i as int), name@),
        decreases i,
    {
        i -= 1;
        let ghost left = channels@.take(i + 1);
        assert(left.drop_last() =~= channels@.take(i as int));
        assert(left.last() == channels@[i as int]);
        if same_text(channels[i].0.as_str(), name) {
            return Some(&channels[i].1);
        }
    }
    None
}

/// What a profile's capability is in this engine's terms, if it has one.
pub fn map_ofl_capability_to_internal(cap: &OflCapability) -> (kind: Option<CapabilityType>)
    ensures
        kind == internal_capability(*cap),
        match kind {
            Some(kind) => names(*cap, kind),
            None => forall|other: CapabilityType| !#[trigger] names(*cap, other),
        },
{
    proof {
        law_capabilities_go_by_their_names(*cap);
    }
    let name: &str = cap.cap_type.as_str();
    if same_text(name, "Intensity") {
        Some(CapabilityType::Intensity)
    } else if same_text(name, "ColorIntensity") {
        match &cap.color {
            Some(color) => {
                if same_text(color.as_str(), "Red") {
                    Some(CapabilityType::Red)
                } else if same_text(color.as_str(), "Green") {
                    Some(CapabilityType::Green)
                } else if same_text(color.as_str(), "Blue") {
                    Some(CapabilityType::Blue)
                } else if same_text(color.as_str(), "White") {
                    Some(CapabilityType::White)
                } else {
                    None
                }
            },
            None => None,
        }
    } else if same_text(name, "Pan") {
        Some(CapabilityType::Pan)
    } else if same_text(name, "Tilt") {
        Some(CapabilityType::Tilt)
    } else if same_text(name, "Strobe") {
        Some(CapabilityType::Strobe)
    } else {
        None
    }
}

/// The names by which capabilities go all differ.
proof fn lemma_names_differ()
    ensures
        "Intensity"@ != "ColorIntensity"@,
        "Intensity"@ != "Pan"@,
        "Intensity"@ != "Tilt"@,
        "Intensity"@ != "Strobe"@,
        "ColorIntensity"@ != "Pan"@,
        "ColorIntensity"@ != "Tilt"@,
        "ColorIntensity"@ != "Strobe"@,
        "Pan"@ != "Tilt"@,
        "Pan"@ != "Strobe"@,
        "Tilt"@ != "Strobe"@,
        "Red"@ != "Green"@,
        "Red"@ != "Blue"@,
        "Red"@ != "White"@,
        "Green"@ != "Blue"@,
        "Green"@ != "White"@,
        "Blue"@ != "White"@,
{
    reveal_strlit("Intensity");
    reveal_strlit("ColorIntensity");
    reveal_strlit("Pan");
    reveal_strlit("Tilt");
    reveal_strlit("Strobe");
    reveal_strlit("Red");
    reveal_strlit("Green");
    reveal_strlit("Blue");
    reveal_strlit("White");
    assert("Intensity"@.len() == 9 && "ColorIntensity"@.len() == 14 && "Pan"@.len() == 3);
    assert("Tilt"@.len() == 4 && "Strobe"@.len() == 6);
    assert("Red"@.len() == 3 && "Green"@.len() == 5 && "Blue"@.len() == 4 && "White"@.len() == 5);
    assert("Green"@[0] != "White"@[0]);
}

/// A profile's capability is the one that it calls itself by: the type
/// `ColorIntensity` with the color Red, Green, Blue or White is that very color,
/// and the types Intensity, Pan, Tilt and Strobe are the capabilities of those
/// names. Whatever goes by none of the eight names is none of them.
pub proof fn law_capabilities_go_by_their_names(cap: OflCapability)
    ensures
        cap.cap_type@ == "Intensity"@ ==> internal_capability(cap) == Some(
            CapabilityType::Intensity,
        ),
        cap.cap_type@ == "ColorIntensity"@ && (cap.color matches Some(c) && c@ == "Red"@)
            ==> internal_capability(cap) == Some(CapabilityType::Red),
        cap.cap_type@ == "ColorIntensity"@ && (cap.color matches Some(c) && c@ == "Green"@)
            ==> internal_capability(cap) == Some(CapabilityType::Green),
        cap.cap_type@ == "ColorIntensity"@ && (cap.color matches Some(c) && c@ == "Blue"@)
            ==> internal_capability(cap) == Some(CapabilityType::Blue),
        cap.cap_type@ == "ColorIntensity"@ && (cap.color matches Some(c) && c@ == "White"@)
            ==> internal_capability(cap) == Some(CapabilityType::White),
        cap.cap_type@ == "Pan"@ ==> internal_capability(cap) == Some(CapabilityType::Pan),
        cap.cap_type@ == "Tilt"@ ==> internal_capability(cap) == Some(CapabilityType::Tilt),
        cap.cap_type@ == "Strobe"@ ==> internal_capability(cap) == Some(CapabilityType::Strobe),
        forall|kind: CapabilityType| #[trigger]
            names(cap, kind) <==> internal_capability(cap) == Some(kind),
{
    lemma_names_differ();
}

/// A fixture that is made from a profile has each capability at the last channel
/// of the mode that names it: where the channel at a position has a capability
/// that goes by the name and no channel after it has one, the DMX channel of that
/// capability is the start address, counted from 1, and the position. Where no
/// channel has one, the fixture has no such capability.
pub proof fn law_capabilities_lie_where_the_mode_names_them(
    fixture: FixtureInstance,
    channels: Seq<(String, OflChannel)>,
    mode: Seq<String>,
    kind: CapabilityType,
    position: int,
)
    requires
        offsets_match(channels, mode, fixture.capability_offsets@),
        0 <= position < mode.len(),
    ensures
        is_named_at(channels, mode, kind, position) && (forall|later: int|
            position < later < mode.len() ==> !#[trigger] is_named_at(channels, mode, kind, later))
            ==> fixture.dmx_address(kind) == Some(
            (fixture.universe, fixture.start_address - 1 + position),
        ),
        (forall|other: int|
            0 <= other < mode.len() ==> !#[trigger] is_named_at(channels, mode, kind, other))
            ==> fixture.dmx_address(kind) is None,
{
    assert forall|i: int| 0 <= i < mode.len() implies #[trigger] is_named_at(
        channels,
        mode,
        kind,
        i,
    ) == offers(channels, mode[i]@, kind) by {
        lemma_named_is_offered(channels, mode, kind, i);
    }
    let offsets = fixture.capability_offsets@;
    if offsets.contains_key(kind) {
        let k = offsets[kind] as int;
        assert(last_offering(channels, mode, kind, k));
        assert(is_named_at(channels, mode, kind, k));
        assert(is_named_at(channels, mode, kind, position) == offers(
            channels,
            mode[position]@,
            kind,
        ));
    } else {
        assert(!offers(channels, mode[position]@, kind));
        assert(!is_named_at(channels, mode, kind, position));
    }
}

/// The channel at a position of a mode, the last that the profile defines by that
/// name, has a capability that goes by the given name.
pub open spec fn is_named_at(
    channels: Seq<(String, OflChannel)>,
    mode: Seq<String>,
    kind: CapabilityType,
    position: int,
) -> bool {
    exists|n: int, c: int|
        {
            &&& 0 <= n < channels.len()
            &&& channels[n].0@ == mode[position]@
            &&& forall|later: int|
                n < later < channels.len() ==> (#[trigger] channels[later]).0@ != mode[position]@
            &&& 0 <= c < channels[n].1.capabilities@.len()
            &&& names(#[trigger] channels[n].1.capabilities@[c], kind)
        }
}

/// A channel offers a capability where one of its capabilities names it.
proof fn lemma_named_is_offered(
    channels: Seq<(String, OflChannel)>,
    mode: Seq<String>,
    kind: CapabilityType,
    position: int,
)
    ensures
        is_named_at(channels, mode, kind, position) == offers(channels, mode[position]@, kind),
{
    let name = mode[position]@;
    law_last_channel_of_a_name_counts(channels, name);
    assert forall|cap: OflCapability| names(cap, kind) == (#[trigger] internal_capability(cap)
        == Some(kind)) by {
        law_capabilities_go_by_their_names(cap);
    }
    if is_named_at(channels, mode, kind, position) {
        let (n, c) = choose|n: int, c: int|
            {
                &&& 0 <= n < channels.len()
                &&& channels[n].0@ == name
                &&& forall|later: int|
                    n < later < channels.len() ==> (#[trigger] channels[later]).0@ != name
                &&& 0 <= c < channels[n].1.capabilities@.len()
                &&& names(#[trigger] channels[n].1.capabilities@[c], kind)
            };
        assert(internal_capability(channels[n].1.capabilities@[c]) == Some(kind));
        assert(channels[n].0@ == name);
    }
    if offers(channels, name, kind) {
        let channel = find_channel(channels, name)->0;
        let c = choose|c: int|
            0 <= c < channel.capabilities@.len() && internal_capability(
                #[trigger] channel.capabilities@[c],
            ) == Some(kind);
        let n = choose|n: int|
            {
                &&& 0 <= n < channels.len()
                &&& (#[trigger] channels[n]).0@ == name
                &&& channels[n].1 == channel
                &&& forall|later: int|
                    n < later < channels.len() ==> (#[trigger] channels[later]).0@ != name
            };
        assert(names(channels[n].1.capabilities@[c], kind));
    }
}

/// Of several channels of one name the last counts, and a name without a channel
/// has none.
pub proof fn law_last_channel_of_a_name_counts(
    channels: Seq<(String, OflChannel)>,
    name: Seq<char>,
)
    ensures
        match find_channel(channels, name) {
            Some(channel) => exists|n: int|
                {
                    &&& 0 <= n < channels.len()
                    &&& (#[trigger] channels[n]).0@ == name
                    &&& channels[n].1 == channel
                    &&& forall|later: int|
                        n < later < channels.len() ==> (#[trigger] channels[later]).0@ != name
                },
            None => forall|n: int| 0 <= n < channels.len() ==> (#[trigger] channels[n]).0@ != name,
        },
    decreases channels.len(),
{
    if channels.len() > 0 {
        let rest = channels.drop_last();
        law_last_channel_of_a_name_counts(rest, name);
        let end = channels.len() - 1;
        if channels.last().0@ == name {
            assert(channels[end].0@ == name);
        } else if let Some(channel) = find_channel(rest, name) {
            let n = choose|n: int|
                {
                    &&& 0 <= n < rest.len()
                    &&& (#[trigger] rest[n]).0@ == name
                    &&& rest[n].1 == channel
                    &&& forall|later: int|
                        n < later < rest.len() ==> (#[trigger] rest[later]).0@ != name
                };
            assert(channels[n].0@ == name && channels[n].1 == channel);
            assert forall|later: int| n < later < channels.len() implies (
            #[trigger] channels[later]).0@ != name by {
                if later < end {
                    assert(rest[later].0@ != name);
                }
            }
        } else {
            assert forall|n: int| 0 <= n < channels.len() implies (#[trigger] channels[n]).0@
                != name by {
                if n < end {
                    assert(rest[n].0@ != name);
                }
            }
        }
    }
}

/// Of several modes of one name the first counts, and a name without a mode has
/// none.
pub proof fn law_first_mode_of_a_name_counts(modes: Seq<OflMode>, name: Seq<char>)
    ensures
        match find_mode(modes, name) {
            Some(mode) => exists|n: int|
                {
                    &&& 0 <= n < modes.len()
                    &&& (#[trigger] modes[n]).name@ == name
                    &&& modes[n] == mode
                    &&& forall|earlier: int|
                        0 <= earlier < n ==> (#[trigger] modes[earlier]).name@ != name
                },
            None => forall|n: int| 0 <= n < modes.len() ==> (#[trigger] modes[n]).name@ != name,
        },
    decreases modes.len(),
{
    if modes.len() > 0 {
        let rest = modes.skip(1);
        law_first_mode_of_a_name_counts(rest, name);
        if modes[0].name@ == name {
            assert(modes[0].name@ == name);
        } else if let Some(mode) = find_mode(rest, name) {
            let n = choose|n: int|
                {
                    &&& 0 <= n < rest.len()
                    &&& (#[trigger] rest[n]).name@ == name
                    &&& rest[n] == mode
                    &&& forall|earlier: int|
                        0 <= earlier < n ==> (#[trigger] rest[earlier]).name@ != name
                };
            assert(modes[n + 1] == rest[n]);
            assert forall|earlier: int| 0 <= earlier < n + 1 implies (
            #[trigger] modes[earlier]).name@ != name by {
                if earlier > 0 {
                    assert(rest[earlier - 1].name@ != name);
                }
            }
        } else {
            assert forall|n: int| 0 <= n < modes.len() implies (#[trigger] modes[n]).name@
                != name by {
                if n > 0 {
                    assert(rest[n - 1].name@ != name);
                }
            }
        }
    }
}

/// A fixture is addressed where it was put: in the given universe, and the channel
/// at a position of its mode at the given start address, counted from 1, and that
/// position, where a capability is named there and by no later channel.
pub proof fn law_fixtures_are_addressed_where_they_are_put(
    made: FixtureInstance,
    fixture: OflFixture,
    mode: OflMode,
    universe: u16,
    start_address: u16,
    kind: CapabilityType,
    position: int,
)
    requires
        made.is_made_from(fixture, mode, universe, start_address),
        0 <= position < mode.channels@.len(),
        is_named_at(fixture.available_channels@, mode.channels@, kind, position),
        forall|later: int|
            position < later < mode.channels@.len() ==> !#[trigger] is_named_at(
                fixture.available_channels@,
                mode.channels@,
                kind,
                later,
            ),
    ensures
        made.dmx_address(kind) == Some((universe, start_address - 1 + position)),
        made.name == fixture.name,
{
    law_capabilities_lie_where_the_mode_names_them(
        made,
        fixture.available_channels@,
        mode.channels@,
        kind,
        position,
    );
}

} // verus!
