//! Philips Hue entertainment streaming: which lights are streamed to, and the
//! packets that carry their colors.

use crate::artnet::{high_byte, low_byte, next_sequence};
use crate::binary32::{
    law_brighter_has_no_lower_level16, law_level16_is_proportional, lemma_full_levels,
    lemma_zero_level16, level16, one, to_level16, units, FULL, INFINITY,
};
use crate::envelope::DecayEnvelope;
use crate::json::Json;
use crate::text::{law_removing_a_character_keeps_the_others, replace_all, replaced};
use byteorder::{BigEndian, WriteBytesExt};
use hex::FromHexError;
use std::collections::HashMap;
use vstd::prelude::*;
use vstd::utf8::encode_utf8;

verus! {

broadcast use vstd::std_specs::hash::group_hash_axioms;

/// Compiled mapping for a single Hue light channel in an Entertainment Area.
#[derive(Debug, Clone, Copy)]
pub struct HueOutputMapping {
    pub internal_id: usize,
    pub channel_id: u8,
    pub color: Option<[u8; 3]>,
}

/// Why streaming to a bridge fails.
#[derive(Debug)]
pub enum HueError {
    /// The area's ID is no UUID.
    AreaId,
    /// The area has none of the channels that are mapped.
    NoChannels(String),
    /// Nobody takes frames any more.
    Closed,
}

impl HueError {
    /// The error in words.
    pub open spec fn text(self) -> Seq<char> {
        match self {
            HueError::AreaId => "Hue area_id must be exactly 36 characters (UUID)"@,
            HueError::NoChannels(area) => "No valid Hue channels found in Entertainment Area "@
                + area@ + ". Aborting stream."@,
            HueError::Closed => "Hue background thread closed"@,
        }
    }

    /// The error in words.
    pub fn message(&self) -> (message: String)
        ensures
            message@ == self.text(),
    {
        match self {
            HueError::AreaId => "Hue area_id must be exactly 36 characters (UUID)".to_owned(),
            HueError::NoChannels(area) => {
                let mut message: String =
                    "No valid Hue channels found in Entertainment Area ".to_owned();
                message.append(area.as_str());
                message.append(". Aborting stream.");
                message
            },
            HueError::Closed => "Hue background thread closed".to_owned(),
        }
    }
}

/// An area ID has the length of a UUID, in bytes.
pub open spec fn is_area_id(area_id: Seq<char>) -> bool {
    encode_utf8(area_id).len() == 36
}

/// The fixed part of a packet before the area ID: the protocol's name, version
/// 2.0, the sequence number, two reserved bytes, the RGB color space and one
/// more reserved byte.
pub open spec fn packet_head(sequence: u8) -> Seq<u8> {
    seq![
        0x48u8, 0x75u8, 0x65u8, 0x53u8, 0x74u8, 0x72u8, 0x65u8, 0x61u8, 0x6Du8,
        0x02u8, 0x00u8,
        sequence,
        0x00u8, 0x00u8,
        0x00u8,
        0x00u8
    ]
}

/// The intensity of a mapping, none where the frame does not reach so far.
pub open spec fn intensity_at(intensities: Seq<u32>, idx: int) -> u32 {
    if 0 <= idx < intensities.len() {
        intensities[idx]
    } else {
        0
    }
}

/// The red, green and blue level of a light: its color's channels, widened to
/// 16 bits and scaled by the intensity, or white of the intensity.
pub open spec fn light_levels(color: Option<[u8; 3]>, intensity: u32) -> (u16, u16, u16) {
    match color {
        Some(rgb) => (
            level16(rgb@[0] as nat * 257, intensity) as u16,
            level16(rgb@[1] as nat * 257, intensity) as u16,
            level16(rgb@[2] as nat * 257, intensity) as u16,
        ),
        None => (
            level16(65535, intensity) as u16,
            level16(65535, intensity) as u16,
            level16(65535, intensity) as u16,
        ),
    }
}

/// The seven bytes of one light: its channel, and its red, green and blue level
/// with the high byte first.
pub open spec fn channel_bytes(channel_id: u8, levels: (u16, u16, u16)) -> Seq<u8> {
    let (r, g, b) = levels;
    seq![
        channel_id,
        high_byte(r), low_byte(r),
        high_byte(g), low_byte(g),
        high_byte(b), low_byte(b)
    ]
}

/// The seven bytes of a mapped light.
pub open spec fn light_bytes(mapping: HueOutputMapping, intensity: u32) -> Seq<u8> {
    channel_bytes(mapping.channel_id, light_levels(mapping.color, intensity))
}

/// The lights at `indices`, one after the other.
pub open spec fn lights(
    intensities: Seq<u32>,
    mappings: Seq<HueOutputMapping>,
    indices: Seq<usize>,
) -> Seq<u8>
    decreases indices.len(),
{
    if indices.len() == 0 {
        Seq::empty()
    } else {
        let idx = indices.last() as int;
        lights(intensities, mappings, indices.drop_last()) + light_bytes(
            mappings[idx],
            intensity_at(intensities, idx),
        )
    }
}

/// A whole packet.
pub open spec fn packet(
    intensities: Seq<u32>,
    mappings: Seq<HueOutputMapping>,
    indices: Seq<usize>,
    sequence: u8,
    area_id: Seq<char>,
) -> Seq<u8> {
    packet_head(sequence) + encode_utf8(area_id) + lights(intensities, mappings, indices)
}

/// Every index points to a mapping.
pub open spec fn in_range(indices: Seq<usize>, count: nat) -> bool {
    forall|i: int| 0 <= i < indices.len() ==> (#[trigger] indices[i]) < count
}

/// `byteorder`'s `WriteBytesExt::write_u16` with `BigEndian`, on a vector,
/// appends the number's high byte and then its low byte. Writing to a vector
/// does not fail.
#[verifier::external_body]
fn append_u16(buf: &mut Vec<u8>, n: u16)
    ensures
        final(buf)@ == old(buf)@ + seq![high_byte(n), low_byte(n)],
{
    let _ = buf.write_u16::<BigEndian>(n);
}

/// Appends bytes to a buffer.
fn append_bytes(buf: &mut Vec<u8>, bytes: &[u8])
    ensures
        final(buf)@ == old(buf)@ + bytes@,
{
    let ghost before = buf@;
    let mut i: usize = 0;
    while i < bytes.len()
        invariant
            i <= bytes@.len(),
            buf@ == before + bytes@.take(i as int),
        decreases bytes@.len() - i,
    {
        buf.push(bytes[i]);
        assert(buf@ =~= before + bytes@.take(i + 1));
        i += 1;
    }
    assert(bytes@.take(i as int) =~= bytes@);
}

/// Whether an area ID has the length of a UUID.
pub fn check_area_id(area_id: &str) -> (result: Result<(), HueError>)
    ensures
        match result {
            Ok(_) => is_area_id(area_id@),
            Err(error) => !is_area_id(area_id@) && error == HueError::AreaId,
        },
{
    if area_id.as_bytes().len() != 36 {
        Err(HueError::AreaId)
    } else {
        Ok(())
    }
}

/// A color channel at full intensity, widened to 16 bits and scaled by the
/// intensity.
fn scale_rgb_channel(channel: u8, intensity: u32) -> (level: u16)
    ensures
        level == level16(channel as nat * 257, intensity),
{
    to_level16(channel as u16 * 257, intensity)
}

/// Appends one light to a packet.
fn append_light(buf: &mut Vec<u8>, channel_id: u8, levels: (u16, u16, u16))
    ensures
        final(buf)@ == old(buf)@ + channel_bytes(channel_id, levels),
{
    let ghost before = buf@;
    let (r, g, b): (u16, u16, u16) = levels;
    buf.push(channel_id);
    append_u16(buf, r);
    append_u16(buf, g);
    append_u16(buf, b);
    assert(buf@ =~= before + channel_bytes(channel_id, levels));
}

/// A packet without any light yet.
fn start_packet(sequence: u8, area_id: &str) -> (buf: Vec<u8>)
    ensures
        buf@ == packet_head(sequence) + encode_utf8(area_id@),
{
    let mut buf: Vec<u8> = vec![
        0x48u8, 0x75u8, 0x65u8, 0x53u8, 0x74u8, 0x72u8, 0x65u8, 0x61u8, 0x6Du8,
        0x02u8, 0x00u8,
        sequence,
        0x00u8, 0x00u8,
        0x00u8,
        0x00u8,
    ];
    assert(buf@ =~= packet_head(sequence));
    append_bytes(&mut buf, area_id.as_bytes());
    buf
}

/// The packet that sets the mapped lights at `valid_indices` to their
/// intensities.
pub fn build_huestream_packet(
    intensities: &[u32],
    mappings: &[HueOutputMapping],
    valid_indices: &[usize],
    sequence: u8,
    area_id: &str,
) -> (result: Result<Vec<u8>, HueError>)
    requires
        in_range(valid_indices@, mappings@.len()),
    ensures
        match result {
            Ok(bytes) => is_area_id(area_id@) && bytes@ == packet(
                intensities@,
                mappings@,
                valid_indices@,
                sequence,
                area_id@,
            ),
            Err(error) => !is_area_id(area_id@) && error == HueError::AreaId,
        },
{
    check_area_id(area_id)?;
    let mut buf: Vec<u8> = start_packet(sequence, area_id);
    let ghost prefix = buf@;
    let mut k: usize = 0;
    assert(prefix + Seq::<u8>::empty() =~= prefix);
    while k < valid_indices.len()
        invariant
            k <= valid_indices@.len(),
            in_range(valid_indices@, mappings@.len()),
            buf@ == prefix + lights(intensities@, mappings@, valid_indices@.take(k as int)),
        decreases valid_indices@.len() - k,
    {
        let idx: usize = valid_indices[k];
        let ghost done = valid_indices@.take(k + 1);
        assert(done.drop_last() =~= valid_indices@.take(k as int));
        assert(done.last() == idx);
        let mapping: HueOutputMapping = mappings[idx];
        let intensity: u32 = if idx < intensities.len() {
            intensities[idx]
        } else {
            0
        };
        let (r, g, b): (u16, u16, u16) = match mapping.color {
            Some(rgb) => (
                scale_rgb_channel(rgb[0], intensity),
                scale_rgb_channel(rgb[1], intensity),
                scale_rgb_channel(rgb[2], intensity),
            ),
            None => {
                let white: u16 = to_level16(65535, intensity);
                (white, white, white)
            },
        };
        append_light(&mut buf, mapping.channel_id, (r, g, b));
        assert((r, g, b) == light_levels(mapping.color, intensity));
        assert(buf@ =~= prefix + lights(intensities@, mappings@, done));
        k += 1;
    }
    assert(valid_indices@.take(k as int) =~= valid_indices@);
    Ok(buf)
}

/// A Hue light that follows a DMX universe: its channel in the Entertainment
/// Area, and where its red, green and blue stand in the universe, counted from 0.
#[derive(Debug, Clone, Copy, PartialEq, Eq, Structural)]
pub struct HuePatch {
    pub hue_id: u8,
    pub dmx_address: usize,
}

/// The value of a channel of a universe, none past its last channel.
pub open spec fn universe_value(universe: Seq<u8>, channel: int) -> nat {
    if 0 <= channel < universe.len() {
        universe[channel] as nat
    } else {
        0
    }
}

/// The red, green and blue level of a patched light: the three channels at its
/// address, widened to 16 bits.
pub open spec fn patch_levels(universe: Seq<u8>, address: int) -> (u16, u16, u16) {
    (
        (universe_value(universe, address) * 257) as u16,
        (universe_value(universe, address + 1) * 257) as u16,
        (universe_value(universe, address + 2) * 257) as u16,
    )
}

/// The seven bytes of a patched light.
pub open spec fn patch_bytes(universe: Seq<u8>, patch: HuePatch) -> Seq<u8> {
    channel_bytes(patch.hue_id, patch_levels(universe, patch.dmx_address as int))
}

/// The patched lights, one after the other.
pub open spec fn patched_lights(universe: Seq<u8>, patches: Seq<HuePatch>) -> Seq<u8>
    decreases patches.len(),
{
    if patches.len() == 0 {
        Seq::empty()
    } else {
        patched_lights(universe, patches.drop_last()) + patch_bytes(universe, patches.last())
    }
}

/// A whole packet of patched lights.
pub open spec fn patched_packet(
    universe: Seq<u8>,
    patches: Seq<HuePatch>,
    sequence: u8,
    area_id: Seq<char>,
) -> Seq<u8> {
    packet_head(sequence) + encode_utf8(area_id) + patched_lights(universe, patches)
}

/// A channel at an offset from an address, widened to 16 bits.
fn widened_value(universe: &[u8; 512], address: usize, offset: usize) -> (level: u16)
    requires
        offset < 512,
    ensures
        level == universe_value(universe@, address + offset) * 257,
{
    if address < 512 && address + offset < 512 {
        universe[address + offset] as u16 * 257
    } else {
        0
    }
}

/// The packet that sets the patched lights to what a universe holds at their
/// addresses.
pub fn build_patched_packet(
    universe: &[u8; 512],
    patches: &[HuePatch],
    sequence: u8,
    area_id: &str,
) -> (result: Result<Vec<u8>, HueError>)
    ensures
        match result {
            Ok(bytes) => is_area_id(area_id@) && bytes@ == patched_packet(
                universe@,
                patches@,
                sequence,
                area_id@,
            ),
            Err(error) => !is_area_id(area_id@) && error == HueError::AreaId,
        },
{
    check_area_id(area_id)?;
    let mut buf: Vec<u8> = start_packet(sequence, area_id);
    let ghost prefix = buf@;
    let mut k: usize = 0;
    assert(prefix + Seq::<u8>::empty() =~= prefix);
    while k < patches.len()
        invariant
            k <= patches@.len(),
            buf@ == prefix + patched_lights(universe@, patches@.take(k as int)),
        decreases patches@.len() - k,
    {
        let ghost done = patches@.take(k + 1);
        assert(done.drop_last() =~= patches@.take(k as int));
        let patch: HuePatch = patches[k];
        assert(done.last() == patch);
        let levels: (u16, u16, u16) = (
            widened_value(universe, patch.dmx_address, 0),
            widened_value(universe, patch.dmx_address, 1),
            widened_value(universe, patch.dmx_address, 2),
        );
        append_light(&mut buf, patch.hue_id, levels);
        assert(levels == patch_levels(universe@, patch.dmx_address as int));
        assert(buf@ =~= prefix + patched_lights(universe@, done));
        k += 1;
    }
    assert(patches@.take(k as int) =~= patches@);
    Ok(buf)
}

/// The error type of `hex`.
#[verifier::external_type_specification]
#[verifier::external_body]
pub struct ExFromHexError(FromHexError);

/// What a hexadecimal digit stands for.
pub open spec fn hex_value(c: char) -> Option<nat> {
    if '0' <= c <= '9' {
        Some((c as int - '0' as int) as nat)
    } else if 'a' <= c <= 'f' {
        Some((c as int - 'a' as int + 10) as nat)
    } else if 'A' <= c <= 'F' {
        Some((c as int - 'A' as int + 10) as nat)
    } else {
        None
    }
}

/// Whether a text is made of pairs of hexadecimal digits.
pub open spec fn is_hex(text: Seq<char>) -> bool {
    text.len() % 2 == 0 && forall|i: int|
        0 <= i < text.len() ==> hex_value(#[trigger] text[i]) is Some
}

/// The bytes that pairs of hexadecimal digits stand for.
pub open spec fn hex_bytes(text: Seq<char>) -> Seq<u8> {
    Seq::new(
        text.len() / 2,
        |i: int| (16 * hex_value(text[2 * i])->0 + hex_value(text[2 * i + 1])->0) as u8,
    )
}

/// Why a text is not made of pairs of hexadecimal digits.
pub uninterp spec fn hex_error(text: Seq<char>) -> FromHexError;

/// `hex::decode` succeeds exactly on pairs of hexadecimal digits of either
/// case, and gives the byte that each pair stands for, its first digit being
/// the high one. Its error depends on the text alone.
#[verifier::external_body]
fn decode_hex(text: &str) -> (result: Result<Vec<u8>, FromHexError>)
    ensures
        match result {
            Ok(bytes) => is_hex(text@) && bytes@ == hex_bytes(text@),
            Err(error) => !is_hex(text@) && error == hex_error(text@),
        },
{
    hex::decode(text)
}

/// A client key without its hyphens.
pub open spec fn bare_key(client_key: Seq<char>) -> Seq<char> {
    replaced(client_key, "-"@, ""@)
}

/// A client key is not hexadecimal, for the reason that `hex` gives.
#[derive(Debug)]
pub struct KeyError {
    pub cause: FromHexError,
}

/// The pre-shared key of a connection: the bytes that the client key spells
/// in hexadecimal, hyphens aside.
pub fn pre_shared_key(client_key: &str) -> (result: Result<Vec<u8>, KeyError>)
    ensures
        match result {
            Ok(key) => is_hex(bare_key(client_key@)) && key@ == hex_bytes(bare_key(client_key@)),
            Err(error) => !is_hex(bare_key(client_key@)) && error.cause == hex_error(
                bare_key(client_key@),
            ),
        },
{
    proof {
        reveal_strlit("-");
    }
    let bare: String = replace_all(client_key, "-", "");
    match decode_hex(bare.as_str()) {
        Ok(key) => Ok(key),
        Err(cause) => Err(KeyError { cause }),
    }
}

/// Where an application key is exchanged for an application ID.
pub fn auth_url(bridge_ip: &str) -> (url: String)
    ensures
        url@ == "https://"@ + bridge_ip@ + "/auth/v1"@,
{
    let mut url: String = "https://".to_owned();
    url.append(bridge_ip);
    url.append("/auth/v1");
    url
}

/// Where an Entertainment Area is described and activated.
pub fn area_url(bridge_ip: &str, area_id: &str) -> (url: String)
    ensures
        url@ == "https://"@ + bridge_ip@ + "/clip/v2/resource/entertainment_configuration/"@
            + area_id@,
{
    let mut url: String = "https://".to_owned();
    url.append(bridge_ip);
    url.append("/clip/v2/resource/entertainment_configuration/");
    url.append(area_id);
    url
}

/// Where a bridge takes the stream.
pub fn stream_address(bridge_ip: &str) -> (address: String)
    ensures
        address@ == bridge_ip@ + ":2100"@,
{
    let mut address: String = bridge_ip.to_owned();
    address.append(":2100");
    address
}

/// The intensity that drives a light: that of its behavior's envelope, or
/// none.
pub open spec fn driving_intensity(
    mapping: HueOutputMapping,
    envelopes: Map<usize, DecayEnvelope>,
) -> u32 {
    if envelopes.contains_key(mapping.internal_id) {
        envelopes[mapping.internal_id].intensity
    } else {
        0
    }
}

/// The intensities of all mapped lights.
pub open spec fn driving_intensities(
    mappings: Seq<HueOutputMapping>,
    envelopes: Map<usize, DecayEnvelope>,
) -> Seq<u32> {
    mappings.map_values(|mapping: HueOutputMapping| driving_intensity(mapping, envelopes))
}

/// Fills a buffer with the intensities of the mapped lights.
pub fn fill_frame(
    buffer: &mut Vec<u32>,
    mappings: &Vec<HueOutputMapping>,
    envelopes: &HashMap<usize, DecayEnvelope>,
)
    requires
        old(buffer)@.len() == mappings@.len(),
    ensures
        final(buffer)@ == driving_intensities(mappings@, envelopes@),
{
    let ghost whole = driving_intensities(mappings@, envelopes@);
    let mut idx: usize = 0;
    while idx < mappings.len()
        invariant
            idx <= mappings@.len(),
            buffer@.len() == mappings@.len(),
            whole == driving_intensities(mappings@, envelopes@),
            forall|i: int| 0 <= i < idx ==> buffer@[i] == #[trigger] whole[i],
        decreases mappings@.len() - idx,
    {
        let intensity: u32 = match envelopes.get(&mappings[idx].internal_id) {
            Some(envelope) => envelope.intensity,
            None => 0,
        };
        buffer.set(idx, intensity);
        idx += 1;
    }
    assert(buffer@ =~= whole);
}

/// How handing a frame to the stream went.
#[derive(Debug, Clone, Copy, PartialEq, Eq, Structural)]
pub enum Handover {
    /// The stream has taken the frame.
    Taken,
    /// The stream is still busy with an earlier frame.
    Full,
    /// The stream has ended.
    Closed,
}

/// The buffer of a frame goes back to the pool at once, or the stream has ended.
pub open spec fn buffer_returns(handover: Handover) -> Option<bool> {
    match handover {
        Handover::Closed => None,
        Handover::Full => Some(true),
        Handover::Taken => Some(false),
    }
}

/// Whether the buffer of a frame goes back to the pool at once. A stream that
/// has ended is an error.
pub fn after_handover(handover: Handover) -> (result: Result<bool, HueError>)
    ensures
        match handover {
            Handover::Taken => result == Ok::<bool, HueError>(false),
            Handover::Full => result == Ok::<bool, HueError>(true),
            Handover::Closed => result == Err::<bool, HueError>(HueError::Closed),
        },
        match buffer_returns(handover) {
            Some(back) => result == Ok::<bool, HueError>(back),
            None => result is Err,
        },
{
    match handover {
        Handover::Taken => Ok(false),
        Handover::Full => Ok(true),
        Handover::Closed => Err(HueError::Closed),
    }
}

/// The channel of one entry of an area's channel list. An ID that does not
/// fit in a byte keeps its low byte.
pub open spec fn channel_of(entry: Json) -> Option<u8> {
    match entry.field("channel_id"@) {
        Some(id) => match id.integer() {
            Some(n) => Some((n % 256) as u8),
            None => None,
        },
        None => None,
    }
}

/// The channels of an area's channel list, entries without one left out.
pub open spec fn channels_of(entries: Seq<Json>) -> Seq<u8>
    decreases entries.len(),
{
    if entries.len() == 0 {
        Seq::empty()
    } else {
        let before = channels_of(entries.drop_last());
        match channel_of(entries.last()) {
            Some(id) => before.push(id),
            None => before,
        }
    }
}

/// The list of channels in a bridge's description of an area: that of the
/// first item of its data.
pub open spec fn channel_list(details: Json) -> Option<Seq<Json>> {
    match details.field("data"@) {
        Some(data) => match data.items() {
            Some(areas) => if areas.len() == 0 {
                None
            } else {
                match areas[0].field("channels"@) {
                    Some(channels) => channels.items(),
                    None => None,
                }
            },
            None => None,
        },
        None => None,
    }
}

/// The channels that a bridge reports, if it reports any list.
pub open spec fn reported(details: Option<Json>) -> Option<Seq<u8>> {
    match details {
        Some(details) => match channel_list(details) {
            Some(entries) => Some(channels_of(entries)),
            None => None,
        },
        None => None,
    }
}

/// Whether a channel is streamed to: any is where the bridge reports no list.
pub open spec fn is_confirmed(channel_id: u8, channels: Option<Seq<u8>>) -> bool {
    match channels {
        Some(channels) => channels.contains(channel_id),
        None => true,
    }
}

/// The indices of the first `count` mappings that are streamed to, in order.
pub open spec fn confirmed(
    mappings: Seq<HueOutputMapping>,
    channels: Option<Seq<u8>>,
    count: nat,
) -> Seq<usize>
    decreases count,
{
    if count == 0 {
        Seq::empty()
    } else {
        let before = confirmed(mappings, channels, (count - 1) as nat);
        if is_confirmed(mappings[count - 1].channel_id, channels) {
            before.push((count - 1) as usize)
        } else {
            before
        }
    }
}

/// A list of channels as a sequence.
spec fn listed(channels: Option<Vec<u8>>) -> Option<Seq<u8>> {
    match channels {
        Some(channels) => Some(channels@),
        None => None,
    }
}

/// The channels that a bridge reports, if it reports any list.
fn reported_channels(details: &Json) -> (channels: Option<Vec<u8>>)
    ensures
        match channels {
            Some(channels) => reported(Some(*details)) == Some(channels@),
            None => reported(Some(*details)) is None,
        },
{
    let areas: &Vec<Json> = match details.get("data") {
        Some(data) => match data.as_list() {
            Some(areas) => areas,
            None => {
                return None;
            },
        },
        None => {
            return None;
        },
    };
    if areas.len() == 0 {
        return None;
    }
    let entries: &Vec<Json> = match areas[0].get("channels") {
        Some(channels) => match channels.as_list() {
            Some(entries) => entries,
            None => {
                return None;
            },
        },
        None => {
            return None;
        },
    };
    let mut ids: Vec<u8> = Vec::new();
    let mut i: usize = 0;
    while i < entries.len()
        invariant
            i <= entries@.len(),
            ids@ == channels_of(entries@.take(i as int)),
        decreases entries@.len() - i,
    {
        let ghost seen = entries@.take(i + 1);
        assert(seen.drop_last() =~= entries@.take(i as int));
        if let Some(id) = entries[i].get("channel_id") {
            if let Some(n) = id.as_u64() {
                ids.push((n % 256) as u8);
            }
        }
        i += 1;
    }
    assert(entries@.take(i as int) =~= entries@);
    Some(ids)
}

/// Whether a channel is on a list.
fn has_channel(channels: &Vec<u8>, id: u8) -> (found: bool)
    ensures
        found == channels@.contains(id),
{
    let mut i: usize = 0;
    while i < channels.len()
        invariant
            i <= channels@.len(),
            forall|j: int| 0 <= j < i ==> channels@[j] != id,
        decreases channels@.len() - i,
    {
        if channels[i] == id {
            return true;
        }
        i += 1;
    }
    false
}

/// Which mappings are streamed to, given the bridge's description of the area
/// where it gave one. Mappings to channels that the area does not have are
/// left out, and it is an error if none remains.
pub fn stream_plan(
    mappings: &Vec<HueOutputMapping>,
    details: Option<&Json>,
    area_id: &str,
) -> (result: Result<Vec<usize>, HueError>)
    ensures
        ({
            let description = match details {
                Some(details) => Some(*details),
                None => None,
            };
            let plan = confirmed(mappings@, reported(description), mappings@.len());
            match result {
                Ok(indices) => indices@ == plan && plan.len() > 0,
                Err(error) => plan.len() == 0 && error is NoChannels && error->NoChannels_0@
                    == area_id@,
            }
        }),
{
    let channels: Option<Vec<u8>> = match details {
        Some(details) => reported_channels(details),
        None => None,
    };
    let ghost known = listed(channels);
    let mut indices: Vec<usize> = Vec::new();
    let mut idx: usize = 0;
    while idx < mappings.len()
        invariant
            idx <= mappings@.len(),
            known == listed(channels),
            indices@ == confirmed(mappings@, known, idx as nat),
        decreases mappings@.len() - idx,
    {
        let keep: bool = match &channels {
            Some(channels) => has_channel(channels, mappings[idx].channel_id),
            None => true,
        };
        if keep {
            indices.push(idx);
        }
        idx += 1;
    }
    if indices.len() == 0 {
        Err(HueError::NoChannels(area_id.to_owned()))
    } else {
        Ok(indices)
    }
}

/// The patches whose channels are streamed to, in order.
pub open spec fn confirmed_patches(
    patches: Seq<HuePatch>,
    channels: Option<Seq<u8>>,
) -> Seq<HuePatch> {
    patches.filter(|patch: HuePatch| is_confirmed(patch.hue_id, channels))
}

/// The patches that are streamed to, given the bridge's description of the area
/// where it gave one. Patches to channels that the area does not have are left
/// out, and it is an error if none remains.
pub fn patch_plan(
    patches: &Vec<HuePatch>,
    details: Option<&Json>,
    area_id: &str,
) -> (result: Result<Vec<HuePatch>, HueError>)
    ensures
        ({
            let description = match details {
                Some(details) => Some(*details),
                None => None,
            };
            let plan = confirmed_patches(patches@, reported(description));
            match result {
                Ok(kept) => kept@ == plan && plan.len() > 0,
                Err(error) => plan.len() == 0 && error is NoChannels && error->NoChannels_0@
                    == area_id@,
            }
        }),
{
    let channels: Option<Vec<u8>> = match details {
        Some(details) => reported_channels(details),
        None => None,
    };
    let ghost known = listed(channels);
    let mut kept: Vec<HuePatch> = Vec::new();
    let mut idx: usize = 0;
    proof {
        reveal(Seq::filter);
    }
    while idx < patches.len()
        invariant
            idx <= patches@.len(),
            known == listed(channels),
            kept@ == confirmed_patches(patches@.take(idx as int), known),
        decreases patches@.len() - idx,
    {
        let patch: HuePatch = patches[idx];
        let keep: bool = match &channels {
            Some(channels) => has_channel(channels, patch.hue_id),
            None => true,
        };
        proof {
            reveal(Seq::filter);
            let seen = patches@.take(idx + 1);
            assert(seen.drop_last() =~= patches@.take(idx as int));
            assert(seen.last() == patch);
        }
        if keep {
            kept.push(patch);
        }
        idx += 1;
    }
    assert(patches@.take(idx as int) =~= patches@);
    if kept.len() == 0 {
        Err(HueError::NoChannels(area_id.to_owned()))
    } else {
        Ok(kept)
    }
}

/// What has become of a connection to a bridge.
#[derive(Debug, Clone, Copy, PartialEq, Eq, Structural)]
pub enum ConnectionEnd {
    /// No connection came about.
    HandshakeFailed,
    /// The stream ended in good order.
    StreamEnded,
    /// The stream broke off.
    StreamFailed,
}

/// What follows the end of a connection.
#[derive(Debug, Clone, Copy, PartialEq, Eq, Structural)]
pub enum NextConnection {
    /// No further connection is made.
    Stop,
    /// The next connection is tried after so many seconds.
    RetryAfter(u64),
}

/// The seconds after which a connection is tried again, if it is.
pub open spec fn retry_after(end: ConnectionEnd, sender_gone: bool) -> Option<u64> {
    if sender_gone || end == ConnectionEnd::StreamEnded {
        None
    } else if end == ConnectionEnd::HandshakeFailed {
        Some(5)
    } else {
        Some(1)
    }
}

/// What follows the end of a connection, where nobody hands over frames any
/// more or somebody still may.
pub fn next_connection(end: ConnectionEnd, sender_gone: bool) -> (next: NextConnection)
    ensures
        next == (match end {
            ConnectionEnd::StreamEnded => NextConnection::Stop,
            _ if sender_gone => NextConnection::Stop,
            ConnectionEnd::HandshakeFailed => NextConnection::RetryAfter(5),
            ConnectionEnd::StreamFailed => NextConnection::RetryAfter(1),
        }),
        match retry_after(end, sender_gone) {
            Some(seconds) => next == NextConnection::RetryAfter(seconds),
            None => next == NextConnection::Stop,
        },
{
    match end {
        ConnectionEnd::StreamEnded => NextConnection::Stop,
        ConnectionEnd::HandshakeFailed => if sender_gone {
            NextConnection::Stop
        } else {
            NextConnection::RetryAfter(5)
        },
        ConnectionEnd::StreamFailed => if sender_gone {
            NextConnection::Stop
        } else {
            NextConnection::RetryAfter(1)
        },
    }
}

/// One connection's stream of packets.
#[derive(Debug)]
pub struct HueStream {
    pub sequence: u8,
}

impl HueStream {
    /// A stream at its first packet.
    pub fn new() -> (stream: Self)
        ensures
            stream.sequence == 0,
    {
        HueStream { sequence: 0 }
    }

    /// The packet of the next frame.
    pub fn next_packet(
        &mut self,
        intensities: &[u32],
        mappings: &[HueOutputMapping],
        valid_indices: &[usize],
        area_id: &str,
    ) -> (result: Result<Vec<u8>, HueError>)
        requires
            in_range(valid_indices@, mappings@.len()),
        ensures
            match result {
                Ok(bytes) => is_area_id(area_id@) && bytes@ == packet(
                    intensities@,
                    mappings@,
                    valid_indices@,
                    old(self).sequence,
                    area_id@,
                ) && final(self).sequence == next_sequence(old(self).sequence),
                Err(error) => !is_area_id(area_id@) && error == HueError::AreaId
                    && final(self).sequence == old(self).sequence,
            },
    {
        let bytes: Vec<u8> = build_huestream_packet(
            intensities,
            mappings,
            valid_indices,
            self.sequence,
            area_id,
        )?;
        self.sequence = self.sequence.wrapping_add(1);
        Ok(bytes)
    }

    /// The packet of the next universe.
    pub fn next_patched_packet(
        &mut self,
        universe: &[u8; 512],
        patches: &[HuePatch],
        area_id: &str,
    ) -> (result: Result<Vec<u8>, HueError>)
        ensures
            match result {
                Ok(bytes) => is_area_id(area_id@) && bytes@ == patched_packet(
                    universe@,
                    patches@,
                    old(self).sequence,
                    area_id@,
                ) && final(self).sequence == next_sequence(old(self).sequence),
                Err(error) => !is_area_id(area_id@) && error == HueError::AreaId
                    && final(self).sequence == old(self).sequence,
            },
    {
        let bytes: Vec<u8> = build_patched_packet(universe, patches, self.sequence, area_id)?;
        self.sequence = self.sequence.wrapping_add(1);
        Ok(bytes)
    }
}

/// The lights of a packet take seven bytes each.
proof fn lemma_lights_length(
    intensities: Seq<u32>,
    mappings: Seq<HueOutputMapping>,
    indices: Seq<usize>,
)
    ensures
        lights(intensities, mappings, indices).len() == 7 * indices.len(),
    decreases indices.len(),
{
    if indices.len() > 0 {
        lemma_lights_length(intensities, mappings, indices.drop_last());
    }
}

/// The bytes of each light stand at seven times its position.
proof fn lemma_light_at(
    intensities: Seq<u32>,
    mappings: Seq<HueOutputMapping>,
    indices: Seq<usize>,
    k: int,
)
    requires
        0 <= k < indices.len(),
    ensures
        lights(intensities, mappings, indices).subrange(7 * k, 7 * k + 7) == light_bytes(
            mappings[indices[k] as int],
            intensity_at(intensities, indices[k] as int),
        ),
    decreases indices.len(),
{
    let all = lights(intensities, mappings, indices);
    let before = lights(intensities, mappings, indices.drop_last());
    lemma_lights_length(intensities, mappings, indices);
    lemma_lights_length(intensities, mappings, indices.drop_last());
    let bytes = light_bytes(
        mappings[indices[k] as int],
        intensity_at(intensities, indices[k] as int),
    );
    if k == indices.len() - 1 {
        assert(all.subrange(7 * k, 7 * k + 7) =~= bytes);
    } else {
        lemma_light_at(intensities, mappings, indices.drop_last(), k);
        assert(all.subrange(7 * k, 7 * k + 7) =~= before.subrange(7 * k, 7 * k + 7));
    }
}

/// A packet holds its parts at fixed places: the head in 16 bytes, the area
/// ID in 36, and then seven bytes for each light in the order of the plan.
pub proof fn law_packet_layout(
    intensities: Seq<u32>,
    mappings: Seq<HueOutputMapping>,
    indices: Seq<usize>,
    sequence: u8,
    area_id: Seq<char>,
)
    requires
        is_area_id(area_id),
    ensures
        ({
            let bytes = packet(intensities, mappings, indices, sequence, area_id);
            &&& bytes.len() == 52 + 7 * indices.len()
            &&& bytes.subrange(0, 16) == packet_head(sequence)
            &&& bytes.subrange(16, 52) == encode_utf8(area_id)
            &&& forall|k: int|
                0 <= k < indices.len() ==> #[trigger] bytes.subrange(52 + 7 * k, 59 + 7 * k)
                    == light_bytes(
                    mappings[indices[k] as int],
                    intensity_at(intensities, indices[k] as int),
                )
        }),
{
    let bytes = packet(intensities, mappings, indices, sequence, area_id);
    let tail = lights(intensities, mappings, indices);
    lemma_lights_length(intensities, mappings, indices);
    assert(bytes.subrange(0, 16) =~= packet_head(sequence));
    assert(bytes.subrange(16, 52) =~= encode_utf8(area_id));
    assert forall|k: int| 0 <= k < indices.len() implies #[trigger] bytes.subrange(
        52 + 7 * k,
        59 + 7 * k,
    ) == light_bytes(
        mappings[indices[k] as int],
        intensity_at(intensities, indices[k] as int),
    ) by {
        lemma_light_at(intensities, mappings, indices, k);
        assert(bytes.subrange(52 + 7 * k, 59 + 7 * k) =~= tail.subrange(7 * k, 7 * k + 7));
    }
}

/// At full intensity a light shows its color: both bytes of each level are
/// the color's channel. A light without a color shows full white.
pub proof fn law_full_intensity_shows_color(mapping: HueOutputMapping)
    ensures
        light_bytes(mapping, FULL) == (match mapping.color {
            Some(rgb) => seq![
                mapping.channel_id,
                rgb@[0], rgb@[0],
                rgb@[1], rgb@[1],
                rgb@[2], rgb@[2]
            ],
            None => seq![mapping.channel_id, 255u8, 255u8, 255u8, 255u8, 255u8, 255u8],
        }),
{
    lemma_full_levels(65535);
    if let Some(rgb) = mapping.color {
        lemma_full_levels(rgb@[0] as nat * 257);
        lemma_full_levels(rgb@[1] as nat * 257);
        lemma_full_levels(rgb@[2] as nat * 257);
    }
}

/// A light that nothing drives is dark, whatever its color.
pub proof fn law_no_intensity_is_dark(mapping: HueOutputMapping)
    ensures
        light_bytes(mapping, 0) == seq![mapping.channel_id, 0u8, 0u8, 0u8, 0u8, 0u8, 0u8],
{
    lemma_zero_level16(65535);
    if let Some(rgb) = mapping.color {
        lemma_zero_level16(rgb@[0] as nat * 257);
        lemma_zero_level16(rgb@[1] as nat * 257);
        lemma_zero_level16(rgb@[2] as nat * 257);
    }
}

/// Each level of a patched light is one channel of the universe in both bytes,
/// red, green and blue in turn, and dark past the last channel. So 255 is full
/// and 0 is dark.
pub proof fn law_patched_light_follows_universe(universe: Seq<u8>, patch: HuePatch)
    ensures
        ({
            let r = universe_value(universe, patch.dmx_address as int) as u8;
            let g = universe_value(universe, patch.dmx_address + 1) as u8;
            let b = universe_value(universe, patch.dmx_address + 2) as u8;
            patch_bytes(universe, patch) == seq![patch.hue_id, r, r, g, g, b, b]
        }),
{
    assert(patch_bytes(universe, patch) =~= {
        let r = universe_value(universe, patch.dmx_address as int) as u8;
        let g = universe_value(universe, patch.dmx_address + 1) as u8;
        let b = universe_value(universe, patch.dmx_address + 2) as u8;
        seq![patch.hue_id, r, r, g, g, b, b]
    });
}

/// The patched lights of a packet take seven bytes each, and those of each stand
/// at seven times its position.
proof fn lemma_patched_light_at(universe: Seq<u8>, patches: Seq<HuePatch>)
    ensures
        patched_lights(universe, patches).len() == 7 * patches.len(),
        forall|k: int|
            0 <= k < patches.len() ==> #[trigger] patched_lights(universe, patches).subrange(
                7 * k,
                7 * k + 7,
            ) == patch_bytes(universe, patches[k]),
    decreases patches.len(),
{
    if patches.len() > 0 {
        let all = patched_lights(universe, patches);
        let before = patched_lights(universe, patches.drop_last());
        lemma_patched_light_at(universe, patches.drop_last());
        assert forall|k: int| 0 <= k < patches.len() implies #[trigger] all.subrange(
            7 * k,
            7 * k + 7,
        ) == patch_bytes(universe, patches[k]) by {
            if k == patches.len() - 1 {
                assert(all.subrange(7 * k, 7 * k + 7) =~= patch_bytes(universe, patches[k]));
            } else {
                assert(all.subrange(7 * k, 7 * k + 7) =~= before.subrange(7 * k, 7 * k + 7));
            }
        }
    }
}

/// A packet of patched lights holds its parts at the same places: the head in 16
/// bytes, the area ID in 36, and then seven bytes for each patch in order.
pub proof fn law_patched_packet_layout(
    universe: Seq<u8>,
    patches: Seq<HuePatch>,
    sequence: u8,
    area_id: Seq<char>,
)
    requires
        is_area_id(area_id),
    ensures
        ({
            let bytes = patched_packet(universe, patches, sequence, area_id);
            &&& bytes.len() == 52 + 7 * patches.len()
            &&& bytes.subrange(0, 16) == packet_head(sequence)
            &&& bytes.subrange(16, 52) == encode_utf8(area_id)
            &&& forall|k: int|
                0 <= k < patches.len() ==> #[trigger] bytes.subrange(52 + 7 * k, 59 + 7 * k)
                    == patch_bytes(universe, patches[k])
        }),
{
    let bytes = patched_packet(universe, patches, sequence, area_id);
    let tail = patched_lights(universe, patches);
    lemma_patched_light_at(universe, patches);
    assert(bytes.subrange(0, 16) =~= packet_head(sequence));
    assert(bytes.subrange(16, 52) =~= encode_utf8(area_id));
    assert forall|k: int| 0 <= k < patches.len() implies #[trigger] bytes.subrange(
        52 + 7 * k,
        59 + 7 * k,
    ) == patch_bytes(universe, patches[k]) by {
        assert(bytes.subrange(52 + 7 * k, 59 + 7 * k) =~= tail.subrange(7 * k, 7 * k + 7));
    }
}

/// A plan lists, in order and each once, exactly the mappings whose channel
/// the bridge confirms, so that every packet can be built from it.
pub proof fn law_plan_is_confirmed(
    mappings: Seq<HueOutputMapping>,
    channels: Option<Seq<u8>>,
    count: nat,
)
    requires
        count <= mappings.len() <= usize::MAX,
    ensures
        in_range(confirmed(mappings, channels, count), count),
        forall|i: int, j: int|
            0 <= i < j < confirmed(mappings, channels, count).len() ==> (#[trigger] confirmed(
                mappings,
                channels,
                count,
            )[i]) < (#[trigger] confirmed(mappings, channels, count)[j]),
        forall|idx: usize|
            idx < count ==> (#[trigger] confirmed(mappings, channels, count).contains(idx)
                <==> is_confirmed(mappings[idx as int].channel_id, channels)),
    decreases count,
{
    if count > 0 {
        let n = (count - 1) as nat;
        law_plan_is_confirmed(mappings, channels, n);
        let before = confirmed(mappings, channels, n);
        let plan = confirmed(mappings, channels, count);
        assert forall|idx: usize| idx < count implies (#[trigger] plan.contains(idx)
            <==> is_confirmed(mappings[idx as int].channel_id, channels)) by {
            if plan != before {
                assert(plan == before.push(n as usize));
                if before.contains(idx) {
                    let j = before.index_of(idx);
                    assert(plan[j] == idx);
                }
                if idx == n {
                    assert(plan.last() == idx);
                }
                if plan.contains(idx) && idx < n {
                    let j = plan.index_of(idx);
                    assert(before[j] == idx);
                }
            } else if idx == n && before.contains(idx) {
                let j = before.index_of(idx);
                assert(before[j] < n);
            }
        }
    }
}

/// The 16-bit number at a place of a packet, its high byte first.
pub open spec fn word(bytes: Seq<u8>, at: int) -> nat {
    256 * bytes[at] as nat + bytes[at + 1] as nat
}

/// What a light's red, green or blue is at full intensity: the channel of its
/// color times 257, or 65535 where it has no color.
pub open spec fn full_level(color: Option<[u8; 3]>, channel: int) -> nat {
    match color {
        Some(rgb) => 257 * rgb@[channel] as nat,
        None => 65535,
    }
}

/// A level is the full one times an intensity, to the nearest whole number and a
/// part in two to the power of 24, and held to 65535.
pub open spec fn is_scaled(level: nat, full: nat, intensity: u32) -> bool {
    let exact = full * units(intensity);
    &&& level <= 65535
    &&& 0x200_0000 * (level * one()) <= 0x200_0002 * exact + 0x100_0000 * one() + 0x200_0000
    &&& level < 65535 ==> 0x1FF_FFFE * exact <= 0x200_0000 * (level * one()) + 0x100_0000 * one()
        + 0x200_0000
}

/// A light is its color scaled by its intensity, at every intensity: each of its
/// three levels is its own channel of the color times 257 times the intensity, to
/// the nearest whole number, a part in two to the power of 24 aside, and held to
/// 65535. So channels of one color value have one level. A light without a color
/// is white; a negative intensity and a NaN are dark; and an endless intensity is
/// full of all that the color has any of.
pub proof fn law_lights_are_scaled_colors(mapping: HueOutputMapping, intensity: u32)
    ensures
        light_bytes(mapping, intensity).len() == 7,
        light_bytes(mapping, intensity)[0] == mapping.channel_id,
        forall|channel: int|
            0 <= channel < 3 && intensity < 0x7F80_0000 ==> is_scaled(
                #[trigger] word(light_bytes(mapping, intensity), 1 + 2 * channel),
                full_level(mapping.color, channel),
                intensity,
            ),
        forall|channel: int|
            0 <= channel < 3 && intensity > 0x7F80_0000 ==> #[trigger] word(
                light_bytes(mapping, intensity),
                1 + 2 * channel,
            ) == 0,
        forall|channel: int|
            0 <= channel < 3 && intensity == 0x7F80_0000 ==> #[trigger] word(
                light_bytes(mapping, intensity),
                1 + 2 * channel,
            ) == (if full_level(mapping.color, channel) == 0 {
                0nat
            } else {
                65535
            }),
        forall|a: int, b: int|
            0 <= a < 3 && 0 <= b < 3 && full_level(mapping.color, a) == full_level(mapping.color, b)
                ==> #[trigger] word(light_bytes(mapping, intensity), 1 + 2 * a) == #[trigger] word(
                light_bytes(mapping, intensity),
                1 + 2 * b,
            ),
{
    let bytes = light_bytes(mapping, intensity);
    let levels = light_levels(mapping.color, intensity);
    lemma_words(mapping.channel_id, levels);
    assert forall|channel: int| 0 <= channel < 3 implies #[trigger] word(bytes, 1 + 2 * channel)
        == level16(full_level(mapping.color, channel), intensity) && (intensity < INFINITY
        ==> is_scaled(
        word(bytes, 1 + 2 * channel),
        full_level(mapping.color, channel),
        intensity,
    )) by {
        law_level16_is_proportional(full_level(mapping.color, channel), intensity);
        assert(channel == 0 || channel == 1 || channel == 2);
    }
    assert forall|channel: int| 0 <= channel < 3 && intensity > INFINITY implies #[trigger] word(
        bytes,
        1 + 2 * channel,
    ) == 0 by {
        law_level16_is_proportional(full_level(mapping.color, channel), intensity);
    }
    assert forall|channel: int| 0 <= channel < 3 && intensity == INFINITY implies #[trigger] word(
        bytes,
        1 + 2 * channel,
    ) == (if full_level(mapping.color, channel) == 0 {
        0nat
    } else {
        65535
    }) by {
        law_level16_is_proportional(full_level(mapping.color, channel), intensity);
    }
}

/// The two bytes of each level make it up.
proof fn lemma_words(channel_id: u8, levels: (u16, u16, u16))
    ensures
        ({
            let bytes = channel_bytes(channel_id, levels);
            &&& bytes.len() == 7
            &&& bytes[0] == channel_id
            &&& word(bytes, 1) == levels.0
            &&& word(bytes, 3) == levels.1
            &&& word(bytes, 5) == levels.2
        }),
{
}

/// More intensity lowers none of a light's levels, and below full intensity none
/// is above what it is at full.
pub proof fn law_more_intensity_lowers_no_level(
    mapping: HueOutputMapping,
    dimmer: u32,
    brighter: u32,
    channel: int,
)
    requires
        dimmer <= brighter < 0x7F80_0000,
        0 <= channel < 3,
    ensures
        word(light_bytes(mapping, dimmer), 1 + 2 * channel) <= word(
            light_bytes(mapping, brighter),
            1 + 2 * channel,
        ),
        brighter <= FULL ==> word(light_bytes(mapping, brighter), 1 + 2 * channel) <= full_level(
            mapping.color,
            channel,
        ),
{
    let full = full_level(mapping.color, channel);
    lemma_words(mapping.channel_id, light_levels(mapping.color, dimmer));
    lemma_words(mapping.channel_id, light_levels(mapping.color, brighter));
    law_brighter_has_no_lower_level16(full, dimmer, full, brighter);
    law_level16_is_proportional(full, dimmer);
    law_level16_is_proportional(full, brighter);
    if brighter <= FULL {
        law_brighter_has_no_lower_level16(full, brighter, full, FULL);
        lemma_full_levels(full);
    }
    assert(channel == 0 || channel == 1 || channel == 2);
}

/// A packet carries, for each light of the plan in order, the light's channel and
/// then its color scaled by the intensity that stands at the light's place in the
/// frame, or dark where the frame does not reach so far.
pub proof fn law_packets_carry_scaled_colors(
    intensities: Seq<u32>,
    mappings: Seq<HueOutputMapping>,
    indices: Seq<usize>,
    sequence: u8,
    area_id: Seq<char>,
    k: int,
    channel: int,
)
    requires
        is_area_id(area_id),
        0 <= k < indices.len(),
        0 <= channel < 3,
    ensures
        ({
            let bytes = packet(intensities, mappings, indices, sequence, area_id);
            let idx = indices[k] as int;
            let mapping = mappings[idx];
            let level = word(bytes, 53 + 7 * k + 2 * channel);
            &&& bytes[52 + 7 * k] == mapping.channel_id
            &&& idx < intensities.len() && intensities[idx] < 0x7F80_0000 ==> is_scaled(
                level,
                full_level(mapping.color, channel),
                intensities[idx],
            )
            &&& idx < intensities.len() && intensities[idx] > 0x7F80_0000 ==> level == 0
            &&& idx >= intensities.len() ==> level == 0
        }),
{
    let bytes = packet(intensities, mappings, indices, sequence, area_id);
    let idx = indices[k] as int;
    let mapping = mappings[idx];
    let intensity = intensity_at(intensities, idx);
    law_packet_layout(intensities, mappings, indices, sequence, area_id);
    let light = bytes.subrange(52 + 7 * k, 59 + 7 * k);
    assert(light == light_bytes(mapping, intensity));
    law_lights_are_scaled_colors(mapping, intensity);
    assert(light[0] == bytes[52 + 7 * k]);
    assert(light[1 + 2 * channel] == bytes[53 + 7 * k + 2 * channel]);
    assert(light[2 + 2 * channel] == bytes[54 + 7 * k + 2 * channel]);
    assert(word(light, 1 + 2 * channel) == word(bytes, 53 + 7 * k + 2 * channel));
    if idx >= intensities.len() {
        law_no_intensity_is_dark(mapping);
        assert(channel == 0 || channel == 1 || channel == 2);
    }
}

/// A packet begins with the letters of the protocol's name, its version 2.0 and
/// the sequence number.
pub proof fn law_packets_name_their_protocol(
    intensities: Seq<u32>,
    mappings: Seq<HueOutputMapping>,
    indices: Seq<usize>,
    sequence: u8,
    area_id: Seq<char>,
)
    ensures
        ({
            let bytes = packet(intensities, mappings, indices, sequence, area_id);
            &&& forall|i: int| 0 <= i < 9 ==> #[trigger] bytes[i] as char == "HueStream"@[i]
            &&& bytes[9] == 2 && bytes[10] == 0
            &&& bytes[11] == sequence
            &&& forall|i: int| 12 <= i < 16 ==> #[trigger] bytes[i] == 0
        }),
{
    reveal_strlit("HueStream");
    let head = packet_head(sequence);
    assert(head.len() == 16);
    let bytes = packet(intensities, mappings, indices, sequence, area_id);
    assert forall|i: int| 0 <= i < 16 implies #[trigger] bytes[i] == head[i] by {}
    assert("HueStream"@.len() == 9);
}

/// Each mapped light is driven by the envelope of its own behavior, and dark where
/// that behavior is not lit.
pub proof fn law_lights_follow_their_behaviors(
    mappings: Seq<HueOutputMapping>,
    envelopes: Map<usize, DecayEnvelope>,
    i: int,
)
    requires
        0 <= i < mappings.len(),
    ensures
        driving_intensities(mappings, envelopes).len() == mappings.len(),
        envelopes.contains_key(mappings[i].internal_id) ==> driving_intensities(
            mappings,
            envelopes,
        )[i] == envelopes[mappings[i].internal_id].intensity,
        !envelopes.contains_key(mappings[i].internal_id) ==> driving_intensities(
            mappings,
            envelopes,
        )[i] == 0,
{
}

/// A patched light whose three channels lie in the universe shows them, each in
/// both bytes of its level: red at its address, green at the next and blue at the
/// one after. A channel that lies past the universe is dark.
pub proof fn law_patched_lights_show_three_channels(universe: Seq<u8>, patch: HuePatch)
    ensures
        ({
            let (at, bytes) = (patch.dmx_address as int, patch_bytes(universe, patch));
            &&& bytes.len() == 7
            &&& bytes[0] == patch.hue_id
            &&& forall|channel: int|
                0 <= channel < 3 ==> #[trigger] word(bytes, 1 + 2 * channel) == (if at + channel
                    < universe.len() {
                    257 * universe[at + channel] as nat
                } else {
                    0
                })
        }),
{
    let (at, bytes) = (patch.dmx_address as int, patch_bytes(universe, patch));
    lemma_words(patch.hue_id, patch_levels(universe, at));
    assert forall|channel: int| 0 <= channel < 3 implies #[trigger] word(bytes, 1 + 2 * channel)
        == (if at + channel < universe.len() {
        257 * universe[at + channel] as nat
    } else {
        0
    }) by {
        assert(channel == 0 || channel == 1 || channel == 2);
    }
}

/// An entry of a channel list names a channel: its `channel_id` is an integer with
/// the channel as its low byte.
pub open spec fn names_channel(entry: Json, channel: u8) -> bool {
    exists|n: u64| #[trigger]
        has_channel_id(entry, n) && n % 256 == channel
}

/// The `channel_id` of an entry is the given integer.
pub open spec fn has_channel_id(entry: Json, n: u64) -> bool {
    entry.field("channel_id"@) matches Some(id) && id.integer() == Some(n)
}

/// A list reports exactly the channels that its entries name.
pub proof fn law_reported_channels_are_named(entries: Seq<Json>, channel: u8)
    ensures
        channels_of(entries).contains(channel) <==> exists|i: int|
            0 <= i < entries.len() && names_channel(#[trigger] entries[i], channel),
    decreases entries.len(),
{
    if entries.len() > 0 {
        let (rest, last, end) = (entries.drop_last(), entries.last(), entries.len() - 1);
        law_reported_channels_are_named(rest, channel);
        let (older, all) = (channels_of(rest), channels_of(entries));
        assert(names_channel(last, channel) <==> channel_of(last) == Some(channel)) by {
            if let Some(id) = last.field("channel_id"@) {
                if let Some(n) = id.integer() {
                    assert(has_channel_id(last, n));
                }
            }
        }
        if older.contains(channel) {
            let k = choose|k: int| 0 <= k < older.len() && older[k] == channel;
            assert(all[k] == channel);
            let i = choose|i: int| 0 <= i < rest.len() && names_channel(#[trigger] rest[i], channel);
            assert(names_channel(entries[i], channel));
        }
        if names_channel(last, channel) {
            assert(all[all.len() - 1] == channel);
            assert(names_channel(entries[end], channel));
        }
        if all.contains(channel) {
            let k = choose|k: int| 0 <= k < all.len() && all[k] == channel;
            if k < older.len() {
                assert(older[k] == channel);
            }
        }
        if exists|i: int| 0 <= i < entries.len() && names_channel(#[trigger] entries[i], channel) {
            let i = choose|i: int|
                0 <= i < entries.len() && names_channel(#[trigger] entries[i], channel);
            if i < end {
                assert(names_channel(rest[i], channel));
            }
        }
    }
}

/// The list that counts is the one under `channels` of the first item under
/// `data`. A bridge that gives no description reports none.
pub proof fn law_first_area_reports_its_channels(details: Json, area: Json, list: Json)
    requires
        details.field("data"@) matches Some(data) && (data.items() matches Some(areas)
            && areas.len() > 0 && areas[0] == area),
        area.field("channels"@) == Some(list),
        list.items() is Some,
    ensures
        reported(Some(details)) == Some(channels_of(list.items()->0)),
        reported(None) is None,
{
}

/// A mapping is streamed to exactly where the bridge reports its channel or
/// reports no list at all.
pub proof fn law_only_reported_channels_are_streamed(
    mappings: Seq<HueOutputMapping>,
    channels: Option<Seq<u8>>,
    idx: usize,
)
    requires
        idx < mappings.len() <= usize::MAX,
    ensures
        channels is None ==> confirmed(mappings, channels, mappings.len()).contains(idx),
        channels matches Some(list) ==> (confirmed(mappings, channels, mappings.len()).contains(idx)
            <==> list.contains(mappings[idx as int].channel_id)),
{
    law_plan_is_confirmed(mappings, channels, mappings.len());
}

/// A patch is streamed to exactly where the bridge reports its channel or reports
/// no list at all.
pub proof fn law_only_reported_patches_are_streamed(
    patches: Seq<HuePatch>,
    channels: Option<Seq<u8>>,
)
    ensures
        forall|i: int|
            0 <= i < confirmed_patches(patches, channels).len() ==> {
                let kept = #[trigger] confirmed_patches(patches, channels)[i];
                channels matches Some(list) ==> list.contains(kept.hue_id)
            },
        forall|i: int|
            0 <= i < patches.len() && (channels matches Some(list) ==> list.contains(
                (#[trigger] patches[i]).hue_id,
            )) ==> confirmed_patches(patches, channels).contains(patches[i]),
        channels is None ==> confirmed_patches(patches, channels) == patches,
    decreases patches.len(),
{
    let pred = |patch: HuePatch| is_confirmed(patch.hue_id, channels);
    let kept = confirmed_patches(patches, channels);
    assert forall|i: int| 0 <= i < kept.len() implies (channels matches Some(list)
        ==> list.contains((#[trigger] kept[i]).hue_id)) by {
        patches.lemma_filter_pred(pred, i);
    }
    assert forall|i: int|
        0 <= i < patches.len() && (channels matches Some(list) ==> list.contains(
            (#[trigger] patches[i]).hue_id,
        )) implies kept.contains(patches[i]) by {
        patches.lemma_filter_contains(pred, i);
    }
    if channels is None {
        reveal(Seq::filter);
        if patches.len() > 0 {
            law_only_reported_patches_are_streamed(patches.drop_last(), channels);
            assert(kept =~= patches);
        } else {
            assert(kept =~= patches);
        }
    }
}

/// A key without its hyphens holds no hyphen and every other character of the
/// client key.
pub proof fn law_keys_lose_their_hyphens_alone(client_key: Seq<char>)
    ensures
        !bare_key(client_key).contains('-'),
        forall|c: char|
            c != '-' ==> (#[trigger] bare_key(client_key).contains(c) <==> client_key.contains(c)),
        client_key.len() > 0 ==> bare_key(client_key) == (if client_key[0] == '-' {
            bare_key(client_key.skip(1))
        } else {
            seq![client_key[0]] + bare_key(client_key.skip(1))
        }),
{
    reveal_strlit("-");
    reveal_strlit("");
    assert("-"@ =~= seq!['-']);
    assert(""@ =~= Seq::<char>::empty());
    law_removing_a_character_keeps_the_others(client_key, '-');
}

/// A buffer that the stream has taken is the stream's, and one that it had no room
/// for goes back; only an ended stream is an error.
pub proof fn law_buffers_are_not_lost(handover: Handover)
    ensures
        buffer_returns(handover) is None <==> handover == Handover::Closed,
        buffer_returns(handover) == Some(true) <==> handover == Handover::Full,
        buffer_returns(handover) == Some(false) <==> handover == Handover::Taken,
{
}

/// A connection is tried again exactly where it failed and somebody still hands
/// over frames: a second after a stream broke off, and five after a handshake
/// failed.
pub proof fn law_failed_connections_are_tried_again(end: ConnectionEnd, sender_gone: bool)
    ensures
        retry_after(end, sender_gone) is Some <==> !sender_gone && end
            != ConnectionEnd::StreamEnded,
        !sender_gone ==> retry_after(ConnectionEnd::HandshakeFailed, sender_gone) == Some(5u64),
        !sender_gone ==> retry_after(ConnectionEnd::StreamFailed, sender_gone) == Some(1u64),
{
}

/// A bridge reports a list only where its description has items under `data` and
/// the first of them has a list under `channels`.
pub proof fn law_nothing_else_reports_channels(details: Json)
    requires
        reported(Some(details)) is Some,
    ensures
        details.field("data"@) matches Some(data) && (data.items() matches Some(areas)
            && areas.len() > 0 && (areas[0].field("channels"@) matches Some(list)
            && list.items() is Some)),
{
}

} // verus!
