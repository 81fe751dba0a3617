//! Art-Net output packets: an 18-byte header and the 512 channels of a universe.

use vstd::prelude::*;

verus! {

/// How many bytes precede the channels in a packet.
pub const HEADER: usize = 18;

/// How long a packet is.
pub const PACKET: usize = 530;

/// The low byte of a 16-bit number.
pub open spec fn low_byte(n: u16) -> u8 {
    (n % 256) as u8
}

/// The high byte of a 16-bit number.
pub open spec fn high_byte(n: u16) -> u8 {
    (n / 256) as u8
}

/// The header of a packet for `universe`: the identifier, the output opcode
/// 0x5000 with its low byte first, protocol version 14, the sequence number,
/// physical port 0, the universe with its low byte first, and the length 512
/// with its high byte first.
pub open spec fn header(universe: u16, sequence: u8) -> Seq<u8> {
    seq![
        0x41u8, 0x72u8, 0x74u8, 0x2Du8, 0x4Eu8, 0x65u8, 0x74u8, 0x00u8,
        0x00u8, 0x50u8,
        0x00u8, 0x0Eu8,
        sequence,
        0x00u8,
        low_byte(universe), high_byte(universe),
        0x02u8, 0x00u8
    ]
}

/// The number that follows a sequence number.
pub open spec fn next_sequence(sequence: u8) -> u8 {
    if sequence == 255 {
        0
    } else {
        (sequence + 1) as u8
    }
}

/// A packet with its channels replaced.
pub open spec fn loaded(packet: Seq<u8>, data: Seq<u8>) -> Seq<u8> {
    packet.take(18) + data
}

/// A packet with its sequence number moved on.
pub open spec fn moved_on(packet: Seq<u8>) -> Seq<u8> {
    packet.update(12, next_sequence(packet[12]))
}

/// A packet with one channel set, where there is such a channel.
pub open spec fn with_channel(packet: Seq<u8>, channel: usize, value: u8) -> Seq<u8> {
    if channel < 512 {
        packet.update(18 + channel as int, value)
    } else {
        packet
    }
}

/// A packet after it was sent, or was not.
pub open spec fn settled_packet(packet: Seq<u8>, sent: bool) -> Seq<u8> {
    if sent {
        moved_on(packet)
    } else {
        packet
    }
}

/// Builds the packets of one universe.
#[derive(Debug)]
pub struct ArtNetBridge {
    buffer: [u8; 530],
}

impl View for ArtNetBridge {
    type V = Seq<u8>;

    closed spec fn view(&self) -> Seq<u8> {
        self.buffer@
    }
}

impl ArtNetBridge {
    /// The packet is whole and has the header of `universe`.
    pub open spec fn is_for(self, universe: u16) -> bool {
        &&& self@.len() == 530
        &&& self@.take(18) == header(universe, self.sequence())
    }

    /// The packet's sequence number.
    pub open spec fn sequence(self) -> u8 {
        self@[12]
    }

    /// The packet's channels.
    pub open spec fn channels(self) -> Seq<u8> {
        self@.skip(18)
    }

    /// A packet for `universe` with every channel off.
    pub fn new(universe: u16) -> (bridge: Self)
        ensures
            bridge@ == header(universe, 0) + Seq::new(512, |i: int| 0u8),
            bridge.is_for(universe),
            bridge.sequence() == 0,
            bridge.channels() == Seq::new(512, |i: int| 0u8),
    {
        let mut buf: [u8; 530] = [0u8; 530];
        // Fixed Head ID
        buf[0] = 0x41;
        buf[1] = 0x72;
        buf[2] = 0x74;
        buf[3] = 0x2D;
        buf[4] = 0x4E;
        buf[5] = 0x65;
        buf[6] = 0x74;
        // OpCode (0x5000, little endian)
        buf[9] = 0x50;
        // ProtVer
        buf[11] = 0x0E;
        // Universe (little endian)
        buf[14] = (universe % 256) as u8;
        buf[15] = (universe / 256) as u8;
        // Length of DMX data (512, big-endian)
        buf[16] = 0x02;
        let bridge = ArtNetBridge { buffer: buf };
        assert(bridge@ =~= header(universe, 0) + Seq::new(512, |i: int| 0u8));
        assert(bridge@.take(18) =~= header(universe, 0));
        assert(bridge.channels() =~= Seq::new(512, |i: int| 0u8));
        bridge
    }

    /// Sets one channel, counted from 0. There is none past 511.
    pub fn set_channel(&mut self, channel: usize, value: u8)
        ensures
            final(self)@ == if channel < 512 {
                old(self)@.update(18 + channel as int, value)
            } else {
                old(self)@
            },
            final(self)@ == with_channel(old(self)@, channel, value),
            final(self).sequence() == old(self).sequence(),
            final(self).channels() == if channel < 512 {
                old(self).channels().update(channel as int, value)
            } else {
                old(self).channels()
            },
            forall|universe: u16|
                old(self).is_for(universe) ==> #[trigger] final(self).is_for(universe),
    {
        if channel < 512 {
            self.buffer[18 + channel] = value;
            assert(self.channels() =~= old(self).channels().update(channel as int, value));
            assert(self@.take(18) =~= old(self)@.take(18));
        }
    }

    /// Access raw bytes to send over UDP
    pub fn as_bytes(&self) -> (bytes: &[u8])
        ensures
            bytes@ == self@,
    {
        self.buffer.as_slice()
    }

    /// Moves on to the next sequence number.
    pub fn increment_sequence(&mut self)
        ensures
            final(self)@ == moved_on(old(self)@),
            final(self).sequence() == next_sequence(old(self).sequence()),
            final(self).channels() == old(self).channels(),
            forall|universe: u16|
                old(self).is_for(universe) ==> #[trigger] final(self).is_for(universe),
    {
        self.buffer[12] = self.buffer[12].wrapping_add(1);
        assert(self.channels() =~= old(self).channels());
        assert forall|universe: u16| old(self).is_for(universe) implies #[trigger] self.is_for(
            universe,
        ) by {
            let was = old(self)@.take(18);
            assert(self@.take(18) =~= was.update(12, self.sequence()));
            assert(header(universe, self.sequence()) =~= was.update(12, self.sequence()));
        }
    }

    /// Sets every channel.
    pub fn set_raw_data(&mut self, initial_state: &[u8; 512])
        ensures
            final(self)@ == loaded(old(self)@, initial_state@),
            final(self).sequence() == old(self).sequence(),
            final(self).channels() == initial_state@,
            forall|universe: u16|
                old(self).is_for(universe) ==> #[trigger] final(self).is_for(universe),
    {
        let mut i: usize = 0;
        while i < 512
            invariant
                i <= 512,
                self@.len() == 530,
                old(self)@.len() == 530,
                forall|j: int| 0 <= j < 18 ==> self@[j] == old(self)@[j],
                forall|j: int| 18 <= j < 18 + i ==> self@[j] == initial_state@[j - 18],
            decreases 512 - i,
        {
            self.buffer[18 + i] = initial_state[i];
            i += 1;
        }
        assert(self@ =~= old(self)@.take(18) + initial_state@);
        assert(self.channels() =~= initial_state@);
        assert(self@.take(18) =~= old(self)@.take(18));
    }

    /// Moves on to the next sequence number where the packet was sent, and keeps
    /// the number where it was not.
    pub fn settle(&mut self, sent: bool)
        ensures
            final(self)@ == if sent {
                moved_on(old(self)@)
            } else {
                old(self)@
            },
            final(self)@ == settled_packet(old(self)@, sent),
            final(self).channels() == old(self).channels(),
            forall|universe: u16|
                old(self).is_for(universe) ==> #[trigger] final(self).is_for(universe),
    {
        if sent {
            self.increment_sequence();
        }
    }
}

/// The channels that a packet carries, where it is long enough to be an output
/// packet.
pub open spec fn carried(packet: Seq<u8>) -> Option<Seq<u8>> {
    if packet.len() < 530 {
        None
    } else {
        Some(packet.subrange(18, 530))
    }
}

/// The channels that a received packet carries, where it is long enough to be
/// an output packet.
pub fn captured_state(packet: &[u8]) -> (state: Option<[u8; 512]>)
    ensures
        match state {
            Some(channels) => packet@.len() >= 530 && channels@ == packet@.subrange(18, 530),
            None => packet@.len() < 530,
        },
        match state {
            Some(channels) => carried(packet@) == Some(channels@),
            None => carried(packet@) is None,
        },
{
    if packet.len() < PACKET {
        return None;
    }
    let mut state: [u8; 512] = [0u8; 512];
    let mut i: usize = 0;
    while i < 512
        invariant
            i <= 512,
            packet@.len() >= 530,
            forall|j: int| 0 <= j < i ==> state@[j] == packet@[j + 18],
        decreases 512 - i,
    {
        state[i] = packet[18 + i];
        i += 1;
    }
    assert(state@ =~= packet@.subrange(18, 530));
    Some(state)
}

/// What is captured of a packet is what was written to it: the channels.
pub proof fn law_capture_gives_back_channels(bridge: ArtNetBridge, universe: u16)
    requires
        bridge.is_for(universe),
    ensures
        bridge@.len() >= 530,
        bridge@.subrange(18, 530) == bridge.channels(),
{
    assert(bridge@.subrange(18, 530) =~= bridge.channels());
}

/// The sequence number after so many packets.
pub open spec fn sequence_after(sequence: u8, packets: nat) -> u8
    decreases packets,
{
    if packets == 0 {
        sequence
    } else {
        next_sequence(sequence_after(sequence, (packets - 1) as nat))
    }
}

/// After any number of packets the sequence number has moved on by as many,
/// modulo 256.
pub proof fn law_sequence_cycles(sequence: u8, packets: nat)
    ensures
        sequence_after(sequence, packets) == (sequence + packets) % 256,
    decreases packets,
{
    if packets > 0 {
        law_sequence_cycles(sequence, (packets - 1) as nat);
    }
}

/// The packet of a bridge after a number of writes: each loads its data, and
/// settles on whether that was sent.
pub open spec fn after_writes(universe: u16, writes: Seq<(Seq<u8>, bool)>) -> Seq<u8>
    decreases writes.len(),
{
    if writes.len() == 0 {
        header(universe, 0) + Seq::new(512, |i: int| 0u8)
    } else {
        let (data, sent) = writes.last();
        settled_packet(loaded(after_writes(universe, writes.drop_last()), data), sent)
    }
}

/// How many writes were sent.
pub open spec fn sent_count(writes: Seq<(Seq<u8>, bool)>) -> nat
    decreases writes.len(),
{
    if writes.len() == 0 {
        0
    } else {
        sent_count(writes.drop_last()) + if writes.last().1 {
            1nat
        } else {
            0nat
        }
    }
}

/// The header stands, with as many packets counted as were sent.
proof fn lemma_header_after_writes(universe: u16, writes: Seq<(Seq<u8>, bool)>)
    ensures
        after_writes(universe, writes).len() >= 18,
        after_writes(universe, writes).take(18) == header(
            universe,
            (sent_count(writes) % 256) as u8,
        ),
    decreases writes.len(),
{
    let all = after_writes(universe, writes);
    if writes.len() == 0 {
        assert(all.take(18) =~= header(universe, 0));
    } else {
        let rest = writes.drop_last();
        lemma_header_after_writes(universe, rest);
        let (data, sent) = writes.last();
        let before = after_writes(universe, rest);
        let k = (sent_count(rest) % 256) as u8;
        let packet = loaded(before, data);
        assert(packet.take(18) =~= before.take(18));
        if sent {
            assert(packet[12] == packet.take(18)[12]);
            assert(all.take(18) =~= header(universe, k).update(12, next_sequence(k)));
            assert(header(universe, k).update(12, next_sequence(k)) =~= header(
                universe,
                next_sequence(k),
            ));
            assert(next_sequence(k) == (sent_count(writes) % 256) as u8);
        }
    }
}

/// Whatever was written before, the packet of the next write is the header of
/// the universe, with the number of packets sent so far modulo 256, and the
/// data. A write that was not sent does not count.
pub proof fn law_writes_are_numbered(
    universe: u16,
    writes: Seq<(Seq<u8>, bool)>,
    data: Seq<u8>,
)
    ensures
        loaded(after_writes(universe, writes), data) == header(
            universe,
            (sent_count(writes) % 256) as u8,
        ) + data,
{
    lemma_header_after_writes(universe, writes);
}

/// The two bytes of a number make it up.
pub proof fn law_bytes_make_up_their_number(n: u16)
    ensures
        256 * high_byte(n) as nat + low_byte(n) as nat == n,
{
}

/// A header names the protocol and ends the name with a zero byte, has the opcode
/// of output, 0x5000, and the universe with their low bytes first, and protocol
/// version 14 and the length 512 with their high bytes first.
pub proof fn law_header_tells_universe_and_length(universe: u16, sequence: u8)
    ensures
        ({
            let head = header(universe, sequence);
            &&& head.len() == 18
            &&& forall|i: int| 0 <= i < 7 ==> #[trigger] head[i] as char == "Art-Net"@[i]
            &&& head[7] == 0
            &&& head[8] as nat + 256 * head[9] as nat == 0x5000
            &&& 256 * head[10] as nat + head[11] as nat == 14
            &&& head[12] == sequence
            &&& head[13] == 0
            &&& head[14] as nat + 256 * head[15] as nat == universe
            &&& 256 * head[16] as nat + head[17] as nat == 512
        }),
{
    reveal_strlit("Art-Net");
    assert("Art-Net"@.len() == 7);
}

/// A packet that is loaded keeps its header, and holds at each channel what was
/// loaded there.
pub proof fn law_loaded_packets_hold_their_channels(packet: Seq<u8>, data: Seq<u8>, channel: int)
    requires
        packet.len() == 530,
        data.len() == 512,
        0 <= channel < 512,
    ensures
        loaded(packet, data).len() == 530,
        loaded(packet, data)[18 + channel] == data[channel],
        forall|i: int| 0 <= i < 18 ==> #[trigger] loaded(packet, data)[i] == packet[i],
{
}

/// Moving on changes the sequence number alone, by one, and 0 comes after 255.
pub proof fn law_moving_on_changes_the_number_alone(packet: Seq<u8>)
    requires
        packet.len() == 530,
    ensures
        moved_on(packet).len() == 530,
        moved_on(packet)[12] == (packet[12] + 1) % 256,
        forall|i: int| 0 <= i < 530 && i != 12 ==> #[trigger] moved_on(packet)[i] == packet[i],
{
}

/// Whatever is loaded into a packet is carried by it, whatever stands behind it,
/// and a packet that is cut short carries nothing.
pub proof fn law_loaded_channels_are_carried(packet: Seq<u8>, data: Seq<u8>, behind: Seq<u8>)
    requires
        packet.len() == 530,
        data.len() == 512,
    ensures
        carried(loaded(packet, data) + behind) == Some(data),
        behind.len() < 530 ==> carried(behind) is None,
{
    let all = loaded(packet, data) + behind;
    assert(all.subrange(18, 530) =~= data);
}

/// Setting a channel sets that channel alone, behind the header, and there is none
/// past 511.
pub proof fn law_channels_are_set_alone(packet: Seq<u8>, channel: usize, value: u8, i: int)
    requires
        packet.len() == 530,
        0 <= i < 530,
    ensures
        with_channel(packet, channel, value).len() == 530,
        i == 18 + channel ==> with_channel(packet, channel, value)[i] == value,
        i != 18 + channel ==> with_channel(packet, channel, value)[i] == packet[i],
{
}

/// Only a packet that was sent moves its number on, and nothing else changes.
pub proof fn law_only_sent_packets_count(packet: Seq<u8>, i: int)
    requires
        packet.len() == 530,
        0 <= i < 530,
    ensures
        settled_packet(packet, false) == packet,
        settled_packet(packet, true)[12] == (packet[12] + 1) % 256,
        i != 12 ==> settled_packet(packet, true)[i] == packet[i],
{
}

} // verus!
