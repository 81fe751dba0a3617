//! What inputs send to the engine.

use vstd::prelude::*;

verus! {

/// How many channels a DMX universe has.
pub const CHANNELS: usize = 512;

/// Standardized message type for all inputs (MIDI, OSC, Art-Net, etc.)
#[derive(Debug, Clone, PartialEq)]
pub enum SourceEvent {
    /// A hardware trigger (e.g. MIDI Note On)
    Trigger { id: u16, velocity: u8 },
    /// An external DMX frame to be merged (e.g. Art-Net Input)
    DmxFrame { universe: u16, data: Box<[u8; 512]> },
    /// Clear all active effects/envelopes
    ClearAll,
}

/// A Mock Source for testing.
pub struct MockSource {
    /// What is still to be sent, the next event last.
    events: Vec<SourceEvent>,
}

impl View for MockSource {
    type V = Seq<SourceEvent>;

    /// What is still to be sent, in order.
    closed spec fn view(&self) -> Seq<SourceEvent> {
        self.events@.reverse()
    }
}

impl MockSource {
    /// A source that sends the given events in order.
    pub fn new(events: Vec<SourceEvent>) -> (source: Self)
        ensures
            source@ == events@,
    {
        let mut given = events;
        let mut events: Vec<SourceEvent> = Vec::new();
        let ghost all = given@;
        // Reverse so we can pop
        while given.len() > 0
            invariant
                given@ == all.take(given@.len() as int),
                given@.len() <= all.len(),
                events@ == all.skip(given@.len() as int).reverse(),
            decreases given@.len(),
        {
            let ghost left = given@.len();
            if let Some(event) = given.pop() {
                assert(given@ =~= all.take(left - 1));
                events.push(event);
                assert(events@ =~= all.skip(left - 1).reverse());
            }
        }
        assert(all.skip(0) =~= all);
        assert(events@.reverse() =~= all);
        MockSource { events }
    }

    /// The next event, which is then no longer to be sent.
    pub fn next_event(&mut self) -> (event: Option<SourceEvent>)
        ensures
            match event {
                Some(sent) => old(self)@.len() > 0 && sent == old(self)@[0] && final(self)@
                    == old(self)@.skip(1),
                None => old(self)@.len() == 0 && final(self)@ == old(self)@,
            },
    {
        let event = self.events.pop();
        proof {
            if event is Some {
                assert(self@ =~= old(self)@.skip(1));
            }
        }
        event
    }
}

} // verus!
