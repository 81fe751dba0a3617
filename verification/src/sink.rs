//! What becomes of the frames that the engine sends out.

use vstd::prelude::*;

verus! {

/// A Mock Sink for testing. Records frames sent to it.
pub struct MockSink {
    pub states: Vec<[u8; 512]>,
}

impl Default for MockSink {
    fn default() -> (sink: Self)
        ensures
            sink.states@ == Seq::<[u8; 512]>::empty(),
    {
        MockSink { states: Vec::new() }
    }
}

impl MockSink {
    /// Records a frame, whatever its universe.
    pub fn write_universe(&mut self, _universe_id: u16, data: &[u8; 512])
        ensures
            final(self).states@ == old(self).states@.push(*data),
    {
        self.states.push(*data);
    }
}

/// One of the outcomes is a success.
pub open spec fn any_sent<E>(outcomes: Seq<Result<(), E>>) -> bool {
    exists|i: int| 0 <= i < outcomes.len() && #[trigger] outcomes[i] is Ok
}

/// What a broadcast comes to.
pub open spec fn broadcast_outcome<E>(outcomes: Seq<Result<(), E>>) -> Result<(), E> {
    if outcomes.len() == 0 || any_sent(outcomes) {
        Ok(())
    } else {
        outcomes[0]
    }
}

/// What a broadcast to several sinks comes to, given what each of them said:
/// it succeeds where one of them took the frame or there is none, and fails
/// with the first sink's error otherwise.
#[verifier::loop_isolation(false)]
pub fn broadcast_result<E>(outcomes: Vec<Result<(), E>>) -> (result: Result<(), E>)
    ensures
        result is Ok <==> outcomes@.len() == 0 || any_sent(outcomes@),
        result matches Err(error) ==> outcomes@[0] == Err::<(), E>(error),
        result == broadcast_outcome(outcomes@),
{
    let mut given = outcomes;
    let mut i: usize = 0;
    while i < given.len()
        invariant
            i <= given@.len(),
            forall|j: int| 0 <= j < i ==> !(#[trigger] given@[j] is Ok),
        decreases given@.len() - i,
    {
        if given[i].is_ok() {
            assert(given@[i as int] is Ok);
            return Ok(());
        }
        i += 1;
    }
    if given.len() == 0 {
        return Ok(());
    }
    given.swap_remove(0)
}

/// A broadcast has been sent exactly where one of the sinks took the frame,
/// wherever among them it stands.
pub proof fn law_one_sink_is_enough<E>(outcomes: Seq<Result<(), E>>, i: int)
    ensures
        0 <= i < outcomes.len() && outcomes[i] is Ok ==> any_sent(outcomes),
        (forall|j: int| 0 <= j < outcomes.len() ==> #[trigger] outcomes[j] is Err) ==> !any_sent(
            outcomes,
        ),
{
}

/// A sink that fails stops no other: a broadcast to sinks of which one succeeds is a
/// success, wherever that one stands; one to no sinks is too; and where all fail it
/// fails as the first of them did.
pub proof fn law_broadcasts_fail_only_as_a_whole<E>(
    before: Seq<Result<(), E>>,
    after: Seq<Result<(), E>>,
    error: E,
)
    requires
        forall|i: int| 0 <= i < after.len() ==> #[trigger] after[i] is Err,
    ensures
        broadcast_outcome(before.push(Ok(())) + after) is Ok,
        broadcast_outcome(Seq::<Result<(), E>>::empty()) is Ok,
        broadcast_outcome(seq![Err::<(), E>(error)] + after) == Err::<(), E>(error),
{
    let sent = before.push(Ok(())) + after;
    assert(sent[before.len() as int] is Ok);
    let failed = seq![Err::<(), E>(error)] + after;
    assert forall|i: int| 0 <= i < failed.len() implies !(#[trigger] failed[i] is Ok) by {
        if i > 0 {
            assert(failed[i] == after[i - 1]);
        }
    }
}

} // verus!
