//! The last frame: how the lights are left.

use crate::config::{ShutdownConfig, ShutdownMode};
use crate::engine::blackout;
use crate::maps::{keys_of, lemma_take_contains};
use std::collections::HashMap;
use vstd::prelude::*;

verus! {

broadcast use vstd::std_specs::hash::group_hash_axioms;

/// A frame with the given channels at the given values and every other off.
/// There is no channel past 511.
pub open spec fn scene(defaults: Map<usize, u8>) -> Seq<u8> {
    Seq::new(
        512,
        |channel: int|
            if defaults.contains_key(channel as usize) {
                defaults[channel as usize]
            } else {
                0u8
            },
    )
}

/// The frame that is sent on shutdown.
pub open spec fn last_frame(config: ShutdownConfig, initial_state: Seq<u8>) -> Seq<u8> {
    match config.mode {
        ShutdownMode::Blackout => blackout(),
        ShutdownMode::Default => match config.defaults {
            Some(defaults) => scene(defaults@),
            None => blackout(),
        },
        ShutdownMode::Restore => initial_state,
    }
}

/// The frame that is sent on shutdown: nothing lit, the configured scene, or
/// the state that was captured at the start.
pub fn shutdown_frame(config: &ShutdownConfig, initial_state: &[u8; 512]) -> (frame: [u8; 512])
    ensures
        frame@ == last_frame(*config, initial_state@),
{
    match config.mode {
        ShutdownMode::Blackout => {
            let frame: [u8; 512] = [0u8; 512];
            assert(frame@ =~= blackout());
            frame
        },
        ShutdownMode::Default => match &config.defaults {
            Some(defaults) => scene_frame(defaults),
            None => {
                let frame: [u8; 512] = [0u8; 512];
                assert(frame@ =~= blackout());
                frame
            },
        },
        ShutdownMode::Restore => *initial_state,
    }
}

/// The frame of a scene.
fn scene_frame(defaults: &HashMap<usize, u8>) -> (frame: [u8; 512])
    ensures
        frame@ == scene(defaults@),
{
    let mut frame: [u8; 512] = [0u8; 512];
    let channels: Vec<usize> = keys_of(defaults);
    let mut n: usize = 0;
    while n < channels.len()
        invariant
            n <= channels@.len(),
            forall|channel: usize| #[trigger]
                channels@.contains(channel) <==> defaults@.contains_key(channel),
            forall|i: int|
                0 <= i < 512 ==> #[trigger] frame@[i] == if channels@.take(n as int).contains(
                    i as usize,
                ) {
                    defaults@[i as usize]
                } else {
                    0u8
                },
        decreases channels@.len() - n,
    {
        let channel: usize = channels[n];
        assert(channels@.contains(channel));
        let entry: Option<&u8> = defaults.get(&channel);
        if let Some(value) = entry {
            if channel < 512 {
                frame[channel] = *value;
            }
        }
        proof {
            lemma_take_contains(channels@, n as int);
        }
        n += 1;
    }
    assert(channels@.take(n as int) =~= channels@);
    assert(frame@ =~= scene(defaults@));
    frame
}

/// How the lights are left: all off on a blackout; as they were found on a
/// restore; and by default each channel at the value that is configured for it,
/// any other off, and all off where nothing is configured.
pub proof fn law_lights_are_left_as_configured(
    config: ShutdownConfig,
    initial_state: Seq<u8>,
    channel: usize,
)
    requires
        initial_state.len() == 512,
        channel < 512,
    ensures
        last_frame(config, initial_state).len() == 512,
        config.mode == ShutdownMode::Blackout ==> last_frame(config, initial_state)[channel as int]
            == 0,
        config.mode == ShutdownMode::Restore ==> last_frame(config, initial_state)[channel as int]
            == initial_state[channel as int],
        config.mode == ShutdownMode::Default ==> last_frame(config, initial_state)[channel as int]
            == (match config.defaults {
            Some(values) => if values@.contains_key(channel) {
                values@[channel]
            } else {
                0
            },
            None => 0,
        }),
{
}

} // verus!
