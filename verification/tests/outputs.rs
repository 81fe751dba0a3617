use std::collections::HashMap;

use pulseplex::artnet::{captured_state, ArtNetBridge};
use pulseplex::config::{ShutdownConfig, ShutdownMode};
use pulseplex::shutdown::shutdown_frame;
use pulseplex::sink::{broadcast_result, MockSink};

/// Something that frames are sent to.
trait Sink {
    fn write(&mut self, universe_id: u16, data: &[u8; 512]) -> Result<(), String>;
}

impl Sink for MockSink {
    fn write(&mut self, universe_id: u16, data: &[u8; 512]) -> Result<(), String> {
        self.write_universe(universe_id, data);
        Ok(())
    }
}

#[derive(Default)]
struct FailingSink {
    calls: usize,
}

impl Sink for FailingSink {
    fn write(&mut self, _universe_id: u16, _data: &[u8; 512]) -> Result<(), String> {
        self.calls += 1;
        Err("intentional sink failure".to_string())
    }
}

fn broadcast(sinks: &mut [&mut dyn Sink], data: &[u8; 512]) -> Result<(), String> {
    broadcast_result(sinks.iter_mut().map(|sink| sink.write(1, data)).collect())
}

#[test]
fn broadcast_sink_forwards_frames_to_all_sinks() {
    let mut first = MockSink::default();
    let mut second = MockSink::default();

    let data = [255u8; 512];
    broadcast(&mut [&mut first, &mut second], &data).unwrap();

    assert_eq!(first.states.len(), 1);
    assert_eq!(second.states.len(), 1);
    assert_eq!(first.states[0], data);
}

#[test]
fn broadcast_sink_continues_on_individual_failure() {
    let mut first = MockSink::default();
    let mut failing = FailingSink::default();
    let mut last = MockSink::default();

    let data = [0u8; 512];

    // Should return Ok because at least one sink succeeded
    let result = broadcast(&mut [&mut first, &mut failing, &mut last], &data);

    assert!(result.is_ok());
    assert_eq!(failing.calls, 1);

    assert_eq!(first.states.len(), 1);
    assert_eq!(last.states.len(), 1);
}

#[test]
fn broadcasts_fail_with_the_first_error() {
    let outcomes: Vec<Result<(), &str>> = vec![Err("first"), Err("second")];
    assert_eq!(broadcast_result(outcomes), Err("first"));
    assert_eq!(broadcast_result(Vec::<Result<(), &str>>::new()), Ok(()));
}

#[test]
fn test_perform_shutdown_restore() {
    let config = ShutdownConfig {
        mode: ShutdownMode::Restore,
        defaults: None,
    };

    let mut sink = MockSink::default();
    let mut initial_state = [0u8; 512];
    initial_state[0] = 255;
    initial_state[10] = 100;

    sink.write_universe(1, &shutdown_frame(&config, &initial_state));

    assert_eq!(sink.states.len(), 1);
    assert_eq!(sink.states[0][0], 255);
    assert_eq!(sink.states[0][10], 100);
}

#[test]
fn test_perform_shutdown_default() {
    let mut defaults = HashMap::new();
    defaults.insert(5, 255);
    defaults.insert(11, 128);

    let config = ShutdownConfig {
        mode: ShutdownMode::Default,
        defaults: Some(defaults),
    };

    let mut sink = MockSink::default();
    let initial_state = [0u8; 512];

    sink.write_universe(1, &shutdown_frame(&config, &initial_state));

    assert_eq!(sink.states.len(), 1);
    assert_eq!(sink.states[0][5], 255);
    assert_eq!(sink.states[0][11], 128);
}

#[test]
fn shutting_down_can_black_out() {
    let initial_state = [9u8; 512];
    let blackout = ShutdownConfig { mode: ShutdownMode::Blackout, defaults: None };
    assert_eq!(shutdown_frame(&blackout, &initial_state), [0u8; 512]);
    let empty = ShutdownConfig { mode: ShutdownMode::Default, defaults: None };
    assert_eq!(shutdown_frame(&empty, &initial_state), [0u8; 512]);
    // Channels outside the universe are ignored.
    let far = ShutdownConfig {
        mode: ShutdownMode::Default,
        defaults: Some(HashMap::from([(512, 1), (511, 2)])),
    };
    let frame = shutdown_frame(&far, &initial_state);
    assert_eq!(frame[511], 2);
    assert_eq!(frame[..511], [0u8; 511]);
}

#[test]
fn artnet_packets_have_a_header() {
    let bridge = ArtNetBridge::new(0x0102);
    let bytes = bridge.as_bytes();
    assert_eq!(bytes.len(), 530);
    assert_eq!(&bytes[..8], b"Art-Net\0");
    assert_eq!(
        &bytes[8..18],
        &[0x00, 0x50, 0x00, 0x0E, 0x00, 0x00, 0x02, 0x01, 0x02, 0x00]
    );
    assert!(bytes[18..].iter().all(|&value| value == 0));
}

#[test]
fn artnet_channels_can_be_set_and_captured() {
    let mut bridge = ArtNetBridge::new(1);
    bridge.set_channel(0, 7);
    bridge.set_channel(511, 8);
    bridge.set_channel(512, 9);
    assert_eq!(bridge.as_bytes()[18], 7);
    assert_eq!(bridge.as_bytes()[529], 8);
    let mut data = [3u8; 512];
    data[100] = 4;
    bridge.set_raw_data(&data);
    assert_eq!(captured_state(bridge.as_bytes()), Some(data));
    assert_eq!(captured_state(&bridge.as_bytes()[..529]), None);
    let mut longer = bridge.as_bytes().to_vec();
    longer.push(1);
    assert_eq!(captured_state(&longer), Some(data));
}

#[test]
fn artnet_sequence_wraps() {
    let mut bridge = ArtNetBridge::new(1);
    for n in 0..600usize {
        assert_eq!(bridge.as_bytes()[12] as usize, n % 256);
        bridge.increment_sequence();
    }
}

#[test]
fn writes_are_numbered_by_what_was_sent() {
    let mut bridge = ArtNetBridge::new(0x0304);
    let mut sent = 0usize;
    for n in 0..700usize {
        let data = [(n % 251) as u8; 512];
        bridge.set_raw_data(&data);
        let packet = bridge.as_bytes();
        assert_eq!(packet.len(), 530);
        assert_eq!(&packet[..8], b"Art-Net\0");
        assert_eq!(packet[12] as usize, sent % 256);
        assert_eq!(&packet[14..16], &[0x04, 0x03]);
        assert_eq!(packet[18..530], data);
        // Every third packet does not go out.
        let went_out = n % 3 != 0;
        bridge.settle(went_out);
        if went_out {
            sent += 1;
        }
    }
}
