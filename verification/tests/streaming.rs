use std::collections::HashMap;
use std::fmt;
use std::sync::Arc;

use pulseplex::envelope::{DecayEnvelope, DecayProfile, VelocityCurve};
use pulseplex::hue::{
    after_handover, area_url, auth_url, build_huestream_packet, build_patched_packet,
    check_area_id, fill_frame, next_connection, patch_plan, pre_shared_key, stream_address,
    stream_plan, ConnectionEnd, Handover, HueError, HueOutputMapping, HuePatch, HueStream,
    NextConnection,
};
use pulseplex::json::Json;
use pulseplex::tls::{names_shortcoming, tolerates};

const AREA: &str = "12345678-1234-1234-1234-123456789012";

fn mappings() -> Vec<HueOutputMapping> {
    vec![
        HueOutputMapping { internal_id: 1, channel_id: 0, color: Some([255, 128, 0]) },
        HueOutputMapping { internal_id: 2, channel_id: 1, color: None },
    ]
}

#[test]
fn test_huestream_packet_layout_v2() {
    let mappings = mappings();
    let intensities: Vec<u32> = vec![1.0f32.to_bits(), 0.5f32.to_bits()];
    let sequence = 42;
    let area_id = "12345678-1234-1234-1234-123456789012";

    let packet =
        build_huestream_packet(&intensities, &mappings, &[0, 1], sequence, area_id).unwrap();

    assert_eq!(&packet[0..9], b"HueStream");
    assert_eq!(packet[9], 0x02);
    assert_eq!(packet[11], sequence);
    assert_eq!(&packet[16..52], area_id.as_bytes());
    assert_eq!(packet[52], 0x00);
    assert_eq!(packet[53], 0xFF);
    assert_eq!(packet[54], 0xFF);
    assert_eq!(packet[59], 0x01);
    assert_eq!(packet[60], 0x80);
}

#[test]
fn packets_hold_every_light() {
    let full = 1.0f32.to_bits();
    let packet = build_huestream_packet(&[full, full], &mappings(), &[1, 0, 1], 7, AREA).unwrap();
    assert_eq!(packet.len(), 52 + 3 * 7);
    assert_eq!(&packet[9..16], &[2, 0, 7, 0, 0, 0, 0]);
    assert_eq!(&packet[52..59], &[1, 255, 255, 255, 255, 255, 255]);
    assert_eq!(&packet[59..66], &[0, 255, 255, 128, 128, 0, 0]);
    assert_eq!(&packet[66..73], &[1, 255, 255, 255, 255, 255, 255]);
    // Intensities that are missing, or none, are dark.
    let packet = build_huestream_packet(&[0], &mappings(), &[0, 1], 0, AREA).unwrap();
    assert_eq!(&packet[52..], &[0, 0, 0, 0, 0, 0, 0, 1, 0, 0, 0, 0, 0, 0]);
    // Halves are rounded up.
    let half = 0.5f32.to_bits();
    let packet = build_huestream_packet(&[half], &mappings(), &[0], 0, AREA).unwrap();
    assert_eq!(&packet[52..], &[0, 0x80, 0x00, 0x40, 0x40, 0, 0]);
}

#[test]
fn patched_lights_follow_the_universe() {
    let mut universe = [0u8; 512];
    universe[0..3].copy_from_slice(&[255, 128, 1]);
    universe[511] = 7;
    let patch = |hue_id, dmx_address| HuePatch { hue_id, dmx_address };
    let patches = [patch(4, 0), patch(5, 1), patch(6, 511), patch(7, 512), patch(8, usize::MAX)];
    let packet = build_patched_packet(&universe, &patches, 42, AREA).unwrap();
    assert_eq!(packet.len(), 52 + 5 * 7);
    assert_eq!(&packet[0..9], b"HueStream");
    assert_eq!(&packet[9..16], &[2, 0, 42, 0, 0, 0, 0]);
    assert_eq!(&packet[16..52], AREA.as_bytes());
    assert_eq!(&packet[52..59], &[4, 255, 255, 128, 128, 1, 1]);
    assert_eq!(&packet[59..66], &[5, 128, 128, 1, 1, 0, 0]);
    assert_eq!(&packet[66..73], &[6, 7, 7, 0, 0, 0, 0]);
    assert_eq!(&packet[73..], &[7, 0, 0, 0, 0, 0, 0, 8, 0, 0, 0, 0, 0, 0]);
    assert!(matches!(
        build_patched_packet(&universe, &patches, 0, "short"),
        Err(HueError::AreaId)
    ));

    let mut stream = HueStream::new();
    assert_eq!(stream.next_patched_packet(&universe, &patches, AREA).unwrap()[11], 0);
    assert!(stream.next_patched_packet(&universe, &patches, "").is_err());
    assert_eq!(stream.next_patched_packet(&universe, &patches, AREA).unwrap()[11], 1);
}

#[test]
fn area_ids_are_36_bytes_long() {
    assert!(check_area_id(AREA).is_ok());
    let error = check_area_id("short").unwrap_err();
    assert!(matches!(error, HueError::AreaId));
    assert_eq!(error.message(), "Hue area_id must be exactly 36 characters (UUID)");
    assert!(matches!(
        build_huestream_packet(&[], &mappings(), &[], 0, "short"),
        Err(HueError::AreaId)
    ));
    // Bytes count, and not characters.
    assert!(check_area_id(&"é".repeat(18)).is_ok());
    assert!(check_area_id(&"é".repeat(36)).is_err());
}

#[test]
fn streams_number_their_packets() {
    let mut stream = HueStream::new();
    let full = 1.0f32.to_bits();
    for n in 0..600usize {
        let packet = stream.next_packet(&[full], &mappings(), &[0], AREA).unwrap();
        assert_eq!(packet[11] as usize, n % 256);
    }
    let before = stream.sequence;
    assert!(stream.next_packet(&[full], &mappings(), &[0], "").is_err());
    assert_eq!(stream.sequence, before);
}

#[test]
fn client_keys_are_hexadecimal() {
    assert_eq!(pre_shared_key("00fF-1a2B").unwrap(), vec![0x00, 0xFF, 0x1A, 0x2B]);
    assert_eq!(pre_shared_key("").unwrap(), Vec::<u8>::new());
    assert_eq!(pre_shared_key("--").unwrap(), Vec::<u8>::new());
    for bad in ["0", "0g", "abc", "é", "0 "] {
        let error = pre_shared_key(bad).unwrap_err();
        assert_eq!(error.cause, hex::decode(bad).unwrap_err());
    }
}

#[test]
fn addresses_of_a_bridge() {
    assert_eq!(auth_url("1.2.3.4"), "https://1.2.3.4/auth/v1");
    assert_eq!(
        area_url("1.2.3.4", "abc"),
        "https://1.2.3.4/clip/v2/resource/entertainment_configuration/abc"
    );
    assert_eq!(stream_address("1.2.3.4"), "1.2.3.4:2100");
}

#[test]
fn frames_hold_the_intensity_of_each_light() {
    let mut lit = DecayEnvelope::new(1.0f32.to_bits(), VelocityCurve::Linear, DecayProfile::Linear);
    lit.trigger(127);
    let mut buffer = vec![9u32, 9];
    fill_frame(&mut buffer, &mappings(), &HashMap::from([(2usize, lit), (3usize, lit)]));
    assert_eq!(buffer, vec![0, 1.0f32.to_bits()]);
}

#[test]
fn busy_streams_hand_buffers_back_and_ended_ones_are_errors() {
    assert!(!after_handover(Handover::Taken).unwrap());
    assert!(after_handover(Handover::Full).unwrap());
    let error = after_handover(Handover::Closed).unwrap_err();
    assert!(matches!(error, HueError::Closed));
    assert_eq!(error.message(), "Hue background thread closed");
}

fn object(entries: Vec<(&str, Json)>) -> Json {
    Json::Object(
        entries
            .into_iter()
            .map(|(key, value)| (key.to_string(), value))
            .collect(),
    )
}

fn details(channels: Vec<Json>) -> Json {
    object(vec![(
        "data",
        Json::List(vec![object(vec![
            ("status", Json::Text("inactive".to_string())),
            ("channels", Json::List(channels)),
        ])]),
    )])
}

fn reported(id: Option<u64>) -> Json {
    object(vec![("channel_id", Json::Number(id))])
}

#[test]
fn plans_keep_the_channels_that_the_bridge_reports() {
    let area = details(vec![reported(Some(1)), reported(Some(9)), Json::Null, reported(None)]);
    assert_eq!(stream_plan(&mappings(), Some(&area), AREA).unwrap(), vec![1]);
    // IDs keep their low byte.
    let area = details(vec![reported(Some(256)), reported(Some(257))]);
    assert_eq!(stream_plan(&mappings(), Some(&area), AREA).unwrap(), vec![0, 1]);
}

#[test]
fn patches_keep_the_channels_that_the_bridge_reports() {
    let patch = |hue_id, dmx_address| HuePatch { hue_id, dmx_address };
    let patches = vec![patch(0, 0), patch(1, 3), patch(0, 6), patch(9, 9)];
    let area = details(vec![reported(Some(9)), reported(Some(256))]);
    assert_eq!(
        patch_plan(&patches, Some(&area), AREA).unwrap(),
        vec![patch(0, 0), patch(0, 6), patch(9, 9)]
    );
    assert_eq!(patch_plan(&patches, None, AREA).unwrap(), patches);
    assert_eq!(patch_plan(&patches, Some(&Json::Null), AREA).unwrap(), patches);
    let area = details(vec![reported(Some(200))]);
    let error = patch_plan(&patches, Some(&area), "AREA").unwrap_err();
    assert!(matches!(error, HueError::NoChannels(area) if area == "AREA"));
    assert!(patch_plan(&vec![], None, "AREA").is_err());
}

#[test]
fn plans_keep_everything_where_the_bridge_reports_no_list() {
    for area in [
        Json::Null,
        Json::Bool(true),
        object(vec![]),
        object(vec![("data", Json::Null)]),
        object(vec![("data", Json::List(vec![]))]),
        object(vec![("data", Json::List(vec![object(vec![("channels", Json::Null)])]))]),
    ] {
        assert_eq!(stream_plan(&mappings(), Some(&area), AREA).unwrap(), vec![0, 1]);
    }
    assert_eq!(stream_plan(&mappings(), None, AREA).unwrap(), vec![0, 1]);
}

#[test]
fn plans_without_a_channel_are_errors() {
    let area = details(vec![reported(Some(200))]);
    let error = stream_plan(&mappings(), Some(&area), "AREA").unwrap_err();
    assert_eq!(
        error.message(),
        "No valid Hue channels found in Entertainment Area AREA. Aborting stream."
    );
    assert!(matches!(error, HueError::NoChannels(_)));
    assert!(stream_plan(&vec![], None, "AREA").is_err());
}

#[test]
fn connections_are_retried_while_somebody_sends() {
    assert_eq!(next_connection(ConnectionEnd::StreamEnded, false), NextConnection::Stop);
    assert_eq!(next_connection(ConnectionEnd::HandshakeFailed, true), NextConnection::Stop);
    assert_eq!(next_connection(ConnectionEnd::StreamFailed, true), NextConnection::Stop);
    assert_eq!(
        next_connection(ConnectionEnd::HandshakeFailed, false),
        NextConnection::RetryAfter(5)
    );
    assert_eq!(
        next_connection(ConnectionEnd::StreamFailed, false),
        NextConnection::RetryAfter(1)
    );
}

// Create a custom error type to simulate the deep webpki error
#[derive(Debug)]
struct MockWebpkiError(String);

impl fmt::Display for MockWebpkiError {
    fn fmt(&self, f: &mut fmt::Formatter<'_>) -> fmt::Result {
        f.write_str(&self.0)
    }
}

impl std::error::Error for MockWebpkiError {}

#[test]
fn test_hue_verifier_suppresses_san_errors() {
    // The dynamic string error that a Hue Bridge causes, boxed inside the 'Other' variant.
    let error_msg = "invalid peer certificate: certificate not valid for name \"001788fffea43aaf\"; certificate is not valid for any names".to_string();
    let error = rustls::Error::InvalidCertificate(rustls::CertificateError::Other(
        rustls::OtherError(Arc::new(MockWebpkiError(error_msg))),
    ));

    let result = tolerates(&error.to_string());

    assert!(
        result,
        "HueCertVerifier failed to suppress the boxed NotValidForName error!"
    );
}

#[test]
fn only_known_shortcomings_are_tolerated() {
    for known in [
        "certificate EXPIRED",
        "Not Valid Yet",
        "certificate not valid for name \"x\"",
        "certificate is not valid for any names",
        "missing subjectAltName extension",
    ] {
        assert!(tolerates(known), "{known}");
    }
    for other in ["bad signature", "unknown issuer", ""] {
        assert!(!tolerates(other), "{other}");
    }
    assert!(names_shortcoming("expired"));
    assert!(!names_shortcoming("EXPIRED"));
}
