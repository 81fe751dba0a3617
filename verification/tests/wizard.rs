use pulseplex::dashboard::{
    channel_rows, columns, event_text, header_text, record, Shade, LOG_LENGTH,
};
use pulseplex::setup::{
    area_names, areas_url, bridge_id, check_devices, check_link_time, chosen_area, is_bridge,
    keeps_listening, link_step, link_url, preferred_address, render_config, service_answer,
    Answers, Area, Credentials, LinkReply, LinkStep, ListedBridge, ServiceAnswer, SetupError,
    LINK_TIMEOUT,
};
use pulseplex::source::SourceEvent;
use pulseplex::text::{contains, push_decimal, push_left_aligned, replace_all, trim_leading, up_to};
use pulseplex::update::{notice_for, update_notice, UpdateError};

fn answers() -> Answers {
    Answers {
        midi_device: "Test Device".to_string(),
        bridge_ip: "127.0.0.1".to_string(),
        bridge_id: "ab12".to_string(),
        username: "test-user".to_string(),
        client_key: "test-key".to_string(),
        area_id: "12345678-1234-1234-1234-123456789012".to_string(),
    }
}

#[test]
fn templates_are_filled_in() {
    let template = "d={midi_device} {midi_device} i={bridge_ip} b={bridge_id} u={username} k={client_key} a={area_id} {other}";
    assert_eq!(
        render_config(template, &answers()),
        "d=Test Device Test Device i=127.0.0.1 b=ab12 u=test-user k=test-key a=12345678-1234-1234-1234-123456789012 {other}"
    );
    assert_eq!(render_config("no {blanks} here", &answers()), "no {blanks} here");
    // Later blanks are filled in within earlier answers too.
    let mut nested = answers();
    nested.midi_device = "{area_id}".to_string();
    nested.area_id = "x".to_string();
    assert_eq!(render_config("{midi_device}", &nested), "x");
}

#[test]
fn bridges_announce_their_ids() {
    let id = b"001788FFFEA43AAF".to_vec();
    assert_eq!(bridge_id(Some(&id), "ignored"), "001788fffea43aaf");
    assert_eq!(bridge_id(None, "Hue Bridge A1.local.more"), "hue-bridge-a1");
    assert_eq!(bridge_id(None, "Hue Bridge"), "hue-bridge");
    assert_eq!(bridge_id(Some(&vec![0xFF, b'A']), ""), "\u{FFFD}a");
    assert!(is_bridge(Some(&id), "001788fffea43aaf"));
    assert!(is_bridge(Some(&id), "001788FFFEA43AAF"));
    assert!(!is_bridge(Some(&id), "other"));
    assert!(!is_bridge(None, "other"));
    assert!(is_bridge(None, ""));
}

#[test]
fn version_4_addresses_are_preferred() {
    assert_eq!(preferred_address(&vec![false, true, true]).unwrap(), 1);
    assert_eq!(preferred_address(&vec![false, false]).unwrap(), 0);
    let error = preferred_address(&vec![]).unwrap_err();
    assert!(matches!(error, SetupError::NoAddress));
    assert_eq!(error.message(), "No IP found for mDNS service");
}

#[test]
fn discovery_service_lists_bridges() {
    let listed = vec![
        ListedBridge { id: "AB".to_string(), internalipaddress: "1.2.3.4".to_string() },
        ListedBridge { id: "CD".to_string(), internalipaddress: "5.6.7.8".to_string() },
    ];
    assert!(matches!(
        service_answer(200, Some(&listed)),
        ServiceAnswer::Found { address, id } if address == "1.2.3.4" && id == "ab"
    ));
    assert!(matches!(service_answer(429, Some(&listed)), ServiceAnswer::TooManyRequests));
    assert!(matches!(service_answer(200, Some(&vec![])), ServiceAnswer::Nothing));
    assert!(matches!(service_answer(500, None), ServiceAnswer::Nothing));
}

#[test]
fn linking_waits_for_the_button() {
    let reply = |success: Option<Credentials>, error: Option<&str>| {
        vec![LinkReply { success, error: error.map(str::to_string) }]
    };
    let credentials = || {
        Some(Credentials { username: "u".to_string(), client_key: "k".to_string() })
    };
    assert!(matches!(
        link_step(&reply(credentials(), Some("odd"))).unwrap(),
        LinkStep::Linked { username, client_key } if username == "u" && client_key == "k"
    ));
    assert!(matches!(link_step(&vec![]).unwrap(), LinkStep::Wait));
    assert!(matches!(link_step(&reply(None, None)).unwrap(), LinkStep::Wait));
    assert!(matches!(
        link_step(&reply(None, Some("link button not pressed"))).unwrap(),
        LinkStep::Wait
    ));
    let error = link_step(&reply(None, Some("unauthorized user"))).unwrap_err();
    assert_eq!(error.message(), "Bridge error: unauthorized user");
    assert!(matches!(error, SetupError::Refused(_)));
    assert_eq!(link_url("b"), "https://b/api");
    assert!(check_link_time(LINK_TIMEOUT).is_ok());
    let error = check_link_time(LINK_TIMEOUT + 1).unwrap_err();
    assert!(matches!(error, SetupError::TimedOut));
    assert_eq!(error.message(), "Timed out waiting for Hue Bridge button press (60s limit).");
    assert_eq!(LINK_TIMEOUT, std::time::Duration::from_secs(60).as_nanos());
}

#[test]
fn areas_are_chosen_by_name() {
    let areas = vec![
        Area { id: "1".to_string(), name: "Room".to_string() },
        Area { id: "2".to_string(), name: "Stage".to_string() },
    ];
    assert_eq!(area_names(&areas).unwrap(), vec!["Room", "Stage"]);
    assert_eq!(chosen_area(&areas, 1), "2");
    let error = area_names(&vec![]).unwrap_err();
    assert!(matches!(error, SetupError::NoAreas));
    assert_eq!(
        error.message(),
        "No Entertainment Areas found. Please create one in the Hue App first."
    );
    assert_eq!(
        areas_url("b"),
        "https://b/clip/v2/resource/entertainment_configuration"
    );
}

#[test]
fn setting_up_needs_devices_and_bridges() {
    assert!(check_devices(&vec!["A".to_string()]).is_ok());
    let error = check_devices(&vec![]).unwrap_err();
    assert!(matches!(error, SetupError::NoMidiDevices));
    assert_eq!(
        error.message(),
        "No MIDI devices found. Please connect a device and try again."
    );
    assert_eq!(
        SetupError::NoBridge("x".to_string()).message(),
        "Could not find Hue bridge with ID x on the network"
    );
}

#[test]
fn newer_releases_are_announced() {
    assert_eq!(
        update_notice("v0.2.0", "0.1.9").unwrap().unwrap(),
        "A new version of PulsePlex is available (vv0.2.0). Run 'brew upgrade pulseplex' to update."
    );
    assert!(update_notice("vv0.10.0", "0.9.0").unwrap().is_some());
    assert!(update_notice("0.1.0", "0.1.0").unwrap().is_none());
    assert!(update_notice("v0.1.0", "0.2.0").unwrap().is_none());
    assert!(update_notice("v1.0.0-rc.1", "1.0.0").unwrap().is_none());
    assert!(update_notice("1.0.0", "1.0.0-rc.1").unwrap().is_some());
    assert!(matches!(update_notice("v1.0", "1.0.0"), Err(UpdateError::NoVersion(_))));
    assert!(matches!(update_notice("1.0.0", "latest"), Err(UpdateError::NoVersion(_))));
    assert!(notice_for("x", false).is_none());
    assert!(notice_for("x", true).unwrap().contains("(vx)"));
}

#[test]
fn release_errors_name_the_current_version_first() {
    let message = |tag, current| match update_notice(tag, current) {
        Err(UpdateError::NoVersion(error)) => error.to_string(),
        Ok(_) => unreachable!(),
    };
    let expected = |text: &str| semver::Version::parse(text).unwrap_err().to_string();
    assert_eq!(message("v1.0", "x.1"), expected("x.1"));
    assert_eq!(message("1.0.0", "x.1"), expected("x.1"));
    assert_eq!(message("v1.0", "1.0.0"), expected("1.0"));
    assert_ne!(expected("x.1"), expected("1.0"));
}

#[test]
fn listening_ends_with_the_time() {
    assert!(keeps_listening(0, 3_000_000_000));
    assert!(keeps_listening(2_999_999_999, 3_000_000_000));
    assert!(!keeps_listening(3_000_000_000, 3_000_000_000));
    assert!(!keeps_listening(0, 0));
}

#[test]
fn events_are_logged() {
    let trigger = |id, velocity| event_text(&SourceEvent::Trigger { id, velocity });
    assert_eq!(trigger(7, 100), "Trigger ID: 7   Vel: 100");
    assert_eq!(trigger(12345, 5), "Trigger ID: 12345 Vel: 5  ");
    assert_eq!(trigger(7, 100), format!("Trigger ID: {:<3} Vel: {:<3}", 7, 100));
    let frame = SourceEvent::DmxFrame { universe: 3, data: Box::new([0; 512]) };
    assert_eq!(event_text(&frame), "DMX Frame (Uni 3)");
    assert_eq!(event_text(&SourceEvent::ClearAll), "Clear All");
}

#[test]
fn logs_hold_the_latest_entries() {
    let mut log: Vec<usize> = Vec::new();
    for n in 0..120 {
        record(&mut log, n);
        let from = (n + 1).saturating_sub(LOG_LENGTH);
        assert_eq!(log, (from..=n).collect::<Vec<usize>>());
    }
    assert_eq!(log.len(), 50);
}

#[test]
fn headers_tell_the_state() {
    assert_eq!(
        header_text("0.1.0", 61, 3),
        " PulsePlex v0.1.0 | Uptime: 61s | Active Envelopes: 3"
    );
    assert!(header_text("x", u64::MAX, 0).contains("18446744073709551615s"));
}

#[test]
fn channels_are_laid_out_in_rows() {
    for (width, expected) in [(0, 1), (2, 1), (3, 1), (4, 1), (5, 1), (6, 2), (82, 40)] {
        assert_eq!(columns(width), expected, "{width}");
    }
    assert_eq!(columns(65535), 32766);
    let mut channels = [0u8; 512];
    for (i, value) in channels.iter_mut().enumerate() {
        *value = (i % 256) as u8;
    }
    for cols in [1, 2, 7, 40, 511, 512, 513] {
        let lines = channel_rows(&channels, cols);
        assert_eq!(lines.len(), 512usize.div_ceil(cols));
        assert!(lines[..lines.len() - 1].iter().all(|line| line.len() == cols));
        let cells: Vec<Shade> = lines.concat();
        assert_eq!(cells.len(), 512);
        for (i, cell) in cells.iter().enumerate() {
            let value = (i % 256) as u8;
            let expected = if value == 0 { Shade::Off } else { Shade::Gray(value) };
            assert_eq!(*cell, expected);
        }
    }
}

#[test]
fn texts_are_searched_and_replaced() {
    assert!(contains("abcabd", "abd"));
    assert!(contains("abc", ""));
    assert!(!contains("", "a"));
    assert_eq!(replace_all("aaaa", "aa", "b"), "aaaa".replace("aa", "b"));
    assert_eq!(replace_all("aaa", "aa", "b"), "aaa".replace("aa", "b"));
    assert_eq!(replace_all("äöä", "ä", ""), "ö");
    assert_eq!(trim_leading("vv1v", 'v'), "1v");
    assert_eq!(trim_leading("vv", 'v'), "");
    assert_eq!(up_to("a.b.c", '.'), "a");
    assert_eq!(up_to("abc", '.'), "abc");
    let mut out = String::from("n=");
    push_decimal(&mut out, 0);
    push_decimal(&mut out, 1203);
    push_left_aligned(&mut out, 5, 3);
    push_left_aligned(&mut out, 12345, 3);
    assert_eq!(out, "n=012035  12345");
}
