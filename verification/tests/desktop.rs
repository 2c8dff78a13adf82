use mininet::catalog::{split_title as caption_title, Kind, Sort};
use mininet::conversation_state::{decode, encode, ConversationRecord};
use mininet::discussion::split_title;
use mininet::library::{content_type_for, human_size};
use mininet::network_session::{NetworkSession, SESSION_LIMIT_MS, SYNC_INTERVAL_MS};
use mininet::player::{format_duration, playback_for, Playback};
use mininet::privacy::{decode_privacy_settings, encode_privacy_settings, PrivacyState, UpdatePolicy};
use mininet::timeline::age;
use mininet::video::avcc_to_annex_b;
use std::time::Duration;

#[test]
fn content_types_map_to_the_right_playback() {
    assert_eq!(playback_for("audio/mpeg"), Playback::Audio);
    assert_eq!(playback_for("audio/flac"), Playback::Audio);
    assert_eq!(playback_for("image/gif"), Playback::Animation);
    assert_eq!(playback_for("image/webp"), Playback::Animation);
    assert_eq!(playback_for("image/png"), Playback::Image);
    assert_eq!(playback_for("video/mp4"), Playback::Video);
    assert_eq!(playback_for("video/quicktime"), Playback::Video);
    assert_eq!(playback_for("video/webm"), Playback::VideoUnsupported);
    assert_eq!(playback_for("application/pdf"), Playback::Other);
    assert_eq!(format_duration(Duration::from_secs(65).as_secs()), "1:05");
    assert_eq!(format_duration(Duration::from_secs(3725).as_secs()), "1:02:05");
}

#[test]
fn playback_ignores_ascii_case_and_formats_edges() {
    assert_eq!(playback_for("AUDIO/OGG"), Playback::Audio);
    assert_eq!(playback_for("application/OGG"), Playback::Audio);
    assert_eq!(playback_for("Video/X-M4V"), Playback::Video);
    assert_eq!(playback_for("video/x-matroska"), Playback::VideoUnsupported);
    assert_eq!(playback_for(""), Playback::Other);
    assert_eq!(format_duration(0), "0:00");
    assert_eq!(format_duration(59), "0:59");
    assert_eq!(format_duration(3600), "1:00:00");
    assert_eq!(format_duration(36_000 * 10 + 61), "100:01:01");
}

#[test]
fn catalog_kinds_and_sorts_read_well() {
    assert_eq!(Kind::from_content_type("video/webm"), Kind::Video);
    assert_eq!(Kind::from_content_type("audio/wav"), Kind::Music);
    assert_eq!(Kind::from_content_type("image/jpeg"), Kind::Image);
    assert_eq!(Kind::from_content_type("image/gif"), Kind::Animation);
    assert_eq!(Kind::from_content_type("text/plain"), Kind::File);
    assert_eq!(Kind::Animation.label(), "GIF");
    assert_eq!(Kind::File.glyph(), "📋");
    assert_eq!(Sort::MostDiscussed.label(), "Most discussed");
    assert_eq!(Sort::Newest.label(), "Newest");
}

#[test]
fn captions_become_titles_and_descriptions() {
    assert_eq!(
        caption_title("  Holiday clip \n  the beach, at dusk  ", "clip.mp4"),
        ("Holiday clip".to_string(), "the beach, at dusk".to_string())
    );
    assert_eq!(caption_title("   ", "clip.mp4"), ("clip.mp4".to_string(), String::new()));
    assert_eq!(caption_title("", ""), ("Untitled".to_string(), String::new()));
    assert_eq!(caption_title("one line", "x"), ("one line".to_string(), String::new()));
    assert_eq!(split_title("  Title  \n body \n more "), ("Title", "body \n more"));
    assert_eq!(split_title("  just a title "), ("just a title", ""));
}

#[test]
fn author_time_is_real_and_future_time_is_not_underflowed() {
    assert_eq!(age(0, 120_000), "2m");
    assert_eq!(age(0, 7_200_000), "2h");
    assert_eq!(age(0, 172_800_000), "2d");
    assert_eq!(age(u64::MAX, 0), "future author time");
}

#[test]
fn ages_round_down_to_whole_units() {
    assert_eq!(age(1_000, 1_000), "now");
    assert_eq!(age(0, 59_999), "now");
    assert_eq!(age(0, 3_599_999), "59m");
    assert_eq!(age(0, 86_399_999), "23h");
    assert_eq!(age(0, 86_400_000 * 400), "400d");
}

#[test]
fn avcc_samples_become_annex_b() {
    let sample = [0, 0, 0, 2, 0x65, 0xAA, 0, 0, 0, 1, 0x41];
    let mut out = Vec::new();
    avcc_to_annex_b(&sample, 4, &mut out).unwrap();
    assert_eq!(out, vec![0, 0, 0, 1, 0x65, 0xAA, 0, 0, 0, 1, 0x41]);
    assert!(avcc_to_annex_b(&[0, 0, 0, 9, 1], 4, &mut out).is_err());
    let two = [0, 1, 0x67];
    avcc_to_annex_b(&two, 2, &mut out).unwrap();
    assert_eq!(out, vec![0, 0, 0, 1, 0x67]);
}

#[test]
fn avcc_trailing_fragments_and_empty_units() {
    let mut out = vec![9, 9];
    avcc_to_annex_b(&[0, 0, 7], 4, &mut out).unwrap();
    assert!(out.is_empty());
    avcc_to_annex_b(&[0, 0, 0, 1, 5], 1, &mut out).unwrap();
    assert_eq!(out, vec![0, 0, 0, 1, 0, 0, 0, 1, 0, 0, 0, 1, 0, 0, 0, 1, 5]);
}

#[test]
fn privacy_defaults_are_local_and_manual() {
    let state = PrivacyState::default();
    assert!(!state.telemetry);
    assert!(!state.external_sources);
    assert!(!state.relays);
    assert!(!state.lan_discovery);
    assert_eq!(state.update_policy, UpdatePolicy::ManualOnly);
}

#[test]
fn privacy_settings_round_trip_without_telemetry_state() {
    let state = PrivacyState {
        telemetry: true,
        external_sources: true,
        relays: false,
        lan_discovery: true,
        update_policy: UpdatePolicy::Ask,
    };
    let restored = decode_privacy_settings(&encode_privacy_settings(state)).unwrap();
    assert!(!restored.telemetry);
    assert!(restored.external_sources);
    assert!(!restored.relays);
    assert!(restored.lan_discovery);
    assert_eq!(restored.update_policy, UpdatePolicy::Ask);
}

#[test]
fn privacy_bytes_are_strict() {
    assert_eq!(encode_privacy_settings(PrivacyState::default()), [1, 0, 0, 0, 1]);
    assert!(decode_privacy_settings(&[1, 0, 0, 0]).is_none());
    assert!(decode_privacy_settings(&[2, 0, 0, 0, 1]).is_none());
    assert!(decode_privacy_settings(&[1, 2, 0, 0, 1]).is_none());
    assert!(decode_privacy_settings(&[1, 0, 0, 0, 3]).is_none());
}

#[test]
fn truncated_or_oversized_records_fail_closed() {
    assert!(decode(&[]).is_err());
    assert!(decode(&[1, 0, 0, 0, 129]).is_err());
}

#[test]
fn conversation_records_round_trip_without_plaintext_files() {
    let record = ConversationRecord {
        label: "Bob".to_string(),
        peer: "did:mini:bob".to_string(),
        route: [3; 32],
        key: [4; 32],
    };
    let bytes = encode(&[record.clone()]).unwrap();
    assert_eq!(bytes[0], 1);
    assert_eq!(&bytes[1..5], &[0, 0, 0, 1]);
    assert_eq!(&bytes[5..7], &[0, 3]);
    let decoded = decode(&bytes).unwrap();
    assert_eq!(decoded.len(), 1);
    assert_eq!(decoded[0].label, "Bob");
    assert_eq!(decoded[0].peer, "did:mini:bob");
    assert_eq!(decoded, vec![record.clone()]);
    let mut trailing = bytes.clone();
    trailing.push(0);
    assert!(decode(&trailing).is_err());
    let blank = ConversationRecord { label: "   ".to_string(), ..record.clone() };
    assert!(encode(&[blank]).is_err());
    let long = ConversationRecord { label: "x".repeat(81), ..record };
    assert!(encode(&[long]).is_err());
}

#[test]
fn sizes_and_types_read_well() {
    assert_eq!(human_size(512), "512 B");
    assert_eq!(human_size(1536), "1.5 KB");
    assert_eq!(human_size(3 * 1024 * 1024 * 1024), "3.0 GB");
    assert_eq!(content_type_for("x.MKV"), "video/x-matroska");
    assert_eq!(content_type_for("x.bin"), "application/octet-stream");
}

fn float_size(bytes: u64) -> String {
    const UNITS: [&str; 5] = ["B", "KB", "MB", "GB", "TB"];
    let mut value = bytes as f64;
    let mut unit = 0;
    while value >= 1024.0 && unit < UNITS.len() - 1 {
        value /= 1024.0;
        unit += 1;
    }
    if unit == 0 {
        format!("{bytes} B")
    } else {
        format!("{value:.1} {}", UNITS[unit])
    }
}

#[test]
fn sizes_match_floating_point_formatting() {
    let mut samples: Vec<u64> = vec![
        0, 1, 1023, 1024, 1025, 1075, 1076, 1126, 1127, 1280, 1331, 1332, 1536, 1587, 2047, 2048,
        10_240, 1_048_575, 1_048_576, 1_101_004, 1_101_005, 1_153_433, 5_000_000_000,
        1_099_511_627_775, 1_099_511_627_776, 1 << 50, (1 << 53) + 1, (1 << 60) + 12345,
        u64::MAX - 1, u64::MAX,
    ];
    for k in 0..2000u64 {
        samples.push(k * 51 + 1024);
        samples.push(k.wrapping_mul(0x9E37_79B9_7F4A_7C15) >> (k % 60));
    }
    for bytes in samples {
        assert_eq!(human_size(bytes), float_size(bytes), "bytes = {bytes}");
    }
}

#[test]
fn content_types_follow_the_extension() {
    assert_eq!(content_type_for("movie.mp4"), "video/mp4");
    assert_eq!(content_type_for("dir/song.FLAC"), "audio/flac");
    assert_eq!(content_type_for("a.b.JPEG"), "image/jpeg");
    assert_eq!(content_type_for(".bashrc"), "application/octet-stream");
    assert_eq!(content_type_for("noext"), "application/octet-stream");
    assert_eq!(content_type_for("notes.md"), "text/plain");
    assert_eq!(content_type_for("dir.mp4/file"), "application/octet-stream");
}

#[test]
fn unavailable_peer_backs_off_and_success_recovers() {
    let now = 1_000_000u64;
    let mut session = NetworkSession::start("peer.example:46000", now).unwrap();
    assert!(session.due(now));
    session.completed(false, now);
    assert!(!session.due(now + 59_000));
    assert!(session.due(now + 60_000));
    session.completed(false, now);
    assert!(!session.due(now + 119_000));
    session.completed(true, now);
    assert!(session.due(now + SYNC_INTERVAL_MS));
    assert_eq!(session.endpoint(), "peer.example:46000");
}

#[test]
fn consent_expires_even_if_every_attempt_failed() {
    let now = 1_000_000u64;
    let session = NetworkSession::start("[::1]:46000", now).unwrap();
    assert!(session.expired(now + SESSION_LIMIT_MS));
    assert!(!session.due(now + SESSION_LIMIT_MS));
}

#[test]
fn invalid_configuration_never_starts_a_session() {
    let now = 1_000_000u64;
    for endpoint in ["", "host", ":123", "host:0", "host:65536", "host name:80"] {
        assert!(NetworkSession::start(endpoint, now).is_err());
    }
    assert!(NetworkSession::start("  host:+80 ", now).is_ok());
    assert_eq!(NetworkSession::start(" host:80 ", now).unwrap().endpoint(), "host:80");
    assert_eq!(
        NetworkSession::start("host", now).unwrap_err(),
        "A peer port is required."
    );
}
