use mininet::peer_link::{PrivateOutcome, TicketOutcome};
use mininet::video::{Event, Frame, Probe, MAX_VIDEO_BYTES};

#[test]
fn ticket_summary_reports_both_sides_in_whole_kilobytes() {
    let outcome = TicketOutcome {
        issued_bytes: 10 * 1024 + 1023,
        rate_micro_per_mb: 25,
        received_bytes: Some(2048),
        note: None,
    };
    assert_eq!(
        outcome.summary(),
        "attested 10 KB received at 25 µMINI/MB, peer attested 2 KB served"
    );
    let missing = TicketOutcome {
        issued_bytes: 0,
        rate_micro_per_mb: 0,
        received_bytes: None,
        note: Some("peer ticket expired".into()),
    };
    assert_eq!(
        missing.summary(),
        "attested 0 KB received at 0 µMINI/MB, no ticket from peer, peer ticket expired"
    );
    assert_eq!(TicketOutcome::default().received_bytes, None);
}

#[test]
fn outcomes_and_events_carry_plain_values() {
    let synced = PrivateOutcome::Synced { received: 3, accepted: 2 };
    assert_ne!(synced, PrivateOutcome::NotOnThisPeer);
    let probe = Probe {
        width: 320,
        height: 180,
        duration_ms: 10_000,
        has_aac_audio: true,
        video_codec: "avc1".into(),
    };
    let frame = Frame { pts_micros: 40_000, width: 2, height: 1, rgb: vec![0; 6] };
    let events = [Event::Probed(probe.clone()), Event::Frame(frame), Event::Ended];
    assert!(matches!(&events[0], Event::Probed(p) if *p == probe));
    assert!(matches!(&events[1], Event::Frame(f) if f.rgb.len() == f.width * f.height * 3));
    assert_eq!(MAX_VIDEO_BYTES, 512 * 1024 * 1024);
}

use mininet::peer_link::{
    public_summary, ExchangeBudget, Intent, INTENT_FETCH, INTENT_PRIVATE, INTENT_PUBLIC,
};
use mininet::text::short_did;
use mininet::theme::avatar_color;

#[test]
fn intent_frames_round_trip_and_reject_wrong_lengths() {
    assert_eq!(Intent::decode(&Intent::Public.encode()), Ok(Intent::Public));
    let route = [5u8; 32];
    assert_eq!(Intent::decode(&Intent::Private(route).encode()), Ok(Intent::Private(route)));
    assert!(Intent::decode(&[]).is_err());
    assert!(Intent::decode(&[INTENT_PRIVATE; 10]).is_err());
    assert!(Intent::decode(&[INTENT_PRIVATE; 34]).is_err());
    assert!(Intent::decode(&[9]).is_err());
    assert_eq!(
        Intent::decode(&Intent::Search("hi there".into()).encode()),
        Ok(Intent::Search("hi there".into()))
    );
    assert!(Intent::decode(&[INTENT_FETCH]).is_err());
}

#[test]
fn intent_frames_bound_queries_and_ids() {
    assert_eq!(Intent::Public.encode(), vec![INTENT_PUBLIC]);
    let long = "q".repeat(250);
    assert_eq!(Intent::decode(&Intent::Search(long).encode()), Ok(Intent::Search("q".repeat(200))));
    let mut too_long = vec![3u8];
    too_long.extend_from_slice("é".repeat(201).as_bytes());
    assert_eq!(Intent::decode(&too_long).unwrap_err(), "search query too long");
    assert_eq!(Intent::decode(&[3, 0xff]).unwrap_err(), "search query is not UTF-8");
    let ids = vec!["a1".to_string(), "b2".to_string()];
    let frame = Intent::Fetch(ids.clone()).encode();
    assert_eq!(frame, b"\x04a1,b2".to_vec());
    assert_eq!(Intent::decode(&frame), Ok(Intent::Fetch(ids)));
    assert_eq!(Intent::decode(b"\x04,,x,,y,"), Ok(Intent::Fetch(vec!["x".into(), "y".into()])));
    assert_eq!(Intent::decode(b"\x04,,").unwrap_err(), "fetch names no objects");
    let many: Vec<String> = (0..70).map(|i| format!("id{i}")).collect();
    match Intent::decode(&Intent::Fetch(many.clone()).encode()) {
        Ok(Intent::Fetch(got)) => assert_eq!(got, many[..64].to_vec()),
        other => panic!("unexpected {other:?}"),
    }
    assert_eq!(Intent::decode(&[1, 1]).unwrap_err(), "peer sent an unrecognized intent");
}

#[test]
fn bounded_bearer_stops_at_deadline_and_byte_budget() {
    let mut budget = ExchangeBudget::new(60_000, 10);
    assert!(budget.charge(0, 6).is_ok());
    // 6 + 6 > 10: the second frame is refused before it is sent.
    assert_eq!(budget.charge(0, 6).unwrap_err(), "exchange byte budget exceeded");
    assert!(budget.receive(1, 4).is_ok());
    assert_eq!(budget.received_bytes(), 4);
    assert!(budget.receive(1, 1).is_err());
    let mut expired = ExchangeBudget::new(100, 1 << 20);
    assert_eq!(expired.charge(100, 1).unwrap_err(), "exchange deadline exceeded");
    assert!(expired.receive(200, 0).is_err());
    assert_eq!(expired.received_bytes(), 0);
}

#[test]
fn small_reports_read_well() {
    assert_eq!(
        public_summary(5, 3, 1, 0, 2),
        "received 5, accepted 3, identity carriers 1, unknown authors 0, invalid 2"
    );
    assert_eq!(short_did("did:mini:short"), "did:mini:short");
    assert_eq!(short_did("did:mini:0123456789"), "did:mini:0123456789");
    assert_eq!(short_did("did:mini:0123456789A"), "did:mini:012345678…");
}

#[test]
fn avatar_color_is_stable_for_the_same_seed() {
    assert_eq!(avatar_color("did:mini:abc"), avatar_color("did:mini:abc"));
    // djb2("") = 5381, 5381 % 8 = 5.
    assert_eq!(avatar_color(""), (255, 122, 89));
}
